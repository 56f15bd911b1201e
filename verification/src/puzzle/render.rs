//! What a drawing of a puzzle is made of: which pieces are drawn and where each of their colors
//! comes from. The drawing itself, in floating point coordinates, is made outside this crate.

use vstd::prelude::*;

use crate::arith::lemma_split_bound;
use crate::puzzle::puzzle::Puzzle;
use crate::puzzle::size::Size;

verus! {

/// Error type for the renderer.
#[derive(Clone, Copy, Debug, PartialEq, Eq)]
pub enum RendererError {
    /// Returned when the given puzzle size is incompatible with the label.
    IncompatibleLabel(Size),
}

/// A font that text on the pieces can be drawn in.
#[derive(Clone, Copy, Debug, PartialEq, Eq)]
pub enum Font<'a> {
    /// A font installed on the system, specified by the font name.
    Family(&'a str),
    /// A font defined by a URL (including a local file path) and a font format.
    Url {
        /// Path to the font
        path: &'a str,
        /// Format of the font file.
        format: &'a str,
    },
    /// A font defined by base 64 data and a font format.
    Base64 {
        /// Base 64 font data.
        data: &'a str,
        /// Format of the font data.
        format: &'a str,
    },
}

/// Ways that the subscheme can be displayed on the puzzle.
///
/// The default value is [`SubschemeStyle::Rectangle`].
#[derive(Clone, Copy, Debug, PartialEq, Eq, Structural)]
pub enum SubschemeStyle {
    /// Draw the subscheme as a small rectangle at the bottom of each piece.
    Rectangle,
    /// Display the subscheme using the text color.
    TextColor,
    /// Display the subscheme using the border color.
    BorderColor,
}

impl Default for SubschemeStyle {
    fn default() -> (r: Self)
        ensures
            r == SubschemeStyle::Rectangle,
    {
        SubschemeStyle::Rectangle
    }
}

/// Whether the subscheme's color shows as `part` (the text color, the border color, or a small
/// rectangle): only when there is a subscheme and the chosen style is `part`. Otherwise the
/// text and the border take their own scheme's color, and no rectangle is drawn.
pub fn subscheme_shows_as(
    style: Option<SubschemeStyle>,
    has_subscheme: bool,
    part: SubschemeStyle,
) -> (r: bool)
    ensures
        r == (has_subscheme && style == Some(part)),
{
    match style {
        Some(s) => has_subscheme && s == part,
        None => false,
    }
}

/// The positions `(x, y)` among the first `n` positions (counted row by row) of a puzzle `w`
/// wide whose pieces are not the gap, in that order.
pub open spec fn drawn_positions(pieces: Seq<u64>, w: int, n: int) -> Seq<(u64, u64)>
    decreases n,
{
    if n <= 0 {
        Seq::empty()
    } else {
        let rest = drawn_positions(pieces, w, n - 1);
        if pieces[n - 1] != 0 {
            rest.push((((n - 1) % w) as u64, ((n - 1) / w) as u64))
        } else {
            rest
        }
    }
}

/// The positions of the pieces that a drawing of `puzzle` shows, row by row: every position but
/// the gap's.
pub fn drawn_pieces(puzzle: &Puzzle) -> (r: Vec<(u64, u64)>)
    requires
        puzzle.wf(),
    ensures
        r@ == drawn_positions(puzzle@, puzzle.w(), puzzle@.len() as int),
        r@.len() + 1 == puzzle@.len(),
{
    proof {
        puzzle.lemma_wf();
    }
    let size = puzzle.size();
    let width = size.width();
    let area = puzzle.area();
    let mut out: Vec<(u64, u64)> = Vec::new();
    let mut i: u64 = 0;
    while i < area
        invariant
            puzzle.wf(),
            i <= area,
            area == puzzle@.len(),
            width == puzzle.w(),
            width > 0,
            puzzle.w() * puzzle.h() == area,
            out@ == drawn_positions(puzzle@, width as int, i as int),
            out@.len() + (if puzzle.spec_gap() < i { 1int } else { 0 }) == i,
        decreases area - i,
    {
        proof {
            lemma_split_bound(i as int, width as int, puzzle.h());
        }
        let piece = puzzle.piece_at(i);
        proof {
            if i != puzzle.spec_gap() {
                assert(puzzle@[i as int] != puzzle@[puzzle.spec_gap()]);
            }
        }
        if piece != 0 {
            out.push((i % width, i / width));
        }
        i = i + 1;
    }
    out
}

} // verus!
