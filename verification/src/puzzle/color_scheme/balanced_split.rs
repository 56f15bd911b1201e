//! The [`BalancedSplitScheme`] color scheme, which splits the puzzle into smaller grids until
//! reaching a minimum size.
//!
//! Which way a grid is split may depend on its aspect ratio compared with a cutoff fraction. That
//! comparison is made by the cutoff type itself (see [`AspectCutoff`]); everything else (how many
//! layers there are, which half a position falls in, and which grid holds it) is decided here.

use vstd::prelude::*;

use vstd::arithmetic::power2::{lemma2_to64, lemma2_to64_rest, lemma_pow2_unfold, pow2};

use crate::arith::{div_ceil, div_ceil_u64, lemma_div_ceil_bounds};
use crate::puzzle::color_scheme::multi_layer::{Layer, MultiLayerColorSchemeError};
use crate::puzzle::color_scheme::ColorSchemeError;
use crate::puzzle::grids::Grids;
use crate::puzzle::label::rect_partition::Rect;
use crate::puzzle::size::{group_size, Size};

verus! {

broadcast use group_size;

/// Ways of splitting the puzzle. `T` is the type of the cutoff fraction.
#[derive(Clone, Copy, Debug, PartialEq)]
pub enum Splitting<T> {
    /// Prioritizes splitting the puzzle into the top and bottom halves. If the `height / width`
    /// aspect ratio is smaller than the cutoff fraction, the puzzle is split into left and right
    /// halves instead.
    UpDown {
        /// The minimum `height / width` aspect ratio for splitting into top and bottom halves.
        cutoff_fraction: T,
    },
    /// Prioritizes splitting the puzzle into the left and right halves. If the `width / height`
    /// aspect ratio is smaller than the cutoff fraction, the puzzle is split into top and bottom
    /// halves instead.
    LeftRight {
        /// The minimum `width / height` aspect ratio for splitting into left and right halves.
        cutoff_fraction: T,
    },
    /// Splits the puzzle into four quadrants. If one dimension is smaller than the minimum
    /// splitting size, the puzzle is split into two halves instead.
    Quarters,
}

/// A cutoff fraction for an aspect ratio.
pub trait AspectCutoff {
    /// Whether the aspect ratio `numerator / denominator` is at least this cutoff fraction.
    fn admits(&self, numerator: u64, denominator: u64) -> bool;
}

/// What the color of a position is taken from, on one layer of a [`BalancedSplitScheme`].
#[derive(Clone, Copy, Debug, PartialEq, Eq)]
pub enum SplitColor {
    /// The grid holding the position can not be split further: the small scheme colors the
    /// position `pos` of a puzzle of size `size`.
    Small {
        /// The size of the grid.
        size: Size,
        /// The position within the grid.
        pos: (u64, u64),
    },
    /// The grid coloring colors the label `label` out of `num_labels`.
    Grid {
        /// Which part of the last split holds the position.
        label: u64,
        /// The number of parts of a split.
        num_labels: u64,
    },
}

/// A multi-layer color scheme that repeatedly splits the puzzle until reaching the minimum
/// splitting size.
#[derive(Debug, PartialEq)]
pub struct BalancedSplitScheme<S, C, T> {
    small_scheme: S,
    grid_coloring: C,
    minimum_splitting_size: (u64, u64),
    splitting: Splitting<T>,
}

/// How many layers a side of length `len` gives: one, plus one for each time it is halved
/// (rounding up) while it is at least `min`.
pub open spec fn halving_layers(len: int, min: int) -> int
    decreases len,
{
    if min >= 2 && len >= min {
        1 + halving_layers(div_ceil(len, 2), min)
    } else {
        1
    }
}

/// The number of labels of a split.
pub open spec fn split_labels<T>(splitting: Splitting<T>) -> u64 {
    match splitting {
        Splitting::Quarters => 4,
        _ => 2,
    }
}

/// The number of layers of a scheme on a `width x height` puzzle.
pub open spec fn scheme_layers<T>(splitting: Splitting<T>, min: (u64, u64), width: u64, height: u64) -> int {
    let w = halving_layers(width as int, min.0 as int);
    let h = halving_layers(height as int, min.1 as int);
    match splitting {
        Splitting::Quarters => if w >= h {
            w
        } else {
            h
        },
        _ => w + h - 1,
    }
}

/// Which sides a `width x height` grid is split along, given whether its aspect ratio (in the
/// splitting's preferred direction) reaches the cutoff fraction: `(split width, split height)`.
pub open spec fn split_axes<T>(
    splitting: Splitting<T>,
    min: (u64, u64),
    width: u64,
    height: u64,
    aspect_ok: bool,
) -> (bool, bool) {
    let (sw, sh) = match splitting {
        Splitting::UpDown { .. } => if aspect_ok && height >= min.1 {
            (false, true)
        } else {
            (true, false)
        },
        Splitting::LeftRight { .. } => if aspect_ok && width >= min.0 {
            (true, false)
        } else {
            (false, true)
        },
        Splitting::Quarters => (width >= min.0, height >= min.1),
    };
    (sw && width >= min.0, sh && height >= min.1)
}

/// Halving a side of length `len` that holds `p`: the length of the half holding `p`, the
/// position of `p` in it, and which half it is (0 for the first, 1 for the second).
pub open spec fn halve(len: u64, p: u64) -> (u64, u64, u64) {
    let half = div_ceil(len as int, 2);
    if p < half {
        (half as u64, p, 0)
    } else {
        ((len - half) as u64, (p - half) as u64, 1)
    }
}

/// Where the color of position `(x, y)` of a `w x h` grid is taken from, after splitting it once
/// for each entry of `oks`, which says whether the aspect ratio reached the cutoff at that step;
/// `label` is the label given by the previous split.
pub open spec fn color_walk<T>(
    splitting: Splitting<T>,
    min: (u64, u64),
    dims: (u64, u64),
    pos: (u64, u64),
    label: u64,
    oks: Seq<bool>,
) -> SplitColor
    decreases oks.len(),
{
    if oks.len() == 0 {
        SplitColor::Grid { label, num_labels: split_labels(splitting) }
    } else {
        let axes = split_axes(splitting, min, dims.0, dims.1, oks[0]);
        if !axes.0 && !axes.1 {
            SplitColor::Small { size: Size::spec_new(dims.0, dims.1), pos }
        } else {
            let (d, p, l) = color_step(dims, pos, axes);
            color_walk(splitting, min, d, p, l, oks.drop_first())
        }
    }
}

/// The edges `(left, top, right, bottom)` of the grid that holds position `(x, y)` of a `w x h`
/// grid placed at `origin`, after splitting it once for each entry of `oks` exactly as
/// [`color_walk`] does: each split keeps the part that holds the position, and once the grid can
/// not be split further it stays as it is.
pub open spec fn grid_walk<T>(
    splitting: Splitting<T>,
    min: (u64, u64),
    dims: (u64, u64),
    pos: (u64, u64),
    origin: (int, int),
    oks: Seq<bool>,
) -> (int, int, int, int)
    decreases oks.len(),
{
    let here = (origin.0, origin.1, origin.0 + dims.0, origin.1 + dims.1);
    if oks.len() == 0 {
        here
    } else {
        let axes = split_axes(splitting, min, dims.0, dims.1, oks[0]);
        if !axes.0 && !axes.1 {
            here
        } else {
            let (d, p, l) = color_step(dims, pos, axes);
            grid_walk(
                splitting,
                min,
                d,
                p,
                (origin.0 + pos.0 - p.0, origin.1 + pos.1 - p.1),
                oks.drop_first(),
            )
        }
    }
}

/// Walking a sequence that starts with `ok` takes one step, then walks the rest.
proof fn lemma_grid_walk_step<T>(
    splitting: Splitting<T>,
    min: (u64, u64),
    dims: (u64, u64),
    pos: (u64, u64),
    origin: (int, int),
    ok: bool,
    rest: Seq<bool>,
)
    ensures
        ({
            let axes = split_axes(splitting, min, dims.0, dims.1, ok);
            let (d, p, l) = color_step(dims, pos, axes);
            grid_walk(splitting, min, dims, pos, origin, seq![ok] + rest) == if !axes.0 && !axes.1 {
                (origin.0, origin.1, origin.0 + dims.0, origin.1 + dims.1)
            } else {
                grid_walk(
                    splitting,
                    min,
                    d,
                    p,
                    (origin.0 + pos.0 - p.0, origin.1 + pos.1 - p.1),
                    rest,
                )
            }
        }),
{
    let full = seq![ok] + rest;
    assert(full.drop_first() =~= rest);
    assert(full[0] == ok);
}

/// Whether `ok` is the cutoff's answer on a `w x h` grid: what [`AspectCutoff::admits`] returns
/// for its aspect ratio in the splitting's preferred direction, and `false` for quarters.
pub open spec fn cutoff_answer<T: AspectCutoff>(splitting: Splitting<T>, dims: (u64, u64), ok: bool) -> bool {
    match splitting {
        Splitting::UpDown { cutoff_fraction } => call_ensures(
            T::admits,
            (&cutoff_fraction, dims.1, dims.0),
            ok,
        ),
        Splitting::LeftRight { cutoff_fraction } => call_ensures(
            T::admits,
            (&cutoff_fraction, dims.0, dims.1),
            ok,
        ),
        Splitting::Quarters => !ok,
    }
}

/// Whether each entry of `oks` is the cutoff's answer (see [`cutoff_answer`]) on the grid that
/// the walk of [`color_walk`] has reached at that step, as long as the walk goes on.
pub open spec fn cutoff_answers<T: AspectCutoff>(
    splitting: Splitting<T>,
    min: (u64, u64),
    dims: (u64, u64),
    pos: (u64, u64),
    oks: Seq<bool>,
) -> bool
    decreases oks.len(),
{
    if oks.len() == 0 {
        true
    } else {
        let axes = split_axes(splitting, min, dims.0, dims.1, oks[0]);
        &&& cutoff_answer(splitting, dims, oks[0])
        &&& if !axes.0 && !axes.1 {
            true
        } else {
            let (d, p, l) = color_step(dims, pos, axes);
            cutoff_answers(splitting, min, d, p, oks.drop_first())
        }
    }
}

/// Answers that start with `ok` hold when `ok` is the cutoff's answer here and the rest hold
/// where the walk goes next.
proof fn lemma_cutoff_answers_step<T: AspectCutoff>(
    splitting: Splitting<T>,
    min: (u64, u64),
    dims: (u64, u64),
    pos: (u64, u64),
    ok: bool,
    rest: Seq<bool>,
)
    ensures
        ({
            let axes = split_axes(splitting, min, dims.0, dims.1, ok);
            let (d, p, l) = color_step(dims, pos, axes);
            cutoff_answers(splitting, min, dims, pos, seq![ok] + rest) == (cutoff_answer(
                splitting,
                dims,
                ok,
            ) && if !axes.0 && !axes.1 {
                true
            } else {
                cutoff_answers(splitting, min, d, p, rest)
            })
        }),
{
    let full = seq![ok] + rest;
    assert(full.drop_first() =~= rest);
    assert(full[0] == ok);
}

/// One step of [`color_walk`] on a `w x h` grid that is split along at least one side: the
/// size of the part holding `pos`, its position there, and its label.
pub open spec fn color_step(dims: (u64, u64), pos: (u64, u64), axes: (bool, bool)) -> (
    (u64, u64),
    (u64, u64),
    u64,
) {
    let (sw, sh) = axes;
    let (w, x, left) = if sw {
        halve(dims.0, pos.0)
    } else {
        (dims.0, pos.0, 1)
    };
    let (h, y, top) = if sh {
        halve(dims.1, pos.1)
    } else {
        (dims.1, pos.1, 1)
    };
    let label = if sw && sh {
        (left + 2 * top) as u64
    } else if sw {
        left
    } else {
        top
    };
    ((w, h), (x, y), label)
}

/// Walking a sequence that starts with `ok` takes one step, then walks the rest.
proof fn lemma_color_walk_step<T>(
    splitting: Splitting<T>,
    min: (u64, u64),
    dims: (u64, u64),
    pos: (u64, u64),
    label: u64,
    ok: bool,
    rest: Seq<bool>,
)
    ensures
        ({
            let axes = split_axes(splitting, min, dims.0, dims.1, ok);
            let (d, p, l) = color_step(dims, pos, axes);
            color_walk(splitting, min, dims, pos, label, seq![ok] + rest) == if !axes.0 && !axes.1 {
                SplitColor::Small { size: Size::spec_new(dims.0, dims.1), pos }
            } else {
                color_walk(splitting, min, d, p, l, rest)
            }
        }),
{
    let full = seq![ok] + rest;
    assert(full.drop_first() =~= rest);
    assert(full[0] == ok);
}

/// A side no longer than `2^k` gives at most `k + 1` layers.
proof fn lemma_halving_layers_bound(len: int, min: int, k: nat)
    requires
        1 <= len <= pow2(k),
    ensures
        1 <= halving_layers(len, min) <= k + 1,
    decreases len,
{
    if min >= 2 && len >= min {
        lemma_div_ceil_bounds(len, 2);
        if k == 0 {
            assert(pow2(0) == 1) by {
                lemma2_to64();
            }
        }
        assert(k >= 1);
        let next = div_ceil(len, 2);
        assert(next <= pow2((k - 1) as nat)) by {
            vstd::arithmetic::div_mod::lemma_fundamental_div_mod(len, 2);
            lemma_pow2_unfold(k);
        }
        lemma_halving_layers_bound(next, min, (k - 1) as nat);
    }
}

/// A side of a puzzle gives at most 65 layers.
proof fn lemma_halving_layers_u64(len: u64, min: u64)
    requires
        len >= 1,
    ensures
        1 <= halving_layers(len as int, min as int) <= 65,
{
    assert(pow2(64) == 0x1_0000_0000_0000_0000) by {
        lemma2_to64_rest();
    }
    lemma_halving_layers_bound(len as int, min as int, 64);
}

impl<S, C, T> BalancedSplitScheme<S, C, T> {
    /// The small scheme, in specifications.
    pub closed spec fn spec_small_scheme(&self) -> S {
        self.small_scheme
    }

    /// The grid coloring, in specifications.
    pub closed spec fn spec_grid_coloring(&self) -> C {
        self.grid_coloring
    }

    /// The minimum splitting size, in specifications.
    pub closed spec fn spec_minimum_splitting_size(&self) -> (u64, u64) {
        self.minimum_splitting_size
    }

    /// The splitting, in specifications.
    pub closed spec fn spec_splitting(&self) -> Splitting<T> {
        self.splitting
    }

    /// Creates a new [`BalancedSplitScheme`].
    pub fn new(
        small_scheme: S,
        grid_coloring: C,
        minimum_splitting_size: (u64, u64),
        splitting: Splitting<T>,
    ) -> (r: Self)
        ensures
            r.spec_small_scheme() == small_scheme,
            r.spec_grid_coloring() == grid_coloring,
            r.spec_minimum_splitting_size() == minimum_splitting_size,
            r.spec_splitting() == splitting,
    {
        Self { small_scheme, grid_coloring, minimum_splitting_size, splitting }
    }

    /// The color scheme used for small grids.
    pub fn small_scheme(&self) -> (r: &S)
        ensures
            *r == self.spec_small_scheme(),
    {
        &self.small_scheme
    }

    /// The coloring used for grids that aren't fully split.
    pub fn grid_coloring(&self) -> (r: &C)
        ensures
            *r == self.spec_grid_coloring(),
    {
        &self.grid_coloring
    }

    /// The minimum width and height of a grid that can be split.
    pub fn minimum_splitting_size(&self) -> (r: (u64, u64))
        ensures
            r == self.spec_minimum_splitting_size(),
    {
        self.minimum_splitting_size
    }

    /// The way that grids are split.
    pub fn splitting(&self) -> (r: &Splitting<T>)
        ensures
            *r == self.spec_splitting(),
    {
        &self.splitting
    }

    /// The number of labels that the grid coloring is asked for: 2 for a split into halves, 4 for
    /// quarters.
    pub fn num_labels(&self) -> (r: u64)
        ensures
            r == split_labels(self.spec_splitting()),
    {
        match self.splitting {
            Splitting::Quarters => 4,
            _ => 2,
        }
    }

    /// The number of layers on a puzzle of the given size. Each side counts one layer, plus one
    /// for each time it is halved while it is at least the minimum splitting size; halves and
    /// quarters combine them as [`scheme_layers`] says.
    pub fn num_layers(&self, size: Size) -> (r: u32)
        requires
            self.spec_minimum_splitting_size().0 >= 2,
            self.spec_minimum_splitting_size().1 >= 2,
        ensures
            r == scheme_layers(
                self.spec_splitting(),
                self.spec_minimum_splitting_size(),
                size.spec_width(),
                size.spec_height(),
            ),
    {
        let (min_w, min_h) = self.minimum_splitting_size;
        let (w0, h0) = (size.width(), size.height());
        proof {
            lemma_halving_layers_u64(w0, min_w);
            lemma_halving_layers_u64(h0, min_h);
        }
        let mut width = w0;
        let mut w_layers: u32 = 1;
        while width >= min_w
            invariant
                min_w >= 2,
                width >= 1,
                1 <= w_layers,
                w_layers + halving_layers(width as int, min_w as int) - 1 == halving_layers(
                    w0 as int,
                    min_w as int,
                ),
                halving_layers(w0 as int, min_w as int) <= 65,
                halving_layers(width as int, min_w as int) >= 1,
            decreases width,
        {
            proof {
                lemma_div_ceil_bounds(width as int, 2);
                lemma_halving_layers_u64(div_ceil(width as int, 2) as u64, min_w);
            }
            width = div_ceil_u64(width, 2);
            w_layers = w_layers + 1;
        }
        let mut height = h0;
        let mut h_layers: u32 = 1;
        while height >= min_h
            invariant
                min_h >= 2,
                height >= 1,
                1 <= h_layers,
                h_layers + halving_layers(height as int, min_h as int) - 1 == halving_layers(
                    h0 as int,
                    min_h as int,
                ),
                halving_layers(h0 as int, min_h as int) <= 65,
                halving_layers(height as int, min_h as int) >= 1,
            decreases height,
        {
            proof {
                lemma_div_ceil_bounds(height as int, 2);
                lemma_halving_layers_u64(div_ceil(height as int, 2) as u64, min_h);
            }
            height = div_ceil_u64(height, 2);
            h_layers = h_layers + 1;
        }
        match self.splitting {
            Splitting::Quarters => if w_layers >= h_layers {
                w_layers
            } else {
                h_layers
            },
            _ => w_layers + h_layers - 1,
        }
    }

    /// Which sides a `width x height` grid is split along, given whether its aspect ratio reaches
    /// the cutoff fraction: `(split width, split height)`.
    pub fn split_axes(&self, width: u64, height: u64, aspect_ok: bool) -> (r: (bool, bool))
        ensures
            r == split_axes(
                self.spec_splitting(),
                self.spec_minimum_splitting_size(),
                width,
                height,
                aspect_ok,
            ),
    {
        let (min_w, min_h) = self.minimum_splitting_size;
        let (sw, sh) = match self.splitting {
            Splitting::UpDown { .. } => if aspect_ok && height >= min_h {
                (false, true)
            } else {
                (true, false)
            },
            Splitting::LeftRight { .. } => if aspect_ok && width >= min_w {
                (true, false)
            } else {
                (false, true)
            },
            Splitting::Quarters => (width >= min_w, height >= min_h),
        };
        (sw && width >= min_w, sh && height >= min_h)
    }

    /// Returns the given [`Layer`] of the scheme, if it exists.
    pub fn layer(&self, size: Size, layer: u32) -> (r: Option<Layer<&Self>>)
        requires
            self.spec_minimum_splitting_size().0 >= 2,
            self.spec_minimum_splitting_size().1 >= 2,
        ensures
            layer < scheme_layers(
                self.spec_splitting(),
                self.spec_minimum_splitting_size(),
                size.spec_width(),
                size.spec_height(),
            ) <==> r is Some,
            r is Some ==> r->Some_0.spec_layer() == layer && *r->Some_0.spec_scheme() == *self,
    {
        if layer < self.num_layers(size) {
            Some(Layer::new(self, layer))
        } else {
            None
        }
    }
}

/// Halves `len`, which holds `p`: see [`halve`].
fn halve_exec(len: u64, p: u64) -> (r: (u64, u64, u64))
    requires
        p < len,
    ensures
        r == halve(len, p),
        r.1 < r.0,
        r.0 <= len,
        r.2 < 2,
{
    proof {
        lemma_div_ceil_bounds(len as int, 2);
    }
    let half = div_ceil_u64(len, 2);
    if p < half {
        (half, p, 0)
    } else {
        (len - half, p - half, 1)
    }
}

impl<S, C, T: AspectCutoff> BalancedSplitScheme<S, C, T> {
    /// Whether the aspect ratio of a `width x height` grid, in the direction that the splitting
    /// prefers, reaches its cutoff fraction. Always `false` for quarters, which have no cutoff.
    pub fn aspect_ok(&self, width: u64, height: u64) -> (r: bool)
        ensures
            cutoff_answer(self.spec_splitting(), (width, height), r),
    {
        match &self.splitting {
            Splitting::UpDown { cutoff_fraction } => cutoff_fraction.admits(height, width),
            Splitting::LeftRight { cutoff_fraction } => cutoff_fraction.admits(width, height),
            Splitting::Quarters => false,
        }
    }

    /// Where the color of the position `pos` on layer `layer` of a puzzle of size `size` comes
    /// from. The grid is split `layer + 1` times, each time into the halves or quarters that
    /// [`split_axes`] picks (from the cutoff's answer on the current grid), keeping the part that
    /// holds the position; once a grid can not be split, the small scheme colors it.
    ///
    /// The result is [`color_walk`] applied to the cutoff's answers on the grids that the walk
    /// reaches (see [`cutoff_answers`]).
    pub fn color(&self, size: Size, pos: (u64, u64), layer: u32) -> (r: SplitColor)
        requires
            size.spec_is_within_bounds(pos),
        ensures
            exists|oks: Seq<bool>|
                oks.len() == layer + 1 && cutoff_answers(
                    self.spec_splitting(),
                    self.spec_minimum_splitting_size(),
                    (size.spec_width(), size.spec_height()),
                    pos,
                    oks,
                ) && r == #[trigger] color_walk(
                    self.spec_splitting(),
                    self.spec_minimum_splitting_size(),
                    (size.spec_width(), size.spec_height()),
                    pos,
                    0,
                    oks,
                ),
            r matches SplitColor::Small { size: small, pos: p } ==> small.spec_is_within_bounds(p),
            r matches SplitColor::Grid { label, num_labels } ==> label < num_labels
                && num_labels == split_labels(self.spec_splitting()),
    {
        let (mut width, mut height) = (size.width(), size.height());
        let (mut x, mut y) = pos;
        let mut label: u64 = 0;
        let steps: u64 = layer as u64 + 1;
        let mut i: u64 = 0;
        let ghost mut oks: Seq<bool> = Seq::empty();
        let ghost min = self.spec_minimum_splitting_size();
        let ghost splitting = self.spec_splitting();
        while i < steps
            invariant
                i <= steps,
                steps == layer + 1,
                oks.len() == i,
                x < width,
                y < height,
                min == self.spec_minimum_splitting_size(),
                splitting == self.spec_splitting(),
                label < split_labels(splitting),
                forall|rest: Seq<bool>|
                    #![trigger cutoff_answers(splitting, min, (width, height), (x, y), rest)]
                    cutoff_answers(
                        splitting,
                        min,
                        (size.spec_width(), size.spec_height()),
                        pos,
                        oks + rest,
                    ) == cutoff_answers(splitting, min, (width, height), (x, y), rest),
                forall|rest: Seq<bool>|
                    #![trigger color_walk(splitting, min, (width, height), (x, y), label, rest)]
                    color_walk(
                        splitting,
                        min,
                        (size.spec_width(), size.spec_height()),
                        pos,
                        0,
                        oks + rest,
                    ) == color_walk(splitting, min, (width, height), (x, y), label, rest),
            decreases steps - i,
        {
            let ok = self.aspect_ok(width, height);
            let (split_width, split_height) = self.split_axes(width, height, ok);
            let ghost (ow, oh, ox, oy, olabel) = (width, height, x, y, label);
            if !split_width && !split_height {
                let small = match Size::new(width, height) {
                    Ok(s) => {
                        assert(Size::spec_new(width, height).spec_width() == width);
                        s
                    },
                    Err(_) => size,
                };
                let r = SplitColor::Small { size: small, pos: (x, y) };
                proof {
                    let filler = Seq::new((steps - i - 1) as nat, |j: int| false);
                    lemma_color_walk_step(splitting, min, (ow, oh), (ox, oy), olabel, ok, filler);
                    lemma_cutoff_answers_step(splitting, min, (ow, oh), (ox, oy), ok, filler);
                    assert(cutoff_answers(
                        splitting,
                        min,
                        (size.spec_width(), size.spec_height()),
                        pos,
                        oks + (seq![ok] + filler),
                    ));
                    assert(color_walk(
                        splitting,
                        min,
                        (size.spec_width(), size.spec_height()),
                        pos,
                        0,
                        oks + (seq![ok] + filler),
                    ) == r);
                    assert((oks + (seq![ok] + filler)).len() == layer + 1);
                }
                return r;
            }
            let (mut left, mut top): (u64, u64) = (1, 1);
            if split_width {
                let (w2, x2, l2) = halve_exec(width, x);
                width = w2;
                x = x2;
                left = l2;
            }
            if split_height {
                let (h2, y2, t2) = halve_exec(height, y);
                height = h2;
                y = y2;
                top = t2;
            }
            label = if split_width && split_height {
                left + 2 * top
            } else if split_width {
                left
            } else {
                top
            };
            proof {
                assert(((width, height), (x, y), label) == color_step(
                    (ow, oh),
                    (ox, oy),
                    (split_width, split_height),
                ));
                assert forall|rest: Seq<bool>|
                    #![trigger color_walk(splitting, min, (width, height), (x, y), label, rest)]
                    color_walk(
                        splitting,
                        min,
                        (size.spec_width(), size.spec_height()),
                        pos,
                        0,
                        oks.push(ok) + rest,
                    ) == color_walk(splitting, min, (width, height), (x, y), label, rest) by {
                    assert(oks.push(ok) + rest =~= oks + (seq![ok] + rest));
                    lemma_color_walk_step(splitting, min, (ow, oh), (ox, oy), olabel, ok, rest);
                }
                assert forall|rest: Seq<bool>|
                    #![trigger cutoff_answers(splitting, min, (width, height), (x, y), rest)]
                    cutoff_answers(
                        splitting,
                        min,
                        (size.spec_width(), size.spec_height()),
                        pos,
                        oks.push(ok) + rest,
                    ) == cutoff_answers(splitting, min, (width, height), (x, y), rest) by {
                    assert(oks.push(ok) + rest =~= oks + (seq![ok] + rest));
                    lemma_cutoff_answers_step(splitting, min, (ow, oh), (ox, oy), ok, rest);
                }
                oks = oks.push(ok);
            }
            i = i + 1;
        }
        let r = SplitColor::Grid { label, num_labels: self.num_labels() };
        proof {
            assert(oks + Seq::<bool>::empty() =~= oks);
            assert(color_walk(splitting, min, (width, height), (x, y), label, Seq::<bool>::empty())
                == r);
            assert(cutoff_answers(splitting, min, (width, height), (x, y), Seq::<bool>::empty()));
        }
        r
    }

    /// Where the color of `pos` comes from on layer `layer`, with its bounds checked first: an
    /// error if `pos` lies outside the puzzle, or if there is no such layer.
    pub fn try_color(&self, size: Size, pos: (u64, u64), layer: u32) -> (r: Result<
        SplitColor,
        MultiLayerColorSchemeError,
    >)
        requires
            self.spec_minimum_splitting_size().0 >= 2,
            self.spec_minimum_splitting_size().1 >= 2,
        ensures
            !size.spec_is_within_bounds(pos) ==> r == Err::<SplitColor, MultiLayerColorSchemeError>(
                MultiLayerColorSchemeError::ColorSchemeError(
                    ColorSchemeError::PositionOutOfBounds { size, pos },
                ),
            ),
            size.spec_is_within_bounds(pos) && layer >= scheme_layers(
                self.spec_splitting(),
                self.spec_minimum_splitting_size(),
                size.spec_width(),
                size.spec_height(),
            ) ==> r == Err::<SplitColor, MultiLayerColorSchemeError>(
                MultiLayerColorSchemeError::LayerOutOfBounds { layer },
            ),
            r is Ok ==> size.spec_is_within_bounds(pos) && layer < scheme_layers(
                self.spec_splitting(),
                self.spec_minimum_splitting_size(),
                size.spec_width(),
                size.spec_height(),
            ) && exists|oks: Seq<bool>|
                oks.len() == layer + 1 && cutoff_answers(
                    self.spec_splitting(),
                    self.spec_minimum_splitting_size(),
                    (size.spec_width(), size.spec_height()),
                    pos,
                    oks,
                ) && r->Ok_0 == #[trigger] color_walk(
                    self.spec_splitting(),
                    self.spec_minimum_splitting_size(),
                    (size.spec_width(), size.spec_height()),
                    pos,
                    0,
                    oks,
                ),
            size.spec_is_within_bounds(pos) && layer < scheme_layers(
                self.spec_splitting(),
                self.spec_minimum_splitting_size(),
                size.spec_width(),
                size.spec_height(),
            ) ==> r is Ok,
    {
        if !size.is_within_bounds(pos) {
            Err(
                MultiLayerColorSchemeError::ColorSchemeError(
                    ColorSchemeError::PositionOutOfBounds { size, pos },
                ),
            )
        } else if layer >= self.num_layers(size) {
            Err(MultiLayerColorSchemeError::LayerOutOfBounds { layer })
        } else {
            Ok(self.color(size, pos, layer))
        }
    }
}

impl<S, C, T: AspectCutoff> Grids for Layer<&BalancedSplitScheme<S, C, T>> {
    /// The grid holding `pos` on this layer: the part of the puzzle that holds `pos` after the
    /// same `layer + 1` splits as [`BalancedSplitScheme::color`] makes, each decided by the
    /// cutoff's answer on the grid reached so far (see [`grid_walk`] and [`cutoff_answers`]).
    fn grid_containing_pos(&self, size: Size, pos: (u64, u64)) -> (r: Rect)
        ensures
            exists|oks: Seq<bool>|
                oks.len() == self.spec_layer() + 1 && cutoff_answers(
                    self.spec_scheme().spec_splitting(),
                    self.spec_scheme().spec_minimum_splitting_size(),
                    (size.spec_width(), size.spec_height()),
                    pos,
                    oks,
                ) && (
                r.spec_left() as int,
                r.spec_top() as int,
                r.spec_right() as int,
                r.spec_bottom() as int,
            ) == #[trigger] grid_walk(
                    self.spec_scheme().spec_splitting(),
                    self.spec_scheme().spec_minimum_splitting_size(),
                    (size.spec_width(), size.spec_height()),
                    pos,
                    (0, 0),
                    oks,
                ),
    {
        let scheme = self.scheme();
        let (mut width, mut height) = (size.width(), size.height());
        let (mut x, mut y) = pos;
        let (mut left, mut top) = (0u64, 0u64);
        let steps: u64 = self.layer() as u64 + 1;
        let mut i: u64 = 0;
        let ghost mut oks: Seq<bool> = Seq::empty();
        let ghost min = scheme.spec_minimum_splitting_size();
        let ghost splitting = scheme.spec_splitting();
        let ghost full = (size.spec_width(), size.spec_height());
        while i < steps
            invariant
                i <= steps,
                steps == self.spec_layer() + 1,
                oks.len() == i,
                x < width,
                y < height,
                left + x == pos.0,
                top + y == pos.1,
                left + width <= full.0,
                top + height <= full.1,
                full == (size.spec_width(), size.spec_height()),
                min == scheme.spec_minimum_splitting_size(),
                splitting == scheme.spec_splitting(),
                scheme == self.spec_scheme(),
                forall|rest: Seq<bool>|
                    #![trigger cutoff_answers(splitting, min, (width, height), (x, y), rest)]
                    cutoff_answers(splitting, min, full, pos, oks + rest) == cutoff_answers(
                        splitting,
                        min,
                        (width, height),
                        (x, y),
                        rest,
                    ),
                forall|rest: Seq<bool>|
                    #![trigger grid_walk(splitting, min, (width, height), (x, y), (left as int, top as int), rest)]
                    grid_walk(splitting, min, full, pos, (0, 0), oks + rest) == grid_walk(
                        splitting,
                        min,
                        (width, height),
                        (x, y),
                        (left as int, top as int),
                        rest,
                    ),
            decreases steps - i,
        {
            let ok = scheme.aspect_ok(width, height);
            let (split_width, split_height) = scheme.split_axes(width, height, ok);
            let ghost (ow, oh, ox, oy, ol, ot) = (width, height, x, y, left, top);
            if !split_width && !split_height {
                proof {
                    let filler = Seq::new((steps - i - 1) as nat, |j: int| false);
                    lemma_grid_walk_step(
                        splitting,
                        min,
                        (ow, oh),
                        (ox, oy),
                        (ol as int, ot as int),
                        ok,
                        filler,
                    );
                    lemma_cutoff_answers_step(splitting, min, (ow, oh), (ox, oy), ok, filler);
                    let all = oks + (seq![ok] + filler);
                    assert(cutoff_answers(splitting, min, full, pos, all));
                    assert(grid_walk(splitting, min, full, pos, (0, 0), all) == (
                        left as int,
                        top as int,
                        left + width,
                        top + height,
                    ));
                    assert(all.len() == self.spec_layer() + 1);
                }
                return Rect::from_edges(left, top, left + width, top + height);
            }
            if split_width {
                let (w2, x2, l2) = halve_exec(width, x);
                left = left + (x - x2);
                width = w2;
                x = x2;
            }
            if split_height {
                let (h2, y2, t2) = halve_exec(height, y);
                top = top + (y - y2);
                height = h2;
                y = y2;
            }
            proof {
                let (d, p, l) = color_step((ow, oh), (ox, oy), (split_width, split_height));
                assert(d == (width, height) && p == (x, y));
                assert forall|rest: Seq<bool>|
                    #![trigger grid_walk(splitting, min, (width, height), (x, y), (left as int, top as int), rest)]
                    grid_walk(splitting, min, full, pos, (0, 0), oks.push(ok) + rest) == grid_walk(
                        splitting,
                        min,
                        (width, height),
                        (x, y),
                        (left as int, top as int),
                        rest,
                    ) by {
                    assert(oks.push(ok) + rest =~= oks + (seq![ok] + rest));
                    lemma_grid_walk_step(
                        splitting,
                        min,
                        (ow, oh),
                        (ox, oy),
                        (ol as int, ot as int),
                        ok,
                        rest,
                    );
                }
                assert forall|rest: Seq<bool>|
                    #![trigger cutoff_answers(splitting, min, (width, height), (x, y), rest)]
                    cutoff_answers(splitting, min, full, pos, oks.push(ok) + rest)
                        == cutoff_answers(splitting, min, (width, height), (x, y), rest) by {
                    assert(oks.push(ok) + rest =~= oks + (seq![ok] + rest));
                    lemma_cutoff_answers_step(splitting, min, (ow, oh), (ox, oy), ok, rest);
                }
                oks = oks.push(ok);
            }
            i = i + 1;
        }
        proof {
            assert(oks + Seq::<bool>::empty() =~= oks);
            assert(cutoff_answers(splitting, min, (width, height), (x, y), Seq::<bool>::empty()));
            assert(grid_walk(
                splitting,
                min,
                (width, height),
                (x, y),
                (left as int, top as int),
                Seq::<bool>::empty(),
            ) == (left as int, top as int, left + width, top + height));
        }
        Rect::from_edges(left, top, left + width, top + height)
    }
}

} // verus!
