//! Defines the [`Tiled`] and [`RecursiveTiled`] color schemes: a color scheme applied to a
//! fixed-size rectangle, and tiled across the puzzle.

use vstd::prelude::*;

use crate::puzzle::grids::Grids;
use crate::puzzle::label::grid::Grid;
use crate::puzzle::label::rect_partition::Rect;
use crate::puzzle::size::{group_size, Size};

verus! {

broadcast use group_size;

/// A color scheme applied to a fixed-size rectangle, and then tiled across the puzzle.
#[derive(Clone, Debug, PartialEq, Eq)]
pub struct Tiled<C> {
    color_scheme: C,
    grid_size: Size,
}

/// The width of the tile in the column of tiles holding `x`, on a puzzle `w` wide tiled by
/// tiles `gw` wide: the last column of tiles may be narrower.
pub open spec fn tile_extent(w: int, gw: int, x: int) -> int {
    if x / gw == (w - 1) / gw {
        (w - 1) % gw + 1
    } else {
        gw
    }
}

/// The tile holding `pos` on a puzzle of size `size` tiled by tiles of size `grid`: the tile's
/// size, and the position of `pos` in it.
pub open spec fn tile_of(size: Size, grid: Size, pos: (u64, u64)) -> (Size, (u64, u64)) {
    let (gw, gh) = (grid.spec_width() as int, grid.spec_height() as int);
    (
        Size::spec_new(
            tile_extent(size.spec_width() as int, gw, pos.0 as int) as u64,
            tile_extent(size.spec_height() as int, gh, pos.1 as int) as u64,
        ),
        ((pos.0 % grid.spec_width()) as u64, (pos.1 % grid.spec_height()) as u64),
    )
}

/// The extent of a tile lies between 1 and the tile size.
proof fn lemma_tile_extent(w: int, gw: int, x: int)
    requires
        0 <= x < w,
        gw > 0,
    ensures
        1 <= tile_extent(w, gw, x) <= gw,
        x % gw < tile_extent(w, gw, x),
{
    vstd::arithmetic::div_mod::lemma_mod_bound(w - 1, gw);
    vstd::arithmetic::div_mod::lemma_mod_bound(x, gw);
    if x / gw == (w - 1) / gw {
        vstd::arithmetic::div_mod::lemma_fundamental_div_mod(x, gw);
        vstd::arithmetic::div_mod::lemma_fundamental_div_mod(w - 1, gw);
    }
}

impl<C> Tiled<C> {
    /// The color scheme, in specifications.
    pub closed spec fn spec_inner(&self) -> C {
        self.color_scheme
    }

    /// The tile size, in specifications.
    pub closed spec fn spec_grid_size(&self) -> Size {
        self.grid_size
    }

    /// Creates a new [`Tiled`] from a color scheme and a grid size.
    pub fn new(color_scheme: C, grid_size: Size) -> (r: Self)
        ensures
            r.spec_inner() == color_scheme,
            r.spec_grid_size() == grid_size,
    {
        Self { color_scheme, grid_size }
    }

    /// Returns a reference to the inner color scheme.
    pub fn inner(&self) -> (r: &C)
        ensures
            *r == self.spec_inner(),
    {
        &self.color_scheme
    }

    /// The size of the grid that the color scheme is tiled across.
    pub fn grid_size(&self) -> (r: Size)
        ensures
            r == self.spec_grid_size(),
    {
        self.grid_size
    }

    /// The tile holding `pos`, where the inner color scheme colors it: the tile's size, and the
    /// position of `pos` in the tile.
    pub fn tile_position(&self, size: Size, pos: (u64, u64)) -> (r: (Size, (u64, u64)))
        requires
            size.spec_is_within_bounds(pos),
        ensures
            r == tile_of(size, self.spec_grid_size(), pos),
            r.0.spec_is_within_bounds(r.1),
    {
        let (width, height) = (size.width(), size.height());
        let (gw, gh) = (self.grid_size.width(), self.grid_size.height());
        let (x, y) = pos;
        // Coordinates of the piece within a single tile.
        let (tx, ty) = (x % gw, y % gh);
        // Size of the tile containing (x, y).
        let tile_w = if x / gw == (width - 1) / gw {
            (width - 1) % gw + 1
        } else {
            gw
        };
        let tile_h = if y / gh == (height - 1) / gh {
            (height - 1) % gh + 1
        } else {
            gh
        };
        proof {
            lemma_tile_extent(width as int, gw as int, x as int);
            lemma_tile_extent(height as int, gh as int, y as int);
            assert(tile_w == tile_extent(width as int, gw as int, x as int));
            assert(tile_h == tile_extent(height as int, gh as int, y as int));
            assert(tx < tile_w && ty < tile_h);
        }
        match Size::new(tile_w, tile_h) {
            Ok(s) => {
                assert(Size::spec_new(tile_w, tile_h).spec_width() == tile_w);
                assert(s == Size::spec_new(tile_w, tile_h));
                (s, (tx, ty))
            },
            Err(_) => (size, (tx, ty)),
        }
    }
}

/// A color scheme applied to a fixed-size rectangle, and then tiled across the puzzle
/// recursively: each tile is tiled in turn by the next size.
#[derive(Clone, Debug, PartialEq, Eq)]
pub struct RecursiveTiled<C> {
    color_scheme: C,
    grid_sizes: Vec<Size>,
}

/// The extent, along one axis, of the part of a puzzle `w` long that holds `x`, when it is cut
/// into pieces `gw` long from the start: the last part may be shorter.
pub open spec fn part_extent(w: int, gw: int, x: int) -> int {
    if x < (w / gw) * gw {
        gw
    } else {
        w % gw
    }
}

/// The part holding `x` lies inside the puzzle, and holds `x`.
proof fn lemma_part_extent(w: int, gw: int, x: int)
    requires
        0 <= x < w,
        gw > 0,
    ensures
        0 <= x % gw < part_extent(w, gw, x),
        part_extent(w, gw, x) <= gw,
        (x / gw) * gw + part_extent(w, gw, x) <= w,
        (x / gw) * gw + x % gw == x,
        0 <= (x / gw) * gw,
        (w / gw) * gw == w - w % gw,
{
    vstd::arithmetic::div_mod::lemma_fundamental_div_mod(w, gw);
    vstd::arithmetic::div_mod::lemma_fundamental_div_mod(x, gw);
    vstd::arithmetic::div_mod::lemma_mod_bound(w, gw);
    vstd::arithmetic::div_mod::lemma_mod_bound(x, gw);
    vstd::arithmetic::div_mod::lemma_div_pos_is_pos(x, gw);
    vstd::arithmetic::div_mod::lemma_div_pos_is_pos(w, gw);
    let (q, qx) = (w / gw, x / gw);
    assert(gw * q == q * gw && gw * qx == qx * gw) by (nonlinear_arith);
    assert(0 <= qx * gw) by (nonlinear_arith)
        requires
            qx >= 0,
            gw > 0,
    ;
    if x < q * gw {
        assert(qx < q) by (nonlinear_arith)
            requires
                x == qx * gw + x % gw,
                0 <= x % gw,
                x < q * gw,
                gw > 0,
        ;
        assert(qx * gw + gw <= q * gw) by (nonlinear_arith)
            requires
                qx < q,
                gw > 0,
        ;
    } else {
        assert(qx == q) by (nonlinear_arith)
            requires
                x == qx * gw + x % gw,
                0 <= x % gw < gw,
                w == q * gw + w % gw,
                0 <= w % gw < gw,
                q * gw <= x < w,
                gw > 0,
        ;
    }
}

/// Where `pos` lands on a puzzle of size `size` tiled recursively by the sizes `sizes` from
/// index `idx` on: the size of the innermost part holding it, and its position in that part.
pub open spec fn locate(sizes: Seq<Size>, size: Size, pos: (u64, u64), idx: int) -> (
    Size,
    (u64, u64),
)
    decreases sizes.len() - idx,
{
    if idx < 0 || idx >= sizes.len() {
        (size, pos)
    } else {
        let g = sizes[idx];
        let (w, h) = (size.spec_width() as int, size.spec_height() as int);
        let (gw, gh) = (g.spec_width() as int, g.spec_height() as int);
        locate(
            sizes,
            Size::spec_new(part_extent(w, gw, pos.0 as int) as u64, part_extent(h, gh, pos.1 as int) as u64),
            ((pos.0 % g.spec_width()) as u64, (pos.1 % g.spec_height()) as u64),
            idx + 1,
        )
    }
}

/// The innermost part holding `(x, y)` on a `w x h` part whose top left corner is `(left, top)`,
/// tiled recursively by the sizes `sizes` from index `idx` on: its left, top, right and bottom
/// edges.
pub open spec fn part_rect(
    sizes: Seq<Size>,
    pos: (int, int),
    dims: (int, int),
    corner: (int, int),
    idx: int,
) -> (int, int, int, int)
    decreases sizes.len() - idx,
{
    if idx < 0 || idx >= sizes.len() {
        (corner.0, corner.1, corner.0 + dims.0, corner.1 + dims.1)
    } else {
        let (gw, gh) = (sizes[idx].spec_width() as int, sizes[idx].spec_height() as int);
        let (x, y) = pos;
        part_rect(
            sizes,
            (x % gw, y % gh),
            (part_extent(dims.0, gw, x), part_extent(dims.1, gh, y)),
            (corner.0 + (x / gw) * gw, corner.1 + (y / gh) * gh),
            idx + 1,
        )
    }
}

impl<C> RecursiveTiled<C> {
    /// The color scheme, in specifications.
    pub closed spec fn spec_inner(&self) -> C {
        self.color_scheme
    }

    /// The tile sizes, in specifications.
    pub closed spec fn spec_grid_sizes(&self) -> Seq<Size> {
        self.grid_sizes@
    }

    /// Creates a new [`RecursiveTiled`] from a color scheme and a list of grid sizes.
    pub fn new(color_scheme: C, grid_sizes: Vec<Size>) -> (r: Self)
        ensures
            r.spec_inner() == color_scheme,
            r.spec_grid_sizes() == grid_sizes@,
    {
        Self { color_scheme, grid_sizes }
    }

    /// Returns a reference to the inner color scheme.
    pub fn inner(&self) -> (r: &C)
        ensures
            *r == self.spec_inner(),
    {
        &self.color_scheme
    }

    /// The sizes of the grids that the color scheme is tiled across.
    pub fn grid_sizes(&self) -> (r: &[Size])
        ensures
            r@ == self.spec_grid_sizes(),
    {
        self.grid_sizes.as_slice()
    }

    /// Where `pos` lands, starting from the tile size at `start_idx`: see [`locate`]. The inner
    /// color scheme colors `pos` as the returned position on a puzzle of the returned size.
    pub fn locate_from(&self, size: Size, pos: (u64, u64), start_idx: usize) -> (r: (
        Size,
        (u64, u64),
    ))
        requires
            size.spec_is_within_bounds(pos),
        ensures
            r == locate(self.spec_grid_sizes(), size, pos, start_idx as int),
            r.0.spec_is_within_bounds(r.1),
        decreases self.spec_grid_sizes().len() - start_idx,
    {
        if start_idx < self.grid_sizes.len() {
            let grid_size = self.grid_sizes[start_idx];
            let (width, height) = (size.width(), size.height());
            let (grid_width, grid_height) = (grid_size.width(), grid_size.height());
            let (x, y) = pos;
            proof {
                lemma_part_extent(width as int, grid_width as int, x as int);
                lemma_part_extent(height as int, grid_height as int, y as int);
            }
            let sub_w = if x < width - width % grid_width {
                grid_width
            } else {
                width % grid_width
            };
            let sub_h = if y < height - height % grid_height {
                grid_height
            } else {
                height % grid_height
            };
            proof {
                assert(sub_w == part_extent(width as int, grid_width as int, x as int));
                assert(sub_h == part_extent(height as int, grid_height as int, y as int));
            }
            let sub = match Size::new(sub_w, sub_h) {
                Ok(s) => {
                    assert(Size::spec_new(sub_w, sub_h).spec_width() == sub_w);
                    assert(Size::spec_new(sub_w, sub_h).spec_height() == sub_h);
                    s
                },
                Err(_) => size,
            };
            self.locate_from(sub, (x % grid_width, y % grid_height), start_idx + 1)
        } else {
            (size, pos)
        }
    }

    /// Where `pos` lands: see [`locate`].
    pub fn locate(&self, size: Size, pos: (u64, u64)) -> (r: (Size, (u64, u64)))
        requires
            size.spec_is_within_bounds(pos),
        ensures
            r == locate(self.spec_grid_sizes(), size, pos, 0),
            r.0.spec_is_within_bounds(r.1),
    {
        self.locate_from(size, pos, 0)
    }

    /// The innermost part holding `pos`: see [`part_rect`].
    fn grid_containing_position_helper(
        &self,
        pos: (u64, u64),
        dims: (u64, u64),
        corner: (u64, u64),
        start_idx: usize,
    ) -> (r: Rect)
        requires
            pos.0 < dims.0,
            pos.1 < dims.1,
            corner.0 + dims.0 <= u64::MAX,
            corner.1 + dims.1 <= u64::MAX,
        ensures
            (r.spec_left() as int, r.spec_top() as int, r.spec_right() as int, r.spec_bottom()
                as int) == part_rect(
                self.spec_grid_sizes(),
                (pos.0 as int, pos.1 as int),
                (dims.0 as int, dims.1 as int),
                (corner.0 as int, corner.1 as int),
                start_idx as int,
            ),
            r.covers(corner.0 + pos.0, corner.1 + pos.1),
            corner.0 <= r.spec_left() && r.spec_right() <= corner.0 + dims.0,
            corner.1 <= r.spec_top() && r.spec_bottom() <= corner.1 + dims.1,
        decreases self.spec_grid_sizes().len() - start_idx,
    {
        let (x, y) = pos;
        let (width, height) = dims;
        let (left, top) = corner;
        if start_idx < self.grid_sizes.len() {
            let grid_size = self.grid_sizes[start_idx];
            let (grid_width, grid_height) = (grid_size.width(), grid_size.height());
            proof {
                lemma_part_extent(width as int, grid_width as int, x as int);
                lemma_part_extent(height as int, grid_height as int, y as int);
            }
            let grid_x = x / grid_width;
            let grid_y = y / grid_height;
            let subgrid_width = if x < width - width % grid_width {
                grid_width
            } else {
                width % grid_width
            };
            let subgrid_height = if y < height - height % grid_height {
                grid_height
            } else {
                height % grid_height
            };
            self.grid_containing_position_helper(
                (x % grid_width, y % grid_height),
                (subgrid_width, subgrid_height),
                (left + grid_x * grid_width, top + grid_y * grid_height),
                start_idx + 1,
            )
        } else {
            Rect::from_edges(left, top, left + width, top + height)
        }
    }

    /// Returns the grid containing the piece at position `pos`.
    pub fn grid_containing_position(&self, size: Size, pos: (u64, u64)) -> (r: Rect)
        requires
            size.spec_is_within_bounds(pos),
        ensures
            (r.spec_left() as int, r.spec_top() as int, r.spec_right() as int, r.spec_bottom()
                as int) == part_rect(
                self.spec_grid_sizes(),
                (pos.0 as int, pos.1 as int),
                (size.spec_width() as int, size.spec_height() as int),
                (0, 0),
                0,
            ),
            r.covers(pos.0 as int, pos.1 as int),
    {
        self.grid_containing_position_helper(pos, (size.width(), size.height()), (0, 0), 0)
    }
}

/// A color scheme tiled across the puzzle in the pattern of the rectangles of a [`Grid`].
#[derive(Debug)]
pub struct GridTiled<C> {
    grid: Grid,
    scheme: C,
}

impl<C> GridTiled<C> {
    /// The color scheme, in specifications.
    pub closed spec fn spec_scheme(&self) -> C {
        self.scheme
    }

    /// The grid, in specifications.
    pub closed spec fn spec_grid(&self) -> Grid {
        self.grid
    }

    /// Creates a new [`GridTiled`] instance.
    pub fn new(grid: Grid, scheme: C) -> (r: Self)
        ensures
            r.spec_scheme() == scheme,
            r.spec_grid() == grid,
    {
        Self { grid, scheme }
    }

    /// Returns a reference to the inner color scheme.
    pub fn scheme(&self) -> (r: &C)
        ensures
            *r == self.spec_scheme(),
    {
        &self.scheme
    }

    /// The rectangle of the grid holding `pos`, where the inner color scheme colors it: the
    /// rectangle's size, and the position of `pos` in it.
    pub fn tile_position(&self, size: Size, pos: (u64, u64)) -> (r: (Size, (u64, u64)))
        requires
            size.spec_is_within_bounds(pos),
        ensures
            ({
                let (left, top, right, bottom) = self.spec_grid().spec_grid_rect(size, pos);
                &&& r.0.spec_width() == right - left
                &&& r.0.spec_height() == bottom - top
                &&& r.1 == ((pos.0 - left) as u64, (pos.1 - top) as u64)
            }),
            r.0.spec_is_within_bounds(r.1),
    {
        let rect = self.grid.grid_containing_pos(size, pos);
        let (w, h) = rect.size();
        let (left, top) = rect.top_left();
        proof {
            use_type_invariant(&rect);
            rect.lemma_wf();
        }
        let grid_size = match Size::new(w, h) {
            Ok(s) => {
                assert(Size::spec_new(w, h).spec_width() == w);
                s
            },
            Err(_) => size,
        };
        (grid_size, (pos.0 - left, pos.1 - top))
    }
}

} // verus!
