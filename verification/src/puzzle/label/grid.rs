//! Defines the [`Grid`] label.

use vstd::prelude::*;

use crate::arith::lemma_mul_le;
use crate::puzzle::grids::Grids;
use crate::puzzle::label::label::Label;
use crate::puzzle::label::rect_partition::Rect;
use crate::puzzle::size::{group_size, Size};

verus! {

broadcast use group_size;

/// A [`Label`] that divides the puzzle into a grid of rectangles at the given `x` and `y`
/// coordinates.
#[derive(Debug)]
pub struct Grid {
    xs: Vec<u64>,
    ys: Vec<u64>,
}

/// The values of `s` increase strictly.
pub open spec fn strictly_increasing(s: Seq<u64>) -> bool {
    forall|i: int, j: int| 0 <= i < j < s.len() ==> #[trigger] s[i] < #[trigger] s[j]
}

/// `s` holds, in increasing order and once each, the non-zero values of `v`.
pub open spec fn sorted_nonzero(s: Seq<u64>, v: Seq<u64>) -> bool {
    &&& strictly_increasing(s)
    &&& forall|a: u64| s.contains(a) <==> v.contains(a) && a != 0
}

/// The number of leading values of `s` below `bound`.
pub open spec fn count_below(s: Seq<u64>, bound: int) -> int
    decreases s.len(),
{
    if s.len() == 0 || s[0] >= bound {
        0
    } else {
        1 + count_below(s.drop_first(), bound)
    }
}

/// In an increasing sequence, the leading values below `bound` are all those below it.
proof fn lemma_count_below(s: Seq<u64>, bound: int)
    requires
        strictly_increasing(s),
    ensures
        0 <= count_below(s, bound) <= s.len(),
        forall|i: int| 0 <= i < count_below(s, bound) ==> #[trigger] s[i] < bound,
        count_below(s, bound) < s.len() ==> s[count_below(s, bound)] >= bound,
    decreases s.len(),
{
    if s.len() > 0 && s[0] < bound {
        let t = s.drop_first();
        assert(strictly_increasing(t)) by {
            assert forall|i: int, j: int| 0 <= i < j < t.len() implies #[trigger] t[i]
                < #[trigger] t[j] by {
                assert(s[i + 1] < s[j + 1]);
            }
        }
        lemma_count_below(t, bound);
        assert forall|i: int| 0 <= i < count_below(s, bound) implies #[trigger] s[i] < bound by {
            if i > 0 {
                assert(s[i] == t[i - 1]);
            }
        }
    }
}

/// An increasing sequence of positive values has its `i`-th value at least `i + 1`.
proof fn lemma_increasing_positive(s: Seq<u64>, i: int)
    requires
        strictly_increasing(s),
        forall|j: int| 0 <= j < s.len() ==> #[trigger] s[j] != 0,
        0 <= i < s.len(),
    ensures
        s[i] >= i + 1,
    decreases i,
{
    if i > 0 {
        lemma_increasing_positive(s, i - 1);
        assert(s[i - 1] < s[i]);
    }
}

/// Two increasing sequences with the same values are equal.
proof fn lemma_increasing_unique(a: Seq<u64>, b: Seq<u64>)
    requires
        strictly_increasing(a),
        strictly_increasing(b),
        forall|x: u64| a.contains(x) <==> b.contains(x),
    ensures
        a == b,
    decreases a.len(),
{
    if a.len() == 0 {
        if b.len() > 0 {
            assert(b.contains(b[0]));
        }
        assert(a =~= b);
    } else {
        assert(a.contains(a[0]));
        assert(b.len() > 0);
        assert(b.contains(b[0]));
        let ka = choose|k: int| 0 <= k < b.len() && b[k] == a[0];
        let kb = choose|k: int| 0 <= k < a.len() && a[k] == b[0];
        if ka > 0 {
            assert(b[0] < b[ka]);
        }
        if kb > 0 {
            assert(a[0] < a[kb]);
        }
        assert(a[0] == b[0]);
        let (a1, b1) = (a.drop_first(), b.drop_first());
        assert(strictly_increasing(a1)) by {
            assert forall|i: int, j: int| 0 <= i < j < a1.len() implies #[trigger] a1[i]
                < #[trigger] a1[j] by {
                assert(a[i + 1] < a[j + 1]);
            }
        }
        assert(strictly_increasing(b1)) by {
            assert forall|i: int, j: int| 0 <= i < j < b1.len() implies #[trigger] b1[i]
                < #[trigger] b1[j] by {
                assert(b[i + 1] < b[j + 1]);
            }
        }
        assert forall|x: u64| a1.contains(x) <==> b1.contains(x) by {
            if a1.contains(x) {
                let i = choose|i: int| 0 <= i < a1.len() && a1[i] == x;
                assert(a[0] < a[i + 1]);
                assert(a.contains(x));
                let j = choose|j: int| 0 <= j < b.len() && b[j] == x;
                assert(j != 0);
                assert(b1[j - 1] == x);
            }
            if b1.contains(x) {
                let i = choose|i: int| 0 <= i < b1.len() && b1[i] == x;
                assert(b[0] < b[i + 1]);
                assert(b.contains(x));
                let j = choose|j: int| 0 <= j < a.len() && a[j] == x;
                assert(j != 0);
                assert(a1[j - 1] == x);
            }
        }
        lemma_increasing_unique(a1, b1);
        assert(a =~= b) by {
            assert forall|i: int| 0 <= i < a.len() implies a[i] == b[i] by {
                if i > 0 {
                    assert(a[i] == a1[i - 1] && b[i] == b1[i - 1]);
                }
            }
        }
    }
}

/// The grid lines kept from `v`, in increasing order and once each, depend only on the set of
/// non-zero values of `v`: two lists with the same non-zero values give the same lines.
pub proof fn lemma_sorted_nonzero_unique(a: Seq<u64>, v: Seq<u64>, b: Seq<u64>, u: Seq<u64>)
    requires
        sorted_nonzero(a, v),
        sorted_nonzero(b, u),
        forall|x: u64| x != 0 ==> (v.contains(x) <==> u.contains(x)),
    ensures
        a == b,
{
    assert forall|x: u64| a.contains(x) <==> b.contains(x) by {
        if x != 0 {
            assert(v.contains(x) == u.contains(x));
        }
    }
    lemma_increasing_unique(a, b);
}

/// Counts the leading values of `s` below `bound`.
fn count_below_exec(s: &Vec<u64>, bound: u64) -> (r: u64)
    requires
        strictly_increasing(s@),
    ensures
        r == count_below(s@, bound as int),
{
    proof {
        lemma_count_below(s@, bound as int);
    }
    let mut i: usize = 0;
    while i < s.len() && s[i] < bound
        invariant
            i <= s@.len(),
            i <= count_below(s@, bound as int),
            strictly_increasing(s@),
            forall|j: int| 0 <= j < count_below(s@, bound as int) ==> #[trigger] s@[j] < bound,
            count_below(s@, bound as int) <= s@.len(),
            count_below(s@, bound as int) < s@.len() ==> s@[count_below(s@, bound as int)]
                >= bound,
        decreases s@.len() - i,
    {
        i = i + 1;
    }
    i as u64
}

/// Counts the leading values of `s` at most `bound`.
fn count_at_most_exec(s: &Vec<u64>, bound: u64) -> (r: u64)
    requires
        strictly_increasing(s@),
    ensures
        r == count_below(s@, bound + 1),
{
    proof {
        lemma_count_below(s@, bound + 1);
    }
    let mut i: usize = 0;
    while i < s.len() && s[i] <= bound
        invariant
            i <= s@.len(),
            i <= count_below(s@, bound + 1),
            strictly_increasing(s@),
            forall|j: int| 0 <= j < count_below(s@, bound + 1) ==> #[trigger] s@[j] <= bound,
            count_below(s@, bound + 1) <= s@.len(),
            count_below(s@, bound + 1) < s@.len() ==> s@[count_below(s@, bound + 1)] > bound,
        decreases s@.len() - i,
    {
        i = i + 1;
    }
    i as u64
}

/// Returns the non-zero values of `v`, increasing and each once.
fn sorted_nonzero_exec(v: Vec<u64>) -> (r: Vec<u64>)
    ensures
        sorted_nonzero(r@, v@),
{
    let mut r: Vec<u64> = Vec::new();
    let mut i: usize = 0;
    while i < v.len()
        invariant
            i <= v@.len(),
            sorted_nonzero(r@, v@.take(i as int)),
        decreases v@.len() - i,
    {
        let a = v[i];
        let ghost prev = r@;
        proof {
            assert forall|b: u64| v@.take(i + 1).contains(b) <==> v@.take(i as int).contains(b)
                || b == a by {
                if v@.take(i + 1).contains(b) {
                    let k = choose|k: int| 0 <= k < i + 1 && #[trigger] v@.take(i + 1)[k] == b;
                    if k < i {
                        assert(v@.take(i as int)[k] == b);
                    }
                }
                if v@.take(i as int).contains(b) {
                    let k = choose|k: int| 0 <= k < i && #[trigger] v@.take(i as int)[k] == b;
                    assert(v@.take(i + 1)[k] == b);
                }
                assert(v@.take(i + 1)[i as int] == a);
            }
        }
        if a != 0 {
            // Insert `a` where it belongs, unless it is already there.
            let mut p: usize = 0;
            while p < r.len() && r[p] < a
                invariant
                    p <= r@.len(),
                    forall|j: int| 0 <= j < p ==> #[trigger] r@[j] < a,
                decreases r@.len() - p,
            {
                p = p + 1;
            }
            if p == r.len() || r[p] != a {
                let ghost old_r = r@;
                r.insert(p, a);
                proof {
                    assert forall|j: int, k: int| 0 <= j < k < r@.len() implies #[trigger] r@[j]
                        < #[trigger] r@[k] by {
                        if k > p && j < p {
                            assert(old_r[j] < a);
                            assert(old_r[p as int] >= a);
                            assert(old_r[j] < old_r[k - 1] || k - 1 == j);
                        } else if k > p && j == p {
                            assert(old_r[p as int] > a);
                            assert(old_r[p as int] <= old_r[k - 1]);
                        }
                    }
                    assert forall|b: u64| r@.contains(b) <==> old_r.contains(b) || b == a by {
                        if r@.contains(b) {
                            let k = choose|k: int| 0 <= k < r@.len() && #[trigger] r@[k] == b;
                            if k < p {
                                assert(old_r[k] == b);
                            } else if k > p {
                                assert(old_r[k - 1] == b);
                            }
                        }
                        if old_r.contains(b) {
                            let k = choose|k: int| 0 <= k < old_r.len() && #[trigger] old_r[k] == b;
                            if k < p {
                                assert(r@[k] == b);
                            } else {
                                assert(r@[k + 1] == b);
                            }
                        }
                        assert(r@[p as int] == a);
                    }
                }
            } else {
                proof {
                    assert(r@[p as int] == a);
                }
            }
        }
        proof {
            assert forall|b: u64| r@.contains(b) <==> prev.contains(b) || (a != 0 && b == a) by {
                if a != 0 && b == a && prev.contains(b) {
                }
            }
            assert forall|b: u64| r@.contains(b) <==> v@.take(i + 1).contains(b) && b != 0 by {
                assert(prev.contains(b) <==> v@.take(i as int).contains(b) && b != 0);
            }
        }
        i = i + 1;
    }
    assert(v@.take(v@.len() as int) == v@);
    r
}

impl Grid {
    /// The dividing lines are increasing, positive and distinct.
    #[verifier::type_invariant]
    pub closed spec fn wf(self) -> bool {
        &&& strictly_increasing(self.xs@)
        &&& strictly_increasing(self.ys@)
        &&& forall|i: int| 0 <= i < self.xs@.len() ==> #[trigger] self.xs@[i] != 0
        &&& forall|i: int| 0 <= i < self.ys@.len() ==> #[trigger] self.ys@[i] != 0
    }

    /// The `x` coordinates of the vertical dividing lines, in increasing order.
    pub closed spec fn spec_xs(&self) -> Seq<u64> {
        self.xs@
    }

    /// The `y` coordinates of the horizontal dividing lines, in increasing order.
    pub closed spec fn spec_ys(&self) -> Seq<u64> {
        self.ys@
    }

    /// The number of grids from left to right on a puzzle of the given size.
    pub open spec fn spec_lr_count(&self, size: Size) -> int {
        count_below(self.spec_xs(), size.spec_width() as int) + 1
    }

    /// The number of grids from top to bottom on a puzzle of the given size.
    pub open spec fn spec_ud_count(&self, size: Size) -> int {
        count_below(self.spec_ys(), size.spec_height() as int) + 1
    }

    /// The edges `(left, top, right, bottom)` of the grid that contains `pos` on a puzzle of the
    /// given size: from the last dividing line at or before `pos` (or the puzzle's edge) to the
    /// next one after it (or the puzzle's edge, if that comes first).
    pub open spec fn spec_grid_rect(&self, size: Size, pos: (u64, u64)) -> (int, int, int, int) {
        let (x, y) = self.spec_grid_index(pos);
        let (xs, ys) = (self.spec_xs(), self.spec_ys());
        let (w, h) = (size.spec_width() as int, size.spec_height() as int);
        (
            if x == 0 {
                0
            } else {
                xs[x - 1] as int
            },
            if y == 0 {
                0
            } else {
                ys[y - 1] as int
            },
            if x < xs.len() && xs[x] < w {
                xs[x] as int
            } else {
                w
            },
            if y < ys.len() && ys[y] < h {
                ys[y] as int
            } else {
                h
            },
        )
    }

    /// The column and row of the grid that contains `pos`.
    pub open spec fn spec_grid_index(&self, pos: (u64, u64)) -> (int, int) {
        (
            count_below(self.spec_xs(), pos.0 + 1),
            count_below(self.spec_ys(), pos.1 + 1),
        )
    }

    /// Creates a new [`Grid`] label with the given `x` and `y` coordinates.
    ///
    /// The two vectors are sorted and de-duplicated. Any zero values are also removed.
    ///
    /// The `xs` vector contains the `x` coordinates of the vertical lines that divide the puzzle
    /// into rectangles, and likewise for `ys`.
    pub fn new(xs: Vec<u64>, ys: Vec<u64>) -> (r: Self)
        ensures
            sorted_nonzero(r.spec_xs(), xs@),
            sorted_nonzero(r.spec_ys(), ys@),
    {
        let xs = sorted_nonzero_exec(xs);
        let ys = sorted_nonzero_exec(ys);
        proof {
            assert forall|i: int| 0 <= i < xs@.len() implies #[trigger] xs@[i] != 0 by {
                assert(xs@.contains(xs@[i]));
            }
            assert forall|i: int| 0 <= i < ys@.len() implies #[trigger] ys@[i] != 0 by {
                assert(ys@.contains(ys@[i]));
            }
        }
        Self { xs, ys }
    }

    /// The number of grids from left to right: one more than the lines left of the right edge.
    pub fn lr_count(&self, size: Size) -> (r: u64)
        ensures
            r == self.spec_lr_count(size),
            r <= size.spec_width(),
    {
        proof {
            use_type_invariant(self);
        }
        let w = size.width();
        let c = count_below_exec(&self.xs, w);
        proof {
            lemma_count_below(self.xs@, w as int);
            if c > 0 {
                lemma_increasing_positive(self.xs@, c - 1);
            }
        }
        c + 1
    }

    /// The number of grids from top to bottom: one more than the lines above the bottom edge.
    pub fn ud_count(&self, size: Size) -> (r: u64)
        ensures
            r == self.spec_ud_count(size),
            r <= size.spec_height(),
    {
        proof {
            use_type_invariant(self);
        }
        let h = size.height();
        let c = count_below_exec(&self.ys, h);
        proof {
            lemma_count_below(self.ys@, h as int);
            if c > 0 {
                lemma_increasing_positive(self.ys@, c - 1);
            }
        }
        c + 1
    }

    /// The column and row of the grid that contains `pos`: the numbers of lines at or left of
    /// it, and at or above it.
    pub fn grid_index(&self, pos: (u64, u64)) -> (r: (u64, u64))
        ensures
            r.0 == self.spec_grid_index(pos).0,
            r.1 == self.spec_grid_index(pos).1,
    {
        proof {
            use_type_invariant(self);
        }
        let x = count_at_most_exec(&self.xs, pos.0);
        let y = count_at_most_exec(&self.ys, pos.1);
        (x, y)
    }
}

/// Fewer lines lie left of a smaller bound.
proof fn lemma_count_below_monotone(s: Seq<u64>, a: int, b: int)
    requires
        strictly_increasing(s),
        a <= b,
    ensures
        count_below(s, a) <= count_below(s, b),
{
    lemma_count_below(s, a);
    lemma_count_below(s, b);
    if count_below(s, a) > count_below(s, b) {
        assert(s[count_below(s, b)] < a);
    }
}

impl Label for Grid {
    open spec fn spec_valid_size(&self, size: Size) -> bool {
        true
    }

    open spec fn spec_position_label(&self, size: Size, pos: (u64, u64)) -> int {
        self.spec_grid_index(pos).0 + self.spec_lr_count(size) * self.spec_grid_index(pos).1
    }

    open spec fn spec_num_labels(&self, size: Size) -> int {
        self.spec_lr_count(size) * self.spec_ud_count(size)
    }

    fn is_valid_size(&self, size: Size) -> (r: bool) {
        true
    }

    fn position_label(&self, size: Size, pos: (u64, u64)) -> (r: u64) {
        proof {
            use_type_invariant(self);
        }
        let (w, h) = (size.width(), size.height());
        let (x, y) = self.grid_index(pos);
        let lr = self.lr_count(size);
        let ud = self.ud_count(size);
        proof {
            lemma_count_below_monotone(self.xs@, pos.0 + 1, w as int);
            lemma_count_below_monotone(self.ys@, pos.1 + 1, h as int);
            lemma_mul_le(lr as int, ud as int, w as int, h as int);
            assert(x + lr * y < lr * ud) by (nonlinear_arith)
                requires
                    x < lr,
                    y < ud,
            ;
        }
        x + lr * y
    }

    fn num_labels(&self, size: Size) -> (r: u64) {
        let lr = self.lr_count(size);
        let ud = self.ud_count(size);
        proof {
            lemma_mul_le(lr as int, ud as int, size.spec_width() as int, size.spec_height() as int);
        }
        lr * ud
    }
}

impl Grids for Grid {
    fn grid_containing_pos(&self, size: Size, pos: (u64, u64)) -> (r: Rect)
        ensures
            (r.spec_left() as int, r.spec_top() as int, r.spec_right() as int, r.spec_bottom() as int)
                == self.spec_grid_rect(size, pos),
    {
        proof {
            use_type_invariant(self);
        }
        let (w, h) = (size.width(), size.height());
        let (x, y) = self.grid_index(pos);
        let (num_xs, num_ys) = (self.xs.len(), self.ys.len());
        proof {
            lemma_count_below(self.xs@, pos.0 + 1);
            lemma_count_below(self.ys@, pos.1 + 1);
        }
        let left = if x == 0 {
            0
        } else {
            self.xs[x as usize - 1]
        };
        let top = if y == 0 {
            0
        } else {
            self.ys[y as usize - 1]
        };
        let right = if (x as usize) < num_xs {
            let v = self.xs[x as usize];
            if v < w {
                v
            } else {
                w
            }
        } else {
            w
        };
        let bottom = if (y as usize) < num_ys {
            let v = self.ys[y as usize];
            if v < h {
                v
            } else {
                h
            }
        } else {
            h
        };
        Rect::from_edges(left, top, right, bottom)
    }
}

/// A [`Grid`] depends only on the sets of non-zero lines it was made from (see
/// [`Grid::new`]): two grids made from lists with the same non-zero values have the same lines,
/// and so the same labels, the same number of labels and the same grid around each position.
pub proof fn lemma_grid_same_lines(g: &Grid, xs: Seq<u64>, ys: Seq<u64>, g2: &Grid, xs2: Seq<u64>, ys2: Seq<u64>)
    requires
        sorted_nonzero(g.spec_xs(), xs),
        sorted_nonzero(g.spec_ys(), ys),
        sorted_nonzero(g2.spec_xs(), xs2),
        sorted_nonzero(g2.spec_ys(), ys2),
        forall|x: u64| x != 0 ==> (xs.contains(x) <==> xs2.contains(x)),
        forall|y: u64| y != 0 ==> (ys.contains(y) <==> ys2.contains(y)),
    ensures
        g.spec_xs() == g2.spec_xs(),
        g.spec_ys() == g2.spec_ys(),
        forall|size: Size, pos: (u64, u64)|
            #[trigger] g.spec_position_label(size, pos) == g2.spec_position_label(size, pos),
        forall|size: Size| #[trigger] g.spec_num_labels(size) == g2.spec_num_labels(size),
        forall|size: Size, pos: (u64, u64)|
            #[trigger] g.spec_grid_rect(size, pos) == g2.spec_grid_rect(size, pos),
{
    lemma_sorted_nonzero_unique(g.spec_xs(), xs, g2.spec_xs(), xs2);
    lemma_sorted_nonzero_unique(g.spec_ys(), ys, g2.spec_ys(), ys2);
}

} // verus!
