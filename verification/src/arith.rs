//! Small arithmetic facts about grid coordinates, used throughout the crate.

use vstd::prelude::*;

verus! {

/// The position `(x, y)` of a `w`-wide grid has index `x + w * y`, which lies below `w * h` when
/// the position lies inside a `w x h` grid.
pub proof fn lemma_index_bound(x: int, y: int, w: int, h: int)
    requires
        0 <= x < w,
        0 <= y < h,
    ensures
        0 <= x + w * y < w * h,
        w * y <= w * (h - 1),
{
    assert(0 <= w * y) by (nonlinear_arith)
        requires
            0 <= w,
            0 <= y,
    ;
    assert(w * y <= w * (h - 1)) by (nonlinear_arith)
        requires
            0 <= w,
            y <= h - 1,
    ;
    assert(w * (h - 1) + w == w * h) by (nonlinear_arith);
}

/// Splitting an index of a `w`-wide grid into its column and row, and putting them together
/// again, are inverse operations.
pub proof fn lemma_index_split(x: int, y: int, w: int)
    requires
        0 <= x < w,
        0 <= y,
    ensures
        (x + w * y) % w == x,
        (x + w * y) / w == y,
{
    assert(w * y == y * w) by (nonlinear_arith);
    vstd::arithmetic::div_mod::lemma_fundamental_div_mod_converse(x + w * y, w, y, x);
}

/// An index below `w * h` splits into a column below `w` and a row below `h`.
pub proof fn lemma_split_bound(i: int, w: int, h: int)
    requires
        0 <= i < w * h,
        0 < w,
    ensures
        0 <= i % w < w,
        0 <= i / w < h,
        i == i % w + w * (i / w),
{
    vstd::arithmetic::div_mod::lemma_fundamental_div_mod(i, w);
    vstd::arithmetic::div_mod::lemma_mod_bound(i, w);
    vstd::arithmetic::div_mod::lemma_div_pos_is_pos(i, w);
    if i / w >= h {
        assert(w * (i / w) >= w * h) by (nonlinear_arith)
            requires
                i / w >= h,
                w > 0,
        ;
    }
}

/// A product of two positive factors is at least as large as each factor.
pub proof fn lemma_mul_ge(a: int, b: int)
    requires
        0 < a,
        0 < b,
    ensures
        a <= a * b,
        b <= a * b,
{
    assert(a <= a * b && b <= a * b) by (nonlinear_arith)
        requires
            0 < a,
            0 < b,
    ;
}

/// For positive factors, the sum exceeds the product by at most one: `a + b <= a * b + 1`.
pub proof fn lemma_sum_le_product(a: int, b: int)
    requires
        1 <= a,
        1 <= b,
    ensures
        a + b <= a * b + 1,
        a <= a * b,
        b <= a * b,
        2 <= a && 2 <= b ==> a + b <= a * b,
{
    assert((a - 1) * (b - 1) >= 0 && a <= a * b && b <= a * b) by (nonlinear_arith)
        requires
            1 <= a,
            1 <= b,
    ;
    if 2 <= a && 2 <= b {
        assert((a - 1) * (b - 1) >= 1) by (nonlinear_arith)
            requires
                2 <= a,
                2 <= b,
        ;
    }
    assert((a - 1) * (b - 1) == a * b - a - b + 1) by (nonlinear_arith);
}

/// `a / b` rounded up.
pub open spec fn div_ceil(a: int, b: int) -> int {
    a / b + if a % b == 0 {
        0int
    } else {
        1int
    }
}

/// Computes `a / b` rounded up.
pub fn div_ceil_u64(a: u64, b: u64) -> (r: u64)
    requires
        b > 0,
    ensures
        r == div_ceil(a as int, b as int),
{
    proof {
        lemma_div_ceil_bounds(a as int, b as int);
    }
    a / b + if a % b == 0 {
        0
    } else {
        1
    }
}

/// Rounding up a quotient of positive numbers gives a number from 1 to the dividend, and the
/// quotient of any smaller number lies below it.
pub proof fn lemma_div_ceil_bounds(a: int, b: int)
    requires
        b > 0,
        a >= 0,
    ensures
        a >= 1 ==> 1 <= div_ceil(a, b) <= a,
        forall|x: int| 0 <= x < a ==> #[trigger] (x / b) < div_ceil(a, b),
        div_ceil(a, b) <= a,
        b * (div_ceil(a, b) - 1) < a,
{
    vstd::arithmetic::div_mod::lemma_fundamental_div_mod(a, b);
    vstd::arithmetic::div_mod::lemma_mod_bound(a, b);
    vstd::arithmetic::div_mod::lemma_div_pos_is_pos(a, b);
    let q = a / b;
    let r = a % b;
    assert(q <= a) by {
        vstd::arithmetic::div_mod::lemma_div_is_ordered_by_denominator(a, 1, b);
    }
    if r != 0 {
        assert(q + 1 <= a) by (nonlinear_arith)
            requires
                a == b * q + r,
                0 < r < b,
                q >= 0,
        ;
    }
    if a >= 1 && r == 0 {
        assert(q >= 1) by (nonlinear_arith)
            requires
                a == b * q,
                a >= 1,
                b > 0,
                q >= 0,
        ;
    }
    assert(b * (div_ceil(a, b) - 1) < a) by (nonlinear_arith)
        requires
            a == b * q + r,
            0 <= r < b,
            div_ceil(a, b) == q + if r == 0 {
                0int
            } else {
                1int
            },
    ;
    assert forall|x: int| 0 <= x < a implies #[trigger] (x / b) < div_ceil(a, b) by {
        vstd::arithmetic::div_mod::lemma_fundamental_div_mod(x, b);
        vstd::arithmetic::div_mod::lemma_mod_bound(x, b);
        let qx = x / b;
        assert(qx < div_ceil(a, b)) by (nonlinear_arith)
            requires
                x == b * qx + x % b,
                0 <= x % b < b,
                0 <= x < a,
                b * (div_ceil(a, b) - 1) < a,
                a == b * q + r,
                0 <= r < b,
                div_ceil(a, b) == q + if r == 0 {
                    0int
                } else {
                    1int
                },
        ;
    }
}

/// Multiplication by a non-negative factor is monotone.
pub proof fn lemma_mul_le(a: int, b: int, c: int, d: int)
    requires
        0 <= a <= c,
        0 <= b <= d,
    ensures
        a * b <= c * d,
{
    assert(a * b <= c * d) by (nonlinear_arith)
        requires
            0 <= a <= c,
            0 <= b <= d,
    ;
}

} // verus!
