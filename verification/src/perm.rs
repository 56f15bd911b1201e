//! Permutations of `0..n`, as sequences of distinct values below their length.

use vstd::prelude::*;
use vstd::set_lib::*;

verus! {

/// Every value of `s` lies below `n`, and no value occurs twice.
pub open spec fn distinct_below(s: Seq<u64>, n: int) -> bool {
    &&& forall|i: int| 0 <= i < s.len() ==> (#[trigger] s[i] as int) < n
    &&& forall|i: int, j: int|
        0 <= i < s.len() && 0 <= j < s.len() && i != j ==> #[trigger] s[i] != #[trigger] s[j]
}

/// `s` holds each of the values `0..s.len()` exactly once.
pub open spec fn is_permutation(s: Seq<u64>) -> bool {
    distinct_below(s, s.len() as int)
}

/// The sequence `s` with the entries at positions `i` and `j` exchanged.
pub open spec fn swap_seq(s: Seq<u64>, i: int, j: int) -> Seq<u64> {
    s.update(i, s[j]).update(j, s[i])
}

/// The first position of `v` in `s`, or `s.len()` if `v` does not occur.
pub open spec fn index_of(s: Seq<u64>, v: u64) -> int
    decreases s.len(),
{
    if s.len() == 0 {
        0
    } else if s[0] == v {
        0
    } else {
        1 + index_of(s.drop_first(), v)
    }
}

pub proof fn lemma_index_of(s: Seq<u64>, v: u64)
    ensures
        0 <= index_of(s, v) <= s.len(),
        index_of(s, v) < s.len() ==> s[index_of(s, v)] == v,
        forall|k: int| 0 <= k < index_of(s, v) ==> s[k] != v,
        s.contains(v) <==> index_of(s, v) < s.len(),
    decreases s.len(),
{
    if s.len() > 0 && s[0] != v {
        lemma_index_of(s.drop_first(), v);
        assert forall|k: int| 0 <= k < index_of(s, v) implies s[k] != v by {
            if k > 0 {
                assert(s[k] == s.drop_first()[k - 1]);
            }
        }
        if s.contains(v) {
            let k = choose|k: int| 0 <= k < s.len() && s[k] == v;
            assert(s.drop_first()[k - 1] == v);
        }
        if index_of(s, v) < s.len() {
            assert(s.contains(v) ) by {
                assert(s[index_of(s, v)] == s.drop_first()[index_of(s.drop_first(), v)]);
            }
        }
    }
}

proof fn lemma_value_set(s: Seq<u64>, n: int)
    requires
        distinct_below(s, n),
        0 <= n,
    ensures
        s.map_values(|x: u64| x as int).to_set().len() == s.len(),
        s.map_values(|x: u64| x as int).to_set().subset_of(set_int_range(0, n)),
        set_int_range(0, n).finite(),
        set_int_range(0, n).len() == n,
        s.map_values(|x: u64| x as int).to_set().finite(),
{
    let t = s.map_values(|x: u64| x as int);
    assert(t.no_duplicates()) by {
        assert forall|i: int, j: int| 0 <= i < t.len() && 0 <= j < t.len() && i != j implies #[trigger] t[i]
            != #[trigger] t[j] by {
            assert(s[i] != s[j]);
        }
    }
    t.unique_seq_to_set();
    lemma_int_range(0, n);
    assert forall|x: int| t.to_set().contains(x) implies set_int_range(0, n).contains(x) by {
        let i = choose|i: int| 0 <= i < t.len() && t[i] == x;
        assert(s[i] < n);
    }
    vstd::seq_lib::seq_to_set_is_finite(t);
}

/// A sequence of distinct values below `n` has at most `n` entries.
pub proof fn lemma_distinct_below_len(s: Seq<u64>, n: int)
    requires
        distinct_below(s, n),
        0 <= n,
    ensures
        s.len() <= n,
{
    lemma_value_set(s, n);
    lemma_len_subset(s.map_values(|x: u64| x as int).to_set(), set_int_range(0, n));
}

/// Each value below its length occurs in a permutation.
pub proof fn lemma_permutation_onto(s: Seq<u64>, v: int)
    requires
        is_permutation(s),
        0 <= v < s.len(),
    ensures
        exists|i: int| 0 <= i < s.len() && s[i] == v,
{
    let n = s.len() as int;
    lemma_value_set(s, n);
    let t = s.map_values(|x: u64| x as int);
    lemma_subset_equality(t.to_set(), set_int_range(0, n));
    assert(set_int_range(0, n).contains(v));
    assert(t.to_set().contains(v));
    let i = choose|i: int| 0 <= i < t.len() && t[i] == v;
    assert(s[i] == v);
}

/// Exchanging two entries of a permutation gives a permutation.
pub proof fn lemma_swap_permutation(s: Seq<u64>, i: int, j: int)
    requires
        is_permutation(s),
        0 <= i < s.len(),
        0 <= j < s.len(),
    ensures
        is_permutation(swap_seq(s, i, j)),
        swap_seq(s, i, j).len() == s.len(),
{
    let t = swap_seq(s, i, j);
    assert forall|a: int, b: int| 0 <= a < t.len() && 0 <= b < t.len() && a != b implies #[trigger] t[a]
        != #[trigger] t[b] by {
        let sa = if a == j { i } else if a == i { j } else { a };
        let sb = if b == j { i } else if b == i { j } else { b };
        assert(t[a] == s[sa]);
        assert(t[b] == s[sb]);
    }
}

/// Whether the permutation `s` of `0..s.len()` is odd: its largest value is moved to the end by
/// an exchange, if it is not there already, and the rest is considered in turn; the permutation
/// is odd when an odd number of exchanges is needed.
pub open spec fn odd_perm(s: Seq<u64>) -> bool
    decreases s.len(),
{
    if s.len() == 0 {
        false
    } else {
        let last = s.len() - 1;
        let k = index_of(s, last as u64);
        if k < 0 || k >= last {
            odd_perm(s.drop_last())
        } else {
            !odd_perm(swap_seq(s, k, last).drop_last())
        }
    }
}

/// The permutation `s` with its largest value moved to the end: that value's position, and the
/// rest, a permutation again.
pub proof fn lemma_reduce(s: Seq<u64>)
    requires
        is_permutation(s),
        s.len() > 0,
    ensures
        ({
            let last = s.len() - 1;
            let k = index_of(s, last as u64);
            let u = if k == last {
                s
            } else {
                swap_seq(s, k, last)
            };
            &&& 0 <= k < s.len()
            &&& s[k] == last
            &&& u[last] == last
            &&& is_permutation(u)
            &&& is_permutation(u.drop_last())
            &&& odd_perm(s) == (odd_perm(u.drop_last()) != (k != last))
        }),
{
    let last = s.len() - 1;
    lemma_permutation_onto(s, last);
    lemma_index_of(s, last as u64);
    let k = index_of(s, last as u64);
    let u = if k == last {
        s
    } else {
        swap_seq(s, k, last)
    };
    if k != last {
        lemma_swap_permutation(s, k, last);
    }
    let d = u.drop_last();
    assert forall|i: int| 0 <= i < d.len() implies (#[trigger] d[i] as int) < d.len() by {
        assert(u[i] != u[last]);
    }
}

/// Exchanging two entries of a permutation changes whether it is odd.
pub proof fn lemma_swap_parity(s: Seq<u64>, i: int, j: int)
    requires
        is_permutation(s),
        0 <= i < s.len(),
        0 <= j < s.len(),
        i != j,
    ensures
        odd_perm(swap_seq(s, i, j)) == !odd_perm(s),
    decreases s.len(),
{
    let t = swap_seq(s, i, j);
    let last = s.len() - 1;
    lemma_swap_permutation(s, i, j);
    lemma_reduce(s);
    lemma_reduce(t);
    let k = index_of(s, last as u64);
    let kt = index_of(t, last as u64);
    let u = if k == last {
        s
    } else {
        swap_seq(s, k, last)
    };
    let ut = if kt == last {
        t
    } else {
        swap_seq(t, kt, last)
    };
    // Where the largest value went.
    assert(kt == if k == i {
        j
    } else if k == j {
        i
    } else {
        k
    }) by {
        let kk = if k == i {
            j
        } else if k == j {
            i
        } else {
            k
        };
        assert(t[kk] == last);
        lemma_index_of(t, last as u64);
        if kt != kk {
            assert(t[kt] != t[kk]);
        }
    }
    if (i == k && j == last) || (j == k && i == last) {
        // The exchange moves the largest value to the end, or away from it.
        if k == last {
            assert(false);
        }
        assert(ut == t);
        assert(t =~= u);
    } else if i == last || j == last || i == k || j == k {
        // One entry of the exchange is the end or the largest value; `a` is the other one.
        let a = if i == last || i == k {
            j
        } else {
            i
        };
        if k == last {
            assert(ut =~= s) by {
                assert(t =~= swap_seq(s, a, last));
            }
            assert(ut.drop_last() =~= u.drop_last());
        } else {
            assert(ut =~= swap_seq(u, k, a));
            lemma_swap_parity(u.drop_last(), k, a);
            assert(swap_seq(u, k, a).drop_last() =~= swap_seq(u.drop_last(), k, a));
        }
    } else {
        // The exchange is apart from both: it commutes with moving the largest value.
        assert(ut =~= swap_seq(u, i, j));
        lemma_swap_parity(u.drop_last(), i, j);
        assert(swap_seq(u, i, j).drop_last() =~= swap_seq(u.drop_last(), i, j));
    }
}

/// The identity permutation is even.
pub proof fn lemma_identity_even(n: nat)
    requires
        n <= u64::MAX,
    ensures
        !odd_perm(Seq::new(n, |i: int| i as u64)),
    decreases n,
{
    if n > 0 {
        let s = Seq::new(n, |i: int| i as u64);
        lemma_index_of(s, (n - 1) as u64);
        let k = index_of(s, (n - 1) as u64);
        if k < n - 1 {
            assert(s[k] != (n - 1) as u64);
            assert(s[n - 1] == (n - 1) as u64);
            assert(s.contains((n - 1) as u64));
        }
        lemma_identity_even((n - 1) as nat);
        assert(s.drop_last() =~= Seq::new((n - 1) as nat, |i: int| i as u64));
    }
}

} // verus!
