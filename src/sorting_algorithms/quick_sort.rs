use super::order::{
    lemma_permutes_contains, lemma_swap_permutes, lemma_total_order, le, ordered, permutes, swap, swapped,
};
use core::cmp::Ordering;
use vstd::std_specs::cmp::PartialOrdSpec;
use vstd::laws_cmp::obeys_cmp;
use vstd::prelude::*;

verus! {

/// The arrangement and pivot position once the pivoting of `s` has looked at the
/// positions before `i`: each element found smaller than the pivot is swapped just
/// behind it, and then the two change places.
pub open spec fn pivot_steps<T: Ord>(s: Seq<T>, i: nat) -> (Seq<T>, nat)
    decreases i,
{
    if i <= 1 {
        (s, 0)
    } else {
        let prev = pivot_steps(s, (i - 1) as nat);
        let a = prev.0;
        let p = prev.1 as int;
        let k = i - 1;
        if a[k].partial_cmp_spec(&a[p]) == Some(Ordering::Less) {
            (swapped(swapped(a, k, p + 1), p, p + 1), (p + 1) as nat)
        } else {
            (a, p as nat)
        }
    }
}

/// Moves the first element to its sorted place: everything before it ends up
/// smaller, everything after it at least as large. Returns its new index.
pub fn pivot<T: Ord>(array: &mut [T]) -> (r: usize)
    requires
        obeys_cmp::<T>(),
    ensures
        final(array)@.len() == old(array)@.len(),
        permutes(final(array)@, old(array)@),
        old(array)@.len() == 0 ==> r == 0,
        old(array)@.len() > 0 ==> r < old(array)@.len() && final(array)@[r as int] == old(array)@[0],
        forall|k: int| 0 <= k < r ==> !le(final(array)@[r as int], final(array)@[k]),
        forall|k: int| r < k < final(array)@.len() ==> le(final(array)@[r as int], final(array)@[k]),
        final(array)@ == pivot_steps(old(array)@, old(array)@.len()).0,
        r == pivot_steps(old(array)@, old(array)@.len()).1,
{
    let n = array.len();
    let mut pivot: usize = 0;
    let mut i: usize = 1;
    while i < n
        invariant
            n == array@.len(),
            n == old(array)@.len(),
            permutes(array@, old(array)@),
            n > 0 ==> pivot < i <= n && array@[pivot as int] == old(array)@[0],
            n == 0 ==> pivot == 0,
            forall|k: int| 0 <= k < pivot ==> !le(array@[pivot as int], array@[k]),
            forall|k: int| pivot < k < i ==> le(array@[pivot as int], array@[k]),
            obeys_cmp::<T>(),
            (array@, pivot as nat) == pivot_steps(old(array)@, i as nat),
        decreases n - i,
    {
        proof {
            lemma_total_order::<T>();
        }
        if array[i] < array[pivot] {
            let ghost s0 = array@;
            swap(array, i, pivot + 1);
            let ghost s1 = array@;
            swap(array, pivot, pivot + 1);
            proof {
                lemma_swap_permutes(s0, i as int, pivot + 1);
                lemma_swap_permutes(s1, pivot as int, pivot + 1);
            }
            pivot = pivot + 1;
        }
        i = i + 1;
    }
    proof {
        if n == 0 {
            assert(pivot_steps(old(array)@, 0) == pivot_steps(old(array)@, 1));
        }
    }
    pivot
}

/// Sorts `array` in ascending order: pivots on the first element, then sorts the
/// parts before and after it.
pub fn quick_sort<T: Ord>(array: &mut [T])
    requires
        obeys_cmp::<T>(),
    ensures
        permutes(final(array)@, old(array)@),
        ordered(final(array)@),
    decreases old(array)@.len(),
{
    proof {
        lemma_total_order::<T>();
    }
    if array.len() <= 1 {
        return;
    }
    let pivot_point = pivot(array);
    let ghost pivoted = array@;
    let ghost pv = pivoted[pivot_point as int];
    let (left, right) = array.split_at_mut(pivot_point);
    let ghost left0 = left@;
    let ghost right0 = right@;
    quick_sort(left);
    let (mid, rest) = right.split_at_mut(1);
    let ghost mid0 = mid@;
    let ghost rest0 = rest@;
    quick_sort(rest);
    proof {
        let l = left@;
        let m = mid@;
        let r = rest@;
        assert(right@ == m + r);
        assert(array@ == l + (m + r));
        assert(pivoted =~= left0 + right0);
        assert(right0 =~= mid0 + rest0);
        assert(m == mid0);
        assert(m =~= seq![pv]);
        assert forall|k: int| 0 <= k < l.len() implies !le(pv, l[k]) by {
            assert(l.contains(l[k]));
            lemma_permutes_contains(l, left0, l[k]);
        }
        assert forall|k: int| 0 <= k < r.len() implies le(pv, r[k]) by {
            assert(r.contains(r[k]));
            lemma_permutes_contains(r, rest0, r[k]);
            let t = choose|t: int| 0 <= t < rest0.len() && rest0[t] == r[k];
            assert(pivoted[pivot_point + 1 + t] == rest0[t]);
        }
        let s = array@;
        assert forall|a: int, b: int| 0 <= a < b < s.len() implies le(s[a], s[b]) by {
            if b < l.len() {
            } else if a < l.len() {
                assert(le(s[a], pv));
                if b > l.len() {
                    assert(s[b] == r[b - l.len() - 1]);
                    assert(le(pv, s[b]));
                }
            } else if a == l.len() {
                assert(s[b] == r[b - l.len() - 1]);
            } else {
                assert(s[a] == r[a - l.len() - 1]);
                assert(s[b] == r[b - l.len() - 1]);
            }
        }
        vstd::seq_lib::lemma_multiset_commutative(l, m + r);
        vstd::seq_lib::lemma_multiset_commutative(m, r);
        vstd::seq_lib::lemma_multiset_commutative(left0, right0);
        vstd::seq_lib::lemma_multiset_commutative(mid0, rest0);
    }
}

} // verus!
