use super::order::{lemma_swap_permutes, lemma_total_order, le, ordered, permutes, swap_vec};
use vstd::laws_cmp::obeys_cmp;
use vstd::prelude::*;

verus! {

/// A sequence whose every element comes no later than the next one is ordered.
pub proof fn lemma_adjacent_sorted<T: Ord>(s: Seq<T>)
    requires
        obeys_cmp::<T>(),
        forall|k: int| 0 <= k < s.len() - 1 ==> #[trigger] le(s[k], s[k + 1]),
    ensures
        ordered(s),
{
    assert forall|a: int, b: int| 0 <= a < b < s.len() implies le(s[a], s[b]) by {
        lemma_adjacent_chain(s, a, b);
    }
}

proof fn lemma_adjacent_chain<T: Ord>(s: Seq<T>, a: int, b: int)
    requires
        obeys_cmp::<T>(),
        forall|k: int| 0 <= k < s.len() - 1 ==> #[trigger] le(s[k], s[k + 1]),
        0 <= a < b < s.len(),
    ensures
        le(s[a], s[b]),
    decreases b - a,
{
    lemma_total_order::<T>();
    let k = b - 1;
    assert(le(s[k], s[k + 1]));
    if a < k {
        lemma_adjacent_chain(s, a, k);
    }
}

/// Sorts `array` in ascending order: each pass walks the whole array and swaps
/// every adjacent pair that is out of order.
pub fn bubble_sort<T: Ord>(array: &mut Vec<T>)
    requires
        obeys_cmp::<T>(),
    ensures
        permutes(final(array)@, old(array)@),
        ordered(final(array)@),
{
    if array.len() <= 1 {
        return;
    }
    let n = array.len();
    let mut i: usize = 0;
    while i < n
        invariant
            n == array@.len(),
            n >= 2,
            i <= n,
            permutes(array@, old(array)@),
            obeys_cmp::<T>(),
            forall|a: int, b: int| n - i <= a < b < n ==> le(array@[a], array@[b]),
            forall|a: int, b: int| 0 <= a < n - i <= b < n ==> le(array@[a], array@[b]),
        decreases n - i,
    {
        let ghost bound: int = n - i - 1;
        proof {
            lemma_total_order::<T>();
            assert(le(array@[0], array@[0]));
        }
        let mut j: usize = 0;
        while j < n - 1
            invariant
                n == array@.len(),
                n >= 2,
                i < n,
                bound == n - i - 1,
                j <= n - 1,
                permutes(array@, old(array)@),
                obeys_cmp::<T>(),
            obeys_cmp::<T>(),
                forall|a: int, b: int| n - i <= a < b < n ==> le(array@[a], array@[b]),
                forall|a: int, b: int| 0 <= a < n - i <= b < n ==> le(array@[a], array@[b]),
                j <= bound ==> forall|k: int| 0 <= k <= j ==> le(#[trigger] array@[k], array@[j as int]),
                j > bound ==> forall|k: int| 0 <= k <= bound ==> le(#[trigger] array@[k], array@[bound]),
            decreases n - 1 - j,
        {
            proof {
                lemma_total_order::<T>();
            }
            if array[j] > array[j + 1] {
                let ghost s0 = array@;
                swap_vec(array, j, j + 1);
                proof {
                    lemma_swap_permutes(s0, j as int, j + 1);
                    assert(j < bound);
                    assert forall|a: int, b: int| 0 <= a < n - i <= b < n implies le(array@[a], array@[b]) by {
                        if a == j {
                            assert(array@[a] == s0[j + 1]);
                        } else if a == j + 1 {
                            assert(array@[a] == s0[j as int]);
                        }
                    }
                }
            }
            j = j + 1;
        }
        i = i + 1;
    }
}

/// Sorts `array` in ascending order like `bubble_sort`, but each pass stops short of
/// the part already sorted, and the sort ends after a first pass that swaps nothing.
pub fn better_bubble_sort<T: Ord>(array: &mut Vec<T>)
    requires
        obeys_cmp::<T>(),
    ensures
        permutes(final(array)@, old(array)@),
        ordered(final(array)@),
{
    if array.len() <= 1 {
        return;
    }
    let n = array.len();
    let mut flag = true;
    let mut i: usize = 0;
    while i < n
        invariant
            n == array@.len(),
            n >= 2,
            i <= n,
            flag ==> i == 0,
            permutes(array@, old(array)@),
            obeys_cmp::<T>(),
            forall|a: int, b: int| n - i <= a < b < n ==> le(array@[a], array@[b]),
            forall|a: int, b: int| 0 <= a < n - i <= b < n ==> le(array@[a], array@[b]),
        decreases n - i,
    {
        proof {
            lemma_total_order::<T>();
            assert(le(array@[0], array@[0]));
        }
        let mut j: usize = 0;
        while j < n - 1 - i
            invariant
                n == array@.len(),
                n >= 2,
                i < n,
                j <= n - 1 - i,
                flag ==> i == 0,
                flag ==> forall|k: int| 0 <= k < j ==> #[trigger] le(array@[k], array@[k + 1]),
                permutes(array@, old(array)@),
                obeys_cmp::<T>(),
            obeys_cmp::<T>(),
                forall|a: int, b: int| n - i <= a < b < n ==> le(array@[a], array@[b]),
                forall|a: int, b: int| 0 <= a < n - i <= b < n ==> le(array@[a], array@[b]),
                forall|k: int| 0 <= k <= j ==> le(array@[k], array@[j as int]),
            decreases n - 1 - i - j,
        {
            proof {
                lemma_total_order::<T>();
            }
            if array[j] > array[j + 1] {
                let ghost s0 = array@;
                swap_vec(array, j, j + 1);
                proof {
                    lemma_swap_permutes(s0, j as int, j + 1);
                    assert forall|a: int, b: int| 0 <= a < n - i <= b < n implies le(array@[a], array@[b]) by {
                        if a == j {
                            assert(array@[a] == s0[j + 1]);
                        } else if a == j + 1 {
                            assert(array@[a] == s0[j as int]);
                        }
                    }
                }
                flag = false;
            }
            j = j + 1;
        }
        if flag {
            proof {
                lemma_adjacent_sorted(array@);
            }
            return;
        }
        i = i + 1;
    }
}

} // verus!
