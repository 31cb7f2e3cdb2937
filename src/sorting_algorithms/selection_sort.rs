use super::order::{lemma_swap_permutes, lemma_total_order, le, ordered, permutes, swap_vec};
use vstd::laws_cmp::obeys_cmp;
use vstd::prelude::*;

verus! {

/// Sorts `array` in ascending order by moving the smallest remaining element to
/// the front of the unsorted part, one position at a time.
pub fn selection_sort<T: Ord>(array: &mut Vec<T>)
    requires
        old(array)@.len() > 0,
        obeys_cmp::<T>(),
    ensures
        permutes(final(array)@, old(array)@),
        ordered(final(array)@),
{
    proof {
        lemma_total_order::<T>();
    }
    let n = array.len();
    let mut i: usize = 0;
    while i < n - 1
        invariant
            n == array@.len(),
            n > 0,
            i <= n - 1,
            obeys_cmp::<T>(),
            permutes(array@, old(array)@),
            forall|a: int, b: int| 0 <= a < b < i ==> le(array@[a], array@[b]),
            forall|a: int, b: int| 0 <= a < i <= b < n ==> le(array@[a], array@[b]),
        decreases n - 1 - i,
    {
        proof {
            lemma_total_order::<T>();
        }
        let mut smallest = i;
        let mut j = i;
        while j < n
            invariant
                n == array@.len(),
                i < n,
                i <= smallest < n,
                i <= j <= n,
                obeys_cmp::<T>(),
                forall|k: int| i <= k < j ==> le(array@[smallest as int], array@[k]),
            decreases n - j,
        {
            proof {
                lemma_total_order::<T>();
            }
            if array[j] < array[smallest] {
                proof {
                    assert(le(array@[j as int], array@[j as int]));
                    assert(le(array@[j as int], array@[smallest as int]));
                }
                smallest = j;
            }
            j = j + 1;
        }
        let ghost s0 = array@;
        swap_vec(array, i, smallest);
        proof {
            lemma_swap_permutes(s0, i as int, smallest as int);
            assert forall|a: int, b: int| 0 <= a < i + 1 <= b < n implies le(array@[a], array@[b]) by {
                if a < i {
                    if b == smallest {
                        assert(array@[b] == s0[i as int]);
                    }
                } else {
                    if b == smallest {
                        assert(array@[b] == s0[i as int]);
                    }
                }
            }
            assert forall|a: int, b: int| 0 <= a < b < i + 1 implies le(array@[a], array@[b]) by {
                if b == i {
                    assert(array@[b] == s0[smallest as int]);
                }
            }
        }
        i = i + 1;
    }
    proof {
        assert forall|a: int, b: int| 0 <= a < b < n implies le(array@[a], array@[b]) by {}
    }
}

} // verus!
