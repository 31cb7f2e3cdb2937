use super::order::{lemma_swap_permutes, lemma_total_order, le, ordered, permutes, swapped};
use vstd::laws_cmp::obeys_cmp;
use vstd::prelude::*;

verus! {

/// Sorts `array` in ascending order: each element in turn is moved left past the
/// larger elements before it.
pub fn insertion_sort<T: Ord + Copy>(array: &mut Vec<T>)
    requires
        old(array)@.len() <= isize::MAX,
        obeys_cmp::<T>(),
    ensures
        permutes(final(array)@, old(array)@),
        ordered(final(array)@),
{
    let n = array.len();
    let mut i: usize = 1;
    while i < n
        invariant
            n == array@.len(),
            n <= isize::MAX,
            1 <= i,
            n > 0 ==> i <= n,
            obeys_cmp::<T>(),
            permutes(array@, old(array)@),
            forall|a: int, b: int| 0 <= a < b < i && b < n ==> le(array@[a], array@[b]),
        decreases n - i,
    {
        proof {
            lemma_total_order::<T>();
        }
        let current = array[i];
        let ghost orig = array@;
        let mut j: isize = (i as isize) - 1;
        assert(orig.update(i as int, current) =~= orig);
        while j >= 0 && array[j as usize] > current
            invariant
                n == array@.len(),
                i < n,
                n <= isize::MAX,
                -1 <= j < i,
                obeys_cmp::<T>(),
                current == orig[i as int],
                permutes(array@.update(j + 1, current), orig),
                forall|a: int, b: int|
                    0 <= a < b <= i && a != j + 1 && b != j + 1 ==> le(array@[a], array@[b]),
                forall|q: int| j + 1 < q <= i ==> le(current, #[trigger] array@[q]),
            decreases j + 1,
        {
            proof {
                lemma_total_order::<T>();
            }
            let ghost s0 = array@;
            let v = array[j as usize];
            array[(j + 1) as usize] = v;
            proof {
                let h = s0.update(j + 1, current);
                assert(array@.update(j as int, current) =~= swapped(h, j as int, j + 1));
                lemma_swap_permutes(h, j as int, j + 1);
            }
            j = j - 1;
        }
        proof {
            lemma_total_order::<T>();
        }
        let ghost before = array@;
        array[(j + 1) as usize] = current;
        proof {
            assert forall|a: int, b: int| 0 <= a < b < i + 1 && b < n implies le(array@[a], array@[b]) by {
                if b == j + 1 {
                    if a < j {
                        assert(le(before[a], before[j as int]));
                    }
                } else if a == j + 1 {
                    assert(le(current, before[b]));
                } else if a <= j && b > j + 1 {
                    assert(le(before[a], before[j as int]) || a == j);
                    assert(le(before[j as int], current));
                }
            }
        }
        i = i + 1;
    }
}

} // verus!
