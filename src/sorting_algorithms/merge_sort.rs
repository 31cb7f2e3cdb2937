use super::order::{lemma_total_order, le, ordered, permutes};
use core::cmp::Ordering;
use vstd::laws_cmp::obeys_cmp;
use vstd::prelude::*;
use vstd::seq_lib::lemma_multiset_commutative;

verus! {

/// `v` holds the elements of `s` last first.
pub open spec fn reversed<T>(v: Seq<T>, s: Seq<T>) -> bool {
    &&& v.len() == s.len()
    &&& forall|t: int| 0 <= t < v.len() ==> v[t] == s[s.len() - 1 - t]
}

/// Moves the elements of `a` into a new vector, last first, so that popping it
/// yields them from the first.
fn into_reversed<T>(a: Vec<T>) -> (r: Vec<T>)
    ensures
        reversed(r@, a@),
{
    let ghost a0 = a@;
    let mut a = a;
    let mut r: Vec<T> = Vec::new();
    while a.len() > 0
        invariant
            a@ == a0.subrange(0, a@.len() as int),
            a@.len() + r@.len() == a0.len(),
            forall|t: int| 0 <= t < r@.len() ==> r@[t] == a0[a0.len() - 1 - t],
        decreases a@.len(),
    {
        let x = a.pop().unwrap();
        proof {
            assert(a@ =~= a0.subrange(0, a@.len() as int));
            assert(x == a0[a@.len() as int]);
        }
        r.push(x);
    }
    r
}

/// Sorts `array` in ascending order and returns it: sorts each half, then merges
/// the two sorted halves, taking the smaller head first and both heads when equal.
pub fn merge_sort<T: Ord>(array: Vec<T>) -> (r: Vec<T>)
    requires
        obeys_cmp::<T>(),
    ensures
        permutes(r@, array@),
        ordered(r@),
    decreases array@.len(),
{
    broadcast use vstd::multiset::group_multiset_axioms;

    proof {
        lemma_total_order::<T>();
    }
    if array.len() <= 1 {
        return array;
    }
    let ghost whole = array@;
    let mut array = array;
    let mut res: Vec<T> = Vec::with_capacity(array.len());
    let half = array.len() / 2;
    let b = array.split_off(half);
    proof {
        assert(whole =~= array@ + b@);
        lemma_multiset_commutative(array@, b@);
    }
    let a = merge_sort(array);
    let b = merge_sort(b);
    let ghost a0 = a@;
    let ghost b0 = b@;
    let mut ra = into_reversed(a);
    let mut rb = into_reversed(b);
    assert(res@ =~= a0.subrange(0, 0) + b0.subrange(0, 0));
    while ra.len() > 0 || rb.len() > 0
        invariant
            obeys_cmp::<T>(),
            ra@.len() <= a0.len(),
            rb@.len() <= b0.len(),
            forall|t: int| 0 <= t < ra@.len() ==> ra@[t] == a0[a0.len() - 1 - t],
            forall|t: int| 0 <= t < rb@.len() ==> rb@[t] == b0[b0.len() - 1 - t],
            ordered(a0),
            ordered(b0),
            ordered(res@),
            permutes(res@, a0.subrange(0, a0.len() - ra@.len()) + b0.subrange(0, b0.len() - rb@.len())),
            forall|k: int|
                0 <= k < res@.len() && ra@.len() > 0 ==> le(res@[k], a0[a0.len() - ra@.len()]),
            forall|k: int|
                0 <= k < res@.len() && rb@.len() > 0 ==> le(res@[k], b0[b0.len() - rb@.len()]),
        decreases ra@.len() + rb@.len(),
    {
        proof {
            lemma_total_order::<T>();
        }
        let ghost before = res@;
        let ghost i = a0.len() - ra@.len();
        let ghost j = b0.len() - rb@.len();
        let ghost ai = a0.subrange(0, i);
        let ghost bj = b0.subrange(0, j);
        let take_a = if rb.len() == 0 {
            true
        } else if ra.len() == 0 {
            false
        } else {
            match ra[ra.len() - 1].cmp(&rb[rb.len() - 1]) {
                Ordering::Less => true,
                Ordering::Greater => false,
                Ordering::Equal => {
                    let x = ra.pop().unwrap();
                    let y = rb.pop().unwrap();
                    proof {
                        assert(x == a0[i]);
                        assert(y == b0[j]);
                        assert(le(x, y) && le(y, x));
                    }
                    res.push(x);
                    res.push(y);
                    proof {
                        assert(a0.subrange(0, i + 1) =~= ai.push(x));
                        assert(b0.subrange(0, j + 1) =~= bj.push(y));
                        lemma_multiset_commutative(ai, bj);
                        lemma_multiset_commutative(ai.push(x), bj.push(y));
                        before.to_multiset_ensures();
                        before.push(x).to_multiset_ensures();
                        ai.to_multiset_ensures();
                        bj.to_multiset_ensures();
                        assert(res@.to_multiset() =~= (ai.push(x) + bj.push(y)).to_multiset());
                        assert forall|k: int| 0 <= k < res@.len() && ra@.len() > 0 implies le(
                            res@[k],
                            a0[a0.len() - ra@.len()],
                        ) by {
                            assert(le(a0[i], a0[i + 1]));
                            assert(le(y, a0[i + 1]));
                        }
                        assert forall|k: int| 0 <= k < res@.len() && rb@.len() > 0 implies le(
                            res@[k],
                            b0[b0.len() - rb@.len()],
                        ) by {
                            assert(le(b0[j], b0[j + 1]));
                            assert(le(x, b0[j + 1]));
                        }
                    }
                    continue;
                },
            }
        };
        if take_a {
            let x = ra.pop().unwrap();
            proof {
                assert(x == a0[i]);
            }
            res.push(x);
            proof {
                assert(a0.subrange(0, i + 1) =~= ai.push(x));
                lemma_multiset_commutative(ai, bj);
                lemma_multiset_commutative(ai.push(x), bj);
                before.to_multiset_ensures();
                ai.to_multiset_ensures();
                assert(res@.to_multiset() =~= (ai.push(x) + bj).to_multiset());
                assert forall|k: int| 0 <= k < res@.len() && ra@.len() > 0 implies le(
                    res@[k],
                    a0[a0.len() - ra@.len()],
                ) by {
                    assert(le(a0[i], a0[i + 1]));
                }
            }
        } else {
            let y = rb.pop().unwrap();
            proof {
                assert(y == b0[j]);
            }
            res.push(y);
            proof {
                assert(b0.subrange(0, j + 1) =~= bj.push(y));
                lemma_multiset_commutative(ai, bj);
                lemma_multiset_commutative(ai, bj.push(y));
                before.to_multiset_ensures();
                bj.to_multiset_ensures();
                assert(res@.to_multiset() =~= (ai + bj.push(y)).to_multiset());
                assert forall|k: int| 0 <= k < res@.len() && rb@.len() > 0 implies le(
                    res@[k],
                    b0[b0.len() - rb@.len()],
                ) by {
                    assert(le(b0[j], b0[j + 1]));
                }
            }
        }
    }
    proof {
        assert(a0.subrange(0, a0.len() as int) =~= a0);
        assert(b0.subrange(0, b0.len() as int) =~= b0);
        lemma_multiset_commutative(a0, b0);
    }
    res
}

} // verus!
