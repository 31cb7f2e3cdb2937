use core::cmp::Ordering;
use vstd::laws_cmp::obeys_cmp;
use vstd::prelude::*;
use vstd::std_specs::cmp::{OrdSpec, PartialEqSpec, PartialOrdSpec};

verus! {

/// `a` holds the same elements as `b`, each as often.
pub open spec fn permutes<T>(a: Seq<T>, b: Seq<T>) -> bool {
    a.to_multiset() == b.to_multiset()
}

/// `s` with the elements at `i` and `j` exchanged.
pub open spec fn swapped<T>(s: Seq<T>, i: int, j: int) -> Seq<T> {
    s.update(i, s[j]).update(j, s[i])
}

/// Overwriting one element takes it out of the multiset and puts the new one in.
pub proof fn lemma_update_multiset<T>(s: Seq<T>, i: int, v: T)
    requires
        0 <= i < s.len(),
    ensures
        s.update(i, v).to_multiset() == s.to_multiset().remove(s[i]).insert(v),
{
    let u = s.update(i, v);
    s.to_multiset_ensures();
    u.to_multiset_ensures();
    broadcast use vstd::multiset::group_multiset_axioms;

    assert(u.remove(i) =~= s.remove(i));
    assert(u[i] == v);
    assert(u.remove(i).to_multiset() =~= u.to_multiset().remove(v));
    assert(s.remove(i).to_multiset() =~= s.to_multiset().remove(s[i]));
    assert(u.to_multiset().count(v) > 0) by {
        assert(u.contains(v));
    }
    assert(u.to_multiset() =~= u.to_multiset().remove(v).insert(v));
}

/// Exchanging two elements keeps the multiset.
pub proof fn lemma_swap_permutes<T>(s: Seq<T>, i: int, j: int)
    requires
        0 <= i < s.len(),
        0 <= j < s.len(),
    ensures
        permutes(swapped(s, i, j), s),
{
    if i == j {
        assert(swapped(s, i, j) =~= s);
    } else {
        lemma_update_multiset(s, i, s[j]);
        let u = s.update(i, s[j]);
        lemma_update_multiset(u, j, s[i]);
        broadcast use vstd::multiset::group_multiset_axioms;

        s.to_multiset_ensures();
        assert(s.to_multiset().count(s[i]) > 0) by {
            assert(s.contains(s[i]));
        }
        assert(swapped(s, i, j).to_multiset() =~= s.to_multiset());
    }
}

/// Every element of a rearrangement of `b` occurs in `b`.
pub proof fn lemma_permutes_contains<T>(a: Seq<T>, b: Seq<T>, x: T)
    requires
        permutes(a, b),
        a.contains(x),
    ensures
        b.contains(x),
{
    a.to_multiset_ensures();
    b.to_multiset_ensures();
    assert(a.to_multiset().count(x) > 0);
    assert(b.to_multiset().count(x) > 0);
}

/// Exchanges the elements at `i` and `j`.
pub fn swap<T>(a: &mut [T], i: usize, j: usize)
    requires
        i < old(a)@.len(),
        j < old(a)@.len(),
    ensures
        final(a)@ == swapped(old(a)@, i as int, j as int),
{
    if i == j {
        assert(swapped(old(a)@, i as int, j as int) =~= old(a)@);
        return;
    }
    let (lo, hi) = if i < j {
        (i, j)
    } else {
        (j, i)
    };
    let (left, right) = a.split_at_mut(hi);
    std::mem::swap(&mut left[lo], &mut right[0]);
    proof {
        assert(final(a)@ =~= swapped(old(a)@, i as int, j as int));
    }
}

/// Exchanges the elements at `i` and `j` of a vector.
pub fn swap_vec<T>(a: &mut Vec<T>, i: usize, j: usize)
    requires
        i < old(a)@.len(),
        j < old(a)@.len(),
    ensures
        final(a)@ == swapped(old(a)@, i as int, j as int),
{
    swap(a.as_mut_slice(), i, j);
}

/// `a` comes no later than `b` in the order of `T`.
pub open spec fn le<T: Ord>(a: T, b: T) -> bool {
    a.partial_cmp_spec(&b) != Some(Ordering::Greater)
}

/// Every element comes no later than every later one, in the order of `T`.
pub open spec fn ordered<T: Ord>(s: Seq<T>) -> bool {
    forall|i: int, j: int| 0 <= i < j < s.len() ==> le(s[i], s[j])
}

/// The comparisons of a type whose order obeys the laws of a total order: any two
/// elements are comparable, `<` is the converse of `>`, and `le` is transitive.
pub proof fn lemma_total_order<T: Ord>()
    requires
        obeys_cmp::<T>(),
    ensures
        T::obeys_partial_cmp_spec(),
        T::obeys_cmp_spec(),
        forall|a: T, b: T| #[trigger] a.partial_cmp_spec(&b) == Some(a.cmp_spec(&b)),
        forall|a: T, b: T| #[trigger] le(a, b) || le(b, a),
        forall|a: T, b: T| #[trigger] a.partial_cmp_spec(&b) == Some(Ordering::Less) <==> !le(b, a),
        forall|a: T, b: T, c: T| #[trigger] le(a, b) && #[trigger] le(b, c) ==> le(a, c),
{
    reveal(vstd::laws_eq::obeys_eq_spec_properties);
    reveal(vstd::laws_cmp::obeys_partial_cmp_spec_properties);
    reveal(vstd::laws_cmp::obeys_cmp_partial_ord);
    reveal(vstd::laws_cmp::obeys_cmp_ord);
    assert forall|a: T, b: T| #[trigger] le(a, b) || le(b, a) by {
        if !le(a, b) {
            assert(a.partial_cmp_spec(&b) == Some(Ordering::Greater));
            assert(b.partial_cmp_spec(&a) == Some(Ordering::Less));
        }
    }
    assert forall|a: T, b: T| #[trigger] a.partial_cmp_spec(&b) == Some(Ordering::Less) <==> !le(b, a) by {
    }
    assert forall|a: T, b: T, c: T| #[trigger] le(a, b) && #[trigger] le(b, c) implies le(a, c) by {
        if !le(a, c) {
            assert(a.partial_cmp_spec(&c) == Some(Ordering::Greater));
            assert(c.partial_cmp_spec(&a) == Some(Ordering::Less));
            let ab = a.partial_cmp_spec(&b);
            let bc = b.partial_cmp_spec(&c);
            assert(ab == Some(a.cmp_spec(&b)));
            assert(bc == Some(b.cmp_spec(&c)));
            if ab == Some(Ordering::Less) {
                if bc == Some(Ordering::Less) {
                    assert(a.partial_cmp_spec(&c) == Some(Ordering::Less));
                } else {
                    assert(b.eq_spec(&c));
                    assert(c.eq_spec(&b));
                    assert(c.partial_cmp_spec(&b) == Some(Ordering::Less));
                }
            } else {
                assert(a.eq_spec(&b));
                assert(b.eq_spec(&a));
                if bc == Some(Ordering::Less) {
                    assert(b.partial_cmp_spec(&a) == Some(Ordering::Less));
                } else {
                    assert(b.eq_spec(&c));
                    assert(a.eq_spec(&c));
                }
            }
        }
    }
}

} // verus!
