use crate::sorting_algorithms::order::{lemma_permutes_contains, lemma_swap_permutes, lemma_total_order, le, ordered, permutes, swap_vec};
use core::cmp::Ordering;
use crate::sorting_algorithms::order::swapped;
use vstd::laws_cmp::obeys_cmp;
use vstd::std_specs::cmp::PartialOrdSpec;
use std::marker::PhantomData;
use vstd::prelude::*;

verus! {

/// Marks a heap whose root is its largest element.
#[derive(Debug, Default, Clone)]
pub struct Max;

/// Marks a heap whose root is its smallest element.
#[derive(Debug, Default, Clone)]
pub struct Min;

pub type MaxHeap<T> = Heap<T, Max>;

pub type PriorityQueue<T> = Heap<T, Min>;

/// A binary heap kept in a vector: the children of index `i` sit at `2i + 1` and
/// `2i + 2`.
#[derive(Debug, Default)]
pub struct Heap<T, Marker = Min> {
    _marker: PhantomData<Marker>,
    data: Vec<T>,
}

/// The index of the parent of index `i > 0`.
pub open spec fn parent(i: int) -> int {
    (i - 1) / 2
}

/// Every element but the root comes no earlier than its parent.
pub open spec fn is_min_heap<T: Ord>(s: Seq<T>) -> bool {
    forall|i: int| 0 < i < s.len() ==> le(s[parent(i)], #[trigger] s[i])
}

impl<T, Marker> View for Heap<T, Marker> {
    type V = Seq<T>;

    /// The elements in their array order.
    closed spec fn view(&self) -> Seq<T> {
        self.data@
    }
}

impl<T, Marker> Heap<T, Marker> {
    /// The number of elements.
    pub fn len(&self) -> (r: usize)
        ensures
            r == self@.len(),
    {
        self.data.len()
    }

    /// The root, if there is one.
    pub fn peek(&self) -> (r: Option<&T>)
        ensures
            self@.len() == 0 ==> r.is_none(),
            self@.len() > 0 ==> r.is_some() && *r.unwrap() == self@[0],
    {
        if self.data.len() == 0 {
            None
        } else {
            Some(&self.data[0])
        }
    }

    /// Whether the heap holds no element.
    pub fn is_empty(&self) -> (r: bool)
        ensures
            r == (self@.len() == 0),
    {
        self.data.len() == 0
    }

    /// The elements in their array order.
    pub fn into_inner(self) -> (r: Vec<T>)
        ensures
            r@ == self@,
    {
        self.data
    }

    /// The index of the parent of `index`; the root is its own parent.
    pub fn parent_index(index: usize) -> (r: usize)
        ensures
            r == if index == 0 {
                0
            } else {
                parent(index as int)
            },
    {
        if index == 0 {
            return 0;
        }
        (index - 1) / 2
    }

    /// The index of the left child of `index`.
    pub fn leftchild_index(index: usize) -> (r: usize)
        requires
            2 * index + 1 <= usize::MAX,
        ensures
            r == 2 * index + 1,
    {
        2 * index + 1
    }

    /// The index of the right child of `index`.
    pub fn rightchild_index(index: usize) -> (r: usize)
        requires
            2 * index + 2 <= usize::MAX,
        ensures
            r == 2 * index + 2,
    {
        2 * index + 2
    }

    /// The parent of the element at `index`, if it has one.
    pub fn get_parent(&self, index: usize) -> (r: Option<&T>)
        ensures
            index == 0 ==> r.is_none(),
            index > 0 && parent(index as int) < self@.len() ==> r.is_some() && *r.unwrap() == self@[parent(
                index as int,
            )],
            index > 0 && parent(index as int) >= self@.len() ==> r.is_none(),
    {
        if index == 0 {
            return None;
        }
        self.get_node((index - 1) / 2)
    }

    /// The left child of the element at `index`, if it has one.
    pub fn get_leftchild(&self, index: usize) -> (r: Option<&T>)
        ensures
            2 * index + 1 < self@.len() ==> r.is_some() && *r.unwrap() == self@[2 * index + 1],
            2 * index + 1 >= self@.len() ==> r.is_none(),
    {
        let n = self.data.len();
        if self.has_leftchild(index) {
            assert(2 * index + 1 < n);
            Some(&self.data[2 * index + 1])
        } else {
            None
        }
    }

    /// The right child of the element at `index`, if it has one.
    pub fn get_rightchild(&self, index: usize) -> (r: Option<&T>)
        ensures
            2 * index + 2 < self@.len() ==> r.is_some() && *r.unwrap() == self@[2 * index + 2],
            2 * index + 2 >= self@.len() ==> r.is_none(),
    {
        let n = self.data.len();
        if self.has_rightchild(index) {
            assert(2 * index + 2 < n);
            Some(&self.data[2 * index + 2])
        } else {
            None
        }
    }

    /// The element at `index`, if there is one.
    pub fn get_node(&self, index: usize) -> (r: Option<&T>)
        ensures
            index < self@.len() ==> r.is_some() && *r.unwrap() == self@[index as int],
            index >= self@.len() ==> r.is_none(),
    {
        if index < self.data.len() {
            Some(&self.data[index])
        } else {
            None
        }
    }

    /// Whether the element at `index` has a parent, that is, is not the root.
    pub fn has_parent(&self, index: usize) -> (r: bool)
        ensures
            r == (index != 0),
    {
        index != 0
    }

    /// Whether the element at `index` has a left child.
    pub fn has_leftchild(&self, index: usize) -> (r: bool)
        ensures
            r == (2 * index + 2 <= self@.len()),
    {
        let n = self.data.len();
        n >= 2 && index <= (n - 2) / 2
    }

    /// Whether the element at `index` has a right child.
    pub fn has_rightchild(&self, index: usize) -> (r: bool)
        ensures
            r == (2 * index + 3 <= self@.len()),
    {
        let n = self.data.len();
        n >= 3 && index <= (n - 3) / 2
    }

    /// Exchanges the element at `index` with its parent.
    pub fn shift_upwards(&mut self, index: usize)
        requires
            0 < index < old(self)@.len(),
        ensures
            final(self)@ == old(self)@.update(index as int, old(self)@[parent(index as int)]).update(
                parent(index as int),
                old(self)@[index as int],
            ),
    {
        swap_vec(&mut self.data, index, (index - 1) / 2);
    }

    /// Exchanges the element at `index` with its left child.
    pub fn shift_leftchild(&mut self, index: usize)
        requires
            2 * index + 1 < old(self)@.len(),
        ensures
            final(self)@ == old(self)@.update(index as int, old(self)@[2 * index + 1]).update(
                2 * index + 1,
                old(self)@[index as int],
            ),
    {
        let n = self.data.len();
        assert(2 * index + 1 < n);
        swap_vec(&mut self.data, index, 2 * index + 1);
    }

    /// Exchanges the element at `index` with its right child.
    pub fn shift_rightchild(&mut self, index: usize)
        requires
            2 * index + 2 < old(self)@.len(),
        ensures
            final(self)@ == old(self)@.update(index as int, old(self)@[2 * index + 2]).update(
                2 * index + 2,
                old(self)@[index as int],
            ),
    {
        let n = self.data.len();
        assert(2 * index + 2 < n);
        swap_vec(&mut self.data, index, 2 * index + 2);
    }
}

impl<T: Clone, Marker> Clone for Heap<T, Marker> {
    fn clone(&self) -> (r: Self)
        ensures
            r@.len() == self@.len(),
            forall|i: int| 0 <= i < self@.len() ==> cloned::<T>(self@[i], #[trigger] r@[i]),
    {
        Heap { _marker: PhantomData, data: self.data.clone() }
    }
}

impl<T> Heap<T, Max> {
    /// An empty max-heap.
    pub fn new() -> (r: Self)
        ensures
            r@ == Seq::<T>::empty(),
    {
        Heap { _marker: PhantomData, data: Vec::new() }
    }
}

/// Where the element at `idx` ends up moving up: it changes places with its parent
/// for as long as the parent is greater.
pub open spec fn sift_up<T: Ord>(s: Seq<T>, idx: nat) -> Seq<T>
    decreases idx,
{
    if idx > 0 && s[parent(idx as int)].partial_cmp_spec(&s[idx as int]) == Some(Ordering::Greater) {
        sift_up(swapped(s, idx as int, parent(idx as int)), parent(idx as int) as nat)
    } else {
        s
    }
}

/// Where the element at `idx` ends up moving down: while some child is smaller, it
/// changes places with the smaller child, the left one on a tie.
pub open spec fn sift_down<T: Ord>(s: Seq<T>, idx: nat) -> Seq<T>
    decreases s.len() - idx,
{
    let i = idx as int;
    let l = 2 * i + 1;
    let r = 2 * i + 2;
    if l >= s.len() {
        s
    } else if r < s.len() {
        if le(s[i], s[l]) && le(s[i], s[r]) {
            s
        } else if le(s[l], s[r]) {
            sift_down(swapped(s, i, l), l as nat)
        } else {
            sift_down(swapped(s, i, r), r as nat)
        }
    } else if le(s[i], s[l]) {
        s
    } else {
        sift_down(swapped(s, i, l), l as nat)
    }
}

/// The root of a min-heap comes no later than any element.
pub proof fn lemma_root_is_min<T: Ord>(s: Seq<T>, k: int)
    requires
        obeys_cmp::<T>(),
        is_min_heap(s),
        0 <= k < s.len(),
    ensures
        le(s[0], s[k]),
    decreases k,
{
    lemma_total_order::<T>();
    if k > 0 {
        lemma_root_is_min(s, parent(k));
        assert(le(s[parent(k)], s[k]));
    } else {
        assert(le(s[0], s[0]));
    }
}

impl<T: Ord> Heap<T, Min> {
    /// An empty priority queue.
    pub fn new() -> (r: Self)
        ensures
            r@ == Seq::<T>::empty(),
    {
        Heap { _marker: PhantomData, data: Vec::new() }
    }

    /// Adds `data`: places it last, then moves it up past every larger parent.
    pub fn push(&mut self, data: T)
        requires
            obeys_cmp::<T>(),
            is_min_heap(old(self)@),
        ensures
            is_min_heap(final(self)@),
            final(self)@.to_multiset() == old(self)@.to_multiset().insert(data),
            final(self)@ == sift_up(old(self)@.push(data), old(self)@.len()),
    {
        let ghost d = data;
        self.data.push(data);
        proof {
            old(self)@.to_multiset_ensures();
        }
        let mut index = self.len() - 1;
        while self.has_parent(index) && *self.get_parent(index).unwrap() > *self.get_node(index).unwrap()
            invariant
                obeys_cmp::<T>(),
                index < self@.len(),
                self@.to_multiset() == old(self)@.to_multiset().insert(d),
                sift_up(self@, index as nat) == sift_up(old(self)@.push(d), old(self)@.len()),
                forall|i: int| 0 < i < self@.len() && i != index ==> le(self@[parent(i)], #[trigger] self@[i]),
                forall|c: int|
                    0 < c < self@.len() && index > 0 && parent(c) == index ==> le(
                        self@[parent(index as int)],
                        #[trigger] self@[c],
                    ),
            decreases index,
        {
            proof {
                lemma_total_order::<T>();
            }
            let ghost s0 = self@;
            let ghost p = parent(index as int);
            self.shift_upwards(index);
            proof {
                lemma_swap_permutes(s0, index as int, p);
                assert(le(s0[index as int], s0[p]));
                assert forall|i: int| 0 < i < self@.len() && i != p implies le(
                    self@[parent(i)],
                    #[trigger] self@[i],
                ) by {
                    if i == index {
                    } else if parent(i) == index {
                        assert(le(s0[p], s0[i]));
                    } else if parent(i) == p {
                        assert(le(s0[p], s0[i]));
                    }
                }
                assert forall|c: int|
                    0 < c < self@.len() && p > 0 && parent(c) == p implies le(
                        self@[parent(p)],
                        #[trigger] self@[c],
                    ) by {
                    assert(le(s0[parent(p)], s0[p]));
                    if c != index {
                        assert(le(s0[p], s0[c]));
                    }
                }
            }
            index = Self::parent_index(index);
        }
        proof {
            lemma_total_order::<T>();
            if index > 0 {
                assert(le(self@[parent(index as int)], self@[index as int]));
            }
            assert(sift_up(self@, index as nat) == self@);
        }
    }

    /// Takes out the root, the smallest element: the last element takes its place and
    /// moves down past every smaller child, always toward the smaller one.
    pub fn pop(&mut self) -> (r: Option<T>)
        requires
            obeys_cmp::<T>(),
            is_min_heap(old(self)@),
        ensures
            old(self)@.len() == 0 ==> r.is_none() && final(self)@ == old(self)@,
            old(self)@.len() > 0 ==> r == Some(old(self)@[0]) && final(self)@.len() == old(self)@.len() - 1
                && final(self)@.to_multiset() == old(self)@.to_multiset().remove(old(self)@[0]),
            forall|k: int| 0 <= k < final(self)@.len() ==> le(r.unwrap(), #[trigger] final(self)@[k]),
            is_min_heap(final(self)@),
            old(self)@.len() > 0 ==> final(self)@ == sift_down(
                swapped(old(self)@, 0, old(self)@.len() - 1).drop_last(),
                0,
            ),
    {
        if self.is_empty() {
            return None;
        }
        let ghost s_in = self@;
        proof {
            assert forall|k: int| 0 <= k < s_in.len() implies le(s_in[0], #[trigger] s_in[k]) by {
                lemma_root_is_min(s_in, k);
            }
        }
        let last_node = self.len() - 1;
        swap_vec(&mut self.data, 0, last_node);
        let ghost swapped_in = self@;
        let res = self.data.pop();
        proof {
            lemma_swap_permutes(s_in, 0, last_node as int);
            assert(swapped_in =~= self@.push(s_in[0]));
            self@.to_multiset_ensures();
            assert(self@.to_multiset() =~= s_in.to_multiset().remove(s_in[0])) by {
                broadcast use vstd::multiset::group_multiset_axioms;
            }
            assert forall|i: int| 0 < i < self@.len() && parent(i) != 0 implies le(
                self@[parent(i)],
                #[trigger] self@[i],
            ) by {
                assert(self@[i] == s_in[i]);
                assert(self@[parent(i)] == s_in[parent(i)]);
            }
            assert(heap_except_below(self@, 0));
        }
        let ghost before_sift = self@;
        self.sift_down();
        proof {
            assert forall|k: int| 0 <= k < self@.len() implies le(s_in[0], #[trigger] self@[k]) by {
                assert(self@.contains(self@[k]));
                lemma_permutes_contains(self@, before_sift, self@[k]);
                let t = choose|t: int| 0 <= t < before_sift.len() && before_sift[t] == self@[k];
                if t == 0 {
                    assert(before_sift[0] == s_in[last_node as int]);
                } else {
                    assert(before_sift[t] == s_in[t]);
                }
            }
        }
        res
    }

    /// Moves the root down past every smaller child, always toward the smaller one,
    /// until the heap property holds again.
    fn sift_down(&mut self)
        requires
            obeys_cmp::<T>(),
            heap_except_below(old(self)@, 0),
        ensures
            is_min_heap(final(self)@),
            final(self)@.len() == old(self)@.len(),
            final(self)@.to_multiset() == old(self)@.to_multiset(),
            final(self)@ == sift_down(old(self)@, 0),
    {
        let n = self.len();
        let mut index: usize = 0;
        while self.has_leftchild(index) || self.has_rightchild(index)
            invariant
                obeys_cmp::<T>(),
                n == self@.len(),
                index < n || n == 0,
                self@.to_multiset() == old(self)@.to_multiset(),
                heap_except_below(self@, index as int),
                sift_down(self@, index as nat) == sift_down(old(self)@, 0),
            ensures
                is_min_heap(self@),
                self@ == sift_down(old(self)@, 0),
            decreases n - index,
        {
            proof {
                lemma_total_order::<T>();
            }
            let left = Self::leftchild_index(index);
            let ghost s0 = self@;
            if self.has_rightchild(index) {
                let right = Self::rightchild_index(index);
                let stop = self.data[index] <= self.data[left] && self.data[index] <= self.data[right];
                if stop {
                    proof {
                        lemma_sift_down_done(s0, index as int);
                    }
                    break;
                } else if self.data[left] <= self.data[right] {
                    self.shift_leftchild(index);
                    proof {
                        lemma_swap_permutes(s0, index as int, left as int);
                        lemma_sift_down_step(s0, index as int, left as int);
                    }
                    index = left;
                } else {
                    self.shift_rightchild(index);
                    proof {
                        lemma_swap_permutes(s0, index as int, right as int);
                        lemma_sift_down_step(s0, index as int, right as int);
                    }
                    index = right;
                }
            } else {
                if self.data[index] <= self.data[left] {
                    proof {
                        lemma_sift_down_done(s0, index as int);
                    }
                    break;
                }
                self.shift_leftchild(index);
                proof {
                    lemma_swap_permutes(s0, index as int, left as int);
                    lemma_sift_down_step(s0, index as int, left as int);
                }
                index = left;
            }
        }
        proof {
            if !is_min_heap(self@) {
                lemma_sift_down_done(self@, index as int);
            }
            assert(sift_down(self@, index as nat) == self@);
        }
    }
}

/// The heap property holds except between `index` and its children, and those
/// children come no earlier than the parent of `index`.
pub open spec fn heap_except_below<T: Ord>(s: Seq<T>, index: int) -> bool {
    &&& forall|i: int| 0 < i < s.len() && parent(i) != index ==> le(s[parent(i)], #[trigger] s[i])
    &&& forall|c: int|
        0 < c < s.len() && index > 0 && parent(c) == index ==> le(s[parent(index)], #[trigger] s[c])
}

/// Once the element at `index` comes no later than its children, the heap property
/// holds.
proof fn lemma_sift_down_done<T: Ord>(s: Seq<T>, index: int)
    requires
        heap_except_below(s, index),
        0 <= index,
        forall|c: int| 0 < c < s.len() && parent(c) == index ==> le(s[index], #[trigger] s[c]),
    ensures
        is_min_heap(s),
{
}

/// Exchanging the element at `index` with its smaller child, when that child comes
/// earlier, moves the one exception to the heap property down to the child.
proof fn lemma_sift_down_step<T: Ord>(s: Seq<T>, index: int, child: int)
    requires
        obeys_cmp::<T>(),
        heap_except_below(s, index),
        0 <= index < child < s.len(),
        parent(child) == index,
        !le(s[index], s[child]),
        forall|c: int| 0 < c < s.len() && parent(c) == index ==> le(s[child], #[trigger] s[c]),
    ensures
        heap_except_below(s.update(index, s[child]).update(child, s[index]), child),
{
    lemma_total_order::<T>();
    let t = s.update(index, s[child]).update(child, s[index]);
    assert(le(s[child], s[index]));
    assert forall|i: int| 0 < i < t.len() && parent(i) != child implies le(t[parent(i)], #[trigger] t[i]) by {
        if i == index {
            assert(le(s[parent(index)], s[child]));
        } else if i == child {
        } else if parent(i) == index {
            assert(le(s[child], s[i]));
        } else if parent(i) == child {
        } else {
        }
    }
    assert forall|c: int|
        0 < c < t.len() && child > 0 && parent(c) == child implies le(t[parent(child)], #[trigger] t[c]) by {
        assert(le(s[child], s[c]));
    }
}

/// Sorts `v` in ascending order by passing every element through a priority queue.
pub fn heap_sort<T: Ord>(v: &mut Vec<T>)
    requires
        obeys_cmp::<T>(),
    ensures
        permutes(final(v)@, old(v)@),
        ordered(final(v)@),
{
    broadcast use vstd::multiset::group_multiset_axioms;

    let mut pq = PriorityQueue::<T>::new();
    proof {
        pq@.to_multiset_ensures();
        assert(pq@.to_multiset() =~= vstd::multiset::Multiset::empty());
    }
    loop
        invariant
            obeys_cmp::<T>(),
            is_min_heap(pq@),
            pq@.to_multiset().add(v@.to_multiset()) == old(v)@.to_multiset(),
        ensures
            is_min_heap(pq@),
            pq@.to_multiset() == old(v)@.to_multiset(),
            v@.len() == 0,
        decreases v@.len(),
    {
        let ghost before = v@;
        match v.pop() {
            Some(val) => {
                proof {
                    before.to_multiset_ensures();
                    assert(before =~= v@.push(val));
                    v@.to_multiset_ensures();
                }
                pq.push(val);
            },
            None => {
                proof {
                    v@.to_multiset_ensures();
                    assert(v@.to_multiset() =~= vstd::multiset::Multiset::empty());
                }
                break;
            },
        }
    }
    proof {
        v@.to_multiset_ensures();
        assert(v@ =~= Seq::<T>::empty());
        assert(pq@.to_multiset().add(v@.to_multiset()) =~= pq@.to_multiset());
    }
    loop
        invariant
            obeys_cmp::<T>(),
            is_min_heap(pq@),
            ordered(v@),
            forall|a: int, b: int| 0 <= a < v@.len() && 0 <= b < pq@.len() ==> le(v@[a], pq@[b]),
            pq@.to_multiset().add(v@.to_multiset()) == old(v)@.to_multiset(),
        ensures
            ordered(v@),
            v@.to_multiset() == old(v)@.to_multiset(),
        decreases pq@.len(),
    {
        let ghost before = pq@;
        match pq.pop() {
            Some(val) => {
                proof {
                    before.to_multiset_ensures();
                    v@.to_multiset_ensures();
                    assert forall|a: int| 0 <= a < v@.len() implies le(v@[a], val) by {
                        assert(before[0] == val);
                    }
                }
                v.push(val);
                proof {
                    assert forall|a: int, b: int| 0 <= a < v@.len() && 0 <= b < pq@.len() implies le(
                        v@[a],
                        pq@[b],
                    ) by {
                        if a < v@.len() - 1 {
                            pq@.to_multiset_ensures();
                            assert(pq@.contains(pq@[b]));
                            assert(pq@.to_multiset().count(pq@[b]) > 0);
                            assert(before.to_multiset().count(pq@[b]) > 0);
                            let t = choose|t: int| 0 <= t < before.len() && before[t] == pq@[b];
                        }
                    }
                }
            },
            None => {
                proof {
                    pq@.to_multiset_ensures();
                    assert(pq@.to_multiset() =~= vstd::multiset::Multiset::empty());
                    assert(v@.to_multiset() =~= old(v)@.to_multiset());
                }
                break;
            },
        }
    }
}

} // verus!
