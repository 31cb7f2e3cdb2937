use crate::sorting_algorithms::order::{lemma_total_order, le, ordered};
use vstd::laws_cmp::obeys_cmp;
use vstd::arithmetic::power2::{lemma_pow2_strictly_increases, lemma_pow2_unfold, pow2};
use std::collections::VecDeque;
use vstd::multiset::Multiset;
use core::cmp::Ordering;
use vstd::prelude::*;
use vstd::std_specs::cmp::PartialOrdSpec;

verus! {

/// A binary search tree that rebalances itself by rotations as elements are added.
pub struct BinaryTree<T>(pub Option<Box<TreeNode<T>>>);

/// A node of a binary tree: its element, its recorded height and its two subtrees.
pub struct TreeNode<T> {
    pub data: T,
    pub height: usize,
    pub left_node: BinaryTree<T>,
    pub right_node: BinaryTree<T>,
}

impl<T> BinaryTree<T> {
    /// The number of nodes.
    pub open spec fn size(&self) -> nat
        decreases self,
    {
        match self.0 {
            Some(n) => n.node_size(),
            None => 0,
        }
    }

    /// The number of nodes on the longest path from the root down.
    pub open spec fn depth_of(&self) -> nat
        decreases self,
    {
        match self.0 {
            Some(n) => n.node_depth(),
            None => 0,
        }
    }

    /// The elements, left subtree first, then the root, then the right subtree.
    pub open spec fn inorder(&self) -> Seq<T>
        decreases self,
    {
        match self.0 {
            Some(n) => n.node_inorder(),
            None => Seq::empty(),
        }
    }

    /// The elements, root first, then the left subtree, then the right subtree.
    pub open spec fn preorder(&self) -> Seq<T>
        decreases self,
    {
        match self.0 {
            Some(n) => n.node_preorder(),
            None => Seq::empty(),
        }
    }

    /// The elements, left subtree first, then the right subtree, then the root.
    pub open spec fn postorder(&self) -> Seq<T>
        decreases self,
    {
        match self.0 {
            Some(n) => n.node_postorder(),
            None => Seq::empty(),
        }
    }

    /// The height recorded at the root; zero for the empty tree.
    pub open spec fn recorded_height(&self) -> nat {
        match self.0 {
            Some(n) => n.height as nat,
            None => 0,
        }
    }

    /// Every recorded height is at most the number of nodes below and at its node.
    pub open spec fn wf(&self) -> bool
        decreases self,
    {
        match self.0 {
            Some(n) => n.node_wf(),
            None => true,
        }
    }
}

impl<T> TreeNode<T> {
    /// The left subtree.
    pub open spec fn left(&self) -> BinaryTree<T> {
        self.left_node
    }

    /// The right subtree.
    pub open spec fn right(&self) -> BinaryTree<T> {
        self.right_node
    }

    /// The element at this node.
    pub open spec fn value(&self) -> T {
        self.data
    }

    pub open spec fn node_size(&self) -> nat
        decreases self,
    {
        1 + self.left_node.size() + self.right_node.size()
    }

    pub open spec fn node_depth(&self) -> nat
        decreases self,
    {
        let l = self.left_node.depth_of();
        let r = self.right_node.depth_of();
        1 + if l >= r {
            l
        } else {
            r
        }
    }

    pub open spec fn node_inorder(&self) -> Seq<T>
        decreases self,
    {
        self.left_node.inorder() + seq![self.data] + self.right_node.inorder()
    }

    pub open spec fn node_preorder(&self) -> Seq<T>
        decreases self,
    {
        seq![self.data] + self.left_node.preorder() + self.right_node.preorder()
    }

    pub open spec fn node_postorder(&self) -> Seq<T>
        decreases self,
    {
        self.left_node.postorder() + self.right_node.postorder() + seq![self.data]
    }

    pub open spec fn node_wf(&self) -> bool
        decreases self,
    {
        &&& self.height <= self.node_size()
        &&& self.left_node.wf()
        &&& self.right_node.wf()
    }
}

/// The larger of two numbers.
pub open spec fn max_nat(a: nat, b: nat) -> nat {
    if a >= b {
        a
    } else {
        b
    }
}

/// The tree with one more than the larger recorded height of its subtrees recorded
/// at its root.
pub open spec fn with_height<T>(t: BinaryTree<T>) -> BinaryTree<T> {
    match t.0 {
        Some(n) => BinaryTree(
            Some(
                Box::new(
                    TreeNode {
                        data: n.data,
                        height: (1 + max_nat(n.left_node.recorded_height(), n.right_node.recorded_height())) as usize,
                        left_node: n.left_node,
                        right_node: n.right_node,
                    },
                ),
            ),
        ),
        None => t,
    }
}

/// The subtree `n` after a left rotation: its right child becomes the root with `n`
/// as its left child, the right child's left subtree moving under `n`, and the
/// heights recorded as the rotation records them.
pub open spec fn rotated_left<T>(n: TreeNode<T>) -> TreeNode<T> {
    match n.right_node.0 {
        None => n,
        Some(c) => {
            let lower = TreeNode {
                data: n.data,
                height: n.height,
                left_node: n.left_node,
                right_node: with_height(c.left_node),
            };
            TreeNode {
                data: c.data,
                height: (1 + c.right_node.recorded_height()) as usize,
                left_node: with_height(BinaryTree(Some(Box::new(lower)))),
                right_node: c.right_node,
            }
        },
    }
}

/// The subtree `n` after a right rotation: its left child becomes the root with `n`
/// as its right child, the left child's right subtree moving under `n`, and the
/// heights recorded as the rotation records them.
pub open spec fn rotated_right<T>(n: TreeNode<T>) -> TreeNode<T> {
    match n.left_node.0 {
        None => n,
        Some(c) => {
            let lower = TreeNode {
                data: n.data,
                height: n.height,
                left_node: with_height(c.right_node),
                right_node: n.right_node,
            };
            TreeNode {
                data: c.data,
                height: (1 + with_height(BinaryTree(Some(Box::new(lower)))).recorded_height()) as usize,
                left_node: c.left_node,
                right_node: with_height(BinaryTree(Some(Box::new(lower)))),
            }
        },
    }
}

/// The tree `add_sort` makes of `t` and `x`: `x` goes down to the left of every
/// larger element and to the right of the others, and on the way back up each node
/// rotates right when its recorded left height exceeds the right one, left when the
/// right one exceeds the left by two or more, and otherwise records its height anew.
pub open spec fn add_sorted<T: Ord>(t: BinaryTree<T>, x: T) -> BinaryTree<T>
    decreases t,
{
    match t.0 {
        None => with_height(
            BinaryTree(
                Some(
                    Box::new(
                        TreeNode { data: x, height: 0, left_node: BinaryTree(None), right_node: BinaryTree(None) },
                    ),
                ),
            ),
        ),
        Some(n) => {
            let m = if x.partial_cmp_spec(&n.data) == Some(Ordering::Less) {
                TreeNode {
                    data: n.data,
                    height: n.height,
                    left_node: add_sorted(n.left_node, x),
                    right_node: n.right_node,
                }
            } else {
                TreeNode {
                    data: n.data,
                    height: n.height,
                    left_node: n.left_node,
                    right_node: add_sorted(n.right_node, x),
                }
            };
            let bf = m.left_node.recorded_height() - m.right_node.recorded_height();
            if bf >= 1 {
                BinaryTree(Some(Box::new(rotated_right(m))))
            } else if bf < -1 {
                BinaryTree(Some(Box::new(rotated_left(m))))
            } else {
                with_height(BinaryTree(Some(Box::new(m))))
            }
        },
    }
}

/// Every tree has at least as many nodes as levels.
proof fn lemma_depth_le_size<T>(t: &BinaryTree<T>)
    ensures
        t.depth_of() <= t.size(),
    decreases t,
{
    match &t.0 {
        Some(n) => {
            lemma_depth_le_size(&n.left_node);
            lemma_depth_le_size(&n.right_node);
        },
        None => {},
    }
}

/// A well-formed tree records at its root at most its number of nodes.
proof fn lemma_recorded_le_size<T>(t: &BinaryTree<T>)
    requires
        t.wf(),
    ensures
        t.recorded_height() <= t.size(),
{
    match &t.0 {
        Some(n) => {
            assert(n.node_wf());
        },
        None => {},
    }
}

fn max_usize(a: usize, b: usize) -> (r: usize)
    ensures
        r == if a >= b {
            a
        } else {
            b
        },
{
    if a >= b {
        a
    } else {
        b
    }
}

impl<T> TreeNode<T> {
    /// The left subtree's recorded height minus the right subtree's.
    pub fn balancing_factor(&self) -> (r: isize)
        requires
            self.node_wf(),
            self.node_size() <= isize::MAX,
        ensures
            r == self.left().recorded_height() - self.right().recorded_height(),
    {
        let left_height = self.left_node.height();
        let right_height = self.right_node.height();
        proof {
            lemma_recorded_le_size(&self.left_node);
            lemma_recorded_le_size(&self.right_node);
        }
        if left_height < right_height {
            -((right_height - left_height) as isize)
        } else if left_height == right_height {
            0
        } else {
            (left_height - right_height) as isize
        }
    }

    /// Makes the right child the root of this subtree, with this node as its left
    /// child; a node without a right child stays as it is.
    pub fn rotate_left(self) -> (r: Box<Self>)
        requires
            self.node_wf(),
            self.node_size() <= usize::MAX,
        ensures
            r.node_wf(),
            r.node_size() == self.node_size(),
            r.node_inorder() == self.node_inorder(),
            *r == rotated_left(self),
            self.right().0 is None ==> *r == self,
            self.right().0 is Some ==> r.value() == self.right().0->Some_0.value() && r.right()
                == self.right().0->Some_0.right() && r.left().0 is Some && r.left().0->Some_0.value()
                == self.value() && r.left().0->Some_0.left() == self.left() && r.left().0->Some_0.right().inorder()
                == self.right().0->Some_0.left().inorder(),
    {
        let mut this = self;
        assert(self.right_node.wf());
        let mut res = match this.right_node.0.take() {
            None => return Box::new(this),
            Some(res) => res,
        };
        let ghost near = self.left_node.inorder();
        let ghost top = self.data;
        let ghost inner = res.left_node.inorder();
        assert(self.right_node.inorder() == res.node_inorder());
        assert(res.node_wf());
        assert(res.left_node.size() + res.right_node.size() < self.node_size());
        this.right_node = BinaryTree(res.left_node.0.take());
        assert(this.right_node.0 is Some ==> this.right_node.0->Some_0.node_wf());
        this.right_node.set_height();
        res.left_node = BinaryTree(Some(Box::new(this)));
        res.left_node.set_height();
        proof {
            lemma_recorded_le_size(&res.right_node);
        }
        res.height = 1 + max_usize(res.right_node.height(), res.right_node.height());
        proof {
            assert(res.left_node.inorder() == near + seq![top] + inner);
            assert(res.node_inorder() =~= self.node_inorder());
        }
        res
    }

    /// Makes the left child the root of this subtree, with this node as its right
    /// child; a node without a left child stays as it is.
    pub fn rotate_right(self) -> (r: Box<Self>)
        requires
            self.node_wf(),
            self.node_size() <= usize::MAX,
        ensures
            r.node_wf(),
            r.node_size() == self.node_size(),
            r.node_inorder() == self.node_inorder(),
            *r == rotated_right(self),
            self.left().0 is None ==> *r == self,
            self.left().0 is Some ==> r.value() == self.left().0->Some_0.value() && r.left()
                == self.left().0->Some_0.left() && r.right().0 is Some && r.right().0->Some_0.value()
                == self.value() && r.right().0->Some_0.right() == self.right() && r.right().0->Some_0.left().inorder()
                == self.left().0->Some_0.right().inorder(),
    {
        let mut this = self;
        assert(self.left_node.wf());
        let mut res = match this.left_node.0.take() {
            None => return Box::new(this),
            Some(res) => res,
        };
        let ghost near = self.right_node.inorder();
        let ghost top = self.data;
        let ghost inner = res.right_node.inorder();
        assert(self.left_node.inorder() == res.node_inorder());
        assert(res.node_wf());
        assert(res.left_node.size() + res.right_node.size() < self.node_size());
        this.left_node = BinaryTree(res.right_node.0.take());
        assert(this.left_node.0 is Some ==> this.left_node.0->Some_0.node_wf());
        this.left_node.set_height();
        res.right_node = BinaryTree(Some(Box::new(this)));
        res.right_node.set_height();
        proof {
            lemma_recorded_le_size(&res.right_node);
        }
        res.height = 1 + max_usize(res.right_node.height(), res.right_node.height());
        proof {
            assert(res.right_node.inorder() == inner + seq![top] + near);
            assert(res.node_inorder() =~= self.node_inorder());
        }
        res
    }
}

impl<T> BinaryTree<T> {
    /// An empty tree.
    pub fn new() -> (r: Self)
        ensures
            r.size() == 0,
            r.inorder() == Seq::<T>::empty(),
            r.wf(),
    {
        BinaryTree(None)
    }

    /// Whether the tree has no node.
    pub fn is_empty(&self) -> (r: bool)
        ensures
            r == (self.size() == 0),
    {
        self.0.is_none()
    }

    /// Rotates the root one node to the left.
    pub fn rotate_left(&mut self)
        requires
            old(self).wf(),
            old(self).size() <= usize::MAX,
        ensures
            final(self).wf(),
            final(self).size() == old(self).size(),
            final(self).inorder() == old(self).inorder(),
            old(self).0 is None ==> *final(self) == *old(self),
            old(self).0 is Some ==> *final(self) == BinaryTree(Some(Box::new(rotated_left(*old(self).0->Some_0)))),
    {
        match self.0.take() {
            Some(node) => {
                self.0 = Some((*node).rotate_left());
            },
            None => {},
        }
    }

    /// Rotates the root one node to the right.
    pub fn rotate_right(&mut self)
        requires
            old(self).wf(),
            old(self).size() <= usize::MAX,
        ensures
            final(self).wf(),
            final(self).size() == old(self).size(),
            final(self).inorder() == old(self).inorder(),
            old(self).0 is None ==> *final(self) == *old(self),
            old(self).0 is Some ==> *final(self) == BinaryTree(Some(Box::new(rotated_right(*old(self).0->Some_0)))),
    {
        match self.0.take() {
            Some(node) => {
                self.0 = Some((*node).rotate_right());
            },
            None => {},
        }
    }

    /// The number of levels, counted recursively.
    pub fn depth(&self) -> (r: usize)
        requires
            self.size() <= usize::MAX,
        ensures
            r == self.depth_of(),
        decreases self,
    {
        proof {
            lemma_depth_le_size(self);
        }
        match &self.0 {
            None => 0,
            Some(node) => 1 + max_usize(node.left_node.depth(), node.right_node.depth()),
        }
    }

    /// The height recorded at the root; zero for the empty tree.
    pub fn height(&self) -> (r: usize)
        ensures
            r == self.recorded_height(),
    {
        match &self.0 {
            None => 0,
            Some(node) => node.height,
        }
    }

    /// Records at the root one more than the larger recorded height of its subtrees.
    fn set_height(&mut self)
        requires
            old(self).0 is Some ==> old(self).0->Some_0.left_node.wf() && old(self).0->Some_0.right_node.wf(),
            old(self).size() <= usize::MAX,
        ensures
            final(self).wf(),
            final(self).size() == old(self).size(),
            final(self).inorder() == old(self).inorder(),
            final(self).0 is Some == old(self).0 is Some,
            final(self).0 is Some ==> final(self).0->Some_0.left_node == old(self).0->Some_0.left_node
                && final(self).0->Some_0.right_node == old(self).0->Some_0.right_node
                && final(self).0->Some_0.data == old(self).0->Some_0.data,
            *final(self) == with_height(*old(self)),
    {
        match &mut self.0 {
            Some(node) => {
                proof {
                    lemma_recorded_le_size(&node.left_node);
                    lemma_recorded_le_size(&node.right_node);
                }
                node.height = 1 + max_usize(node.left_node.height(), node.right_node.height());
            },
            None => {},
        }
    }
}

impl<T: Copy> BinaryTree<T> {
    /// Appends the elements to `v` root first, then the left subtree, then the right.
    pub fn preorder_traversal(&self, v: &mut Vec<T>)
        ensures
            final(v)@ == old(v)@ + self.preorder(),
        decreases self,
    {
        if let Some(node) = &self.0 {
            v.push(node.data);
            node.left_node.preorder_traversal(v);
            node.right_node.preorder_traversal(v);
        }
        proof {
            assert(v@ =~= old(v)@ + self.preorder());
        }
    }

    /// Appends the elements to `v` left subtree first, then the root, then the right.
    pub fn inorder_traversal(&self, v: &mut Vec<T>)
        ensures
            final(v)@ == old(v)@ + self.inorder(),
        decreases self,
    {
        if let Some(node) = &self.0 {
            node.left_node.inorder_traversal(v);
            v.push(node.data);
            node.right_node.inorder_traversal(v);
        }
        proof {
            assert(v@ =~= old(v)@ + self.inorder());
        }
    }

    /// Appends the elements to `v` left subtree first, then the right, then the root.
    pub fn postorder_traversal(&self, v: &mut Vec<T>)
        ensures
            final(v)@ == old(v)@ + self.postorder(),
        decreases self,
    {
        if let Some(node) = &self.0 {
            node.left_node.postorder_traversal(v);
            node.right_node.postorder_traversal(v);
            v.push(node.data);
        }
        proof {
            assert(v@ =~= old(v)@ + self.postorder());
        }
    }
}

/// The parts around an element of an ordered sequence are ordered and lie on its
/// two sides.
proof fn lemma_split_sorted<T: Ord>(a: Seq<T>, v: T, b: Seq<T>)
    requires
        ordered(a + seq![v] + b),
    ensures
        ordered(a),
        ordered(b),
        forall|i: int| 0 <= i < a.len() ==> le(a[i], v),
        forall|j: int| 0 <= j < b.len() ==> le(v, b[j]),
{
    let s = a + seq![v] + b;
    assert forall|i: int, j: int| 0 <= i < j < a.len() implies le(a[i], a[j]) by {
        assert(s[i] == a[i] && s[j] == a[j]);
    }
    assert forall|i: int, j: int| 0 <= i < j < b.len() implies le(b[i], b[j]) by {
        assert(s[a.len() + 1 + i] == b[i] && s[a.len() + 1 + j] == b[j]);
    }
    assert forall|i: int| 0 <= i < a.len() implies le(a[i], v) by {
        assert(s[i] == a[i] && s[a.len() as int] == v);
    }
    assert forall|j: int| 0 <= j < b.len() implies le(v, b[j]) by {
        assert(s[a.len() + 1 + j] == b[j] && s[a.len() as int] == v);
    }
}

/// Ordered parts on the two sides of an element make an ordered sequence.
proof fn lemma_join_sorted<T: Ord>(a: Seq<T>, v: T, b: Seq<T>)
    requires
        obeys_cmp::<T>(),
        ordered(a),
        ordered(b),
        forall|i: int| 0 <= i < a.len() ==> le(a[i], v),
        forall|j: int| 0 <= j < b.len() ==> le(v, b[j]),
    ensures
        ordered(a + seq![v] + b),
{
    lemma_total_order::<T>();
    let s = a + seq![v] + b;
    assert forall|i: int, j: int| 0 <= i < j < s.len() implies le(s[i], s[j]) by {
        if j < a.len() {
        } else if i < a.len() {
            if j > a.len() {
                assert(le(a[i], v) && le(v, b[j - a.len() - 1]));
            }
        } else if i > a.len() {
            assert(s[i] == b[i - a.len() - 1] && s[j] == b[j - a.len() - 1]);
        }
    }
}

/// Every element of a sequence whose multiset is that of `s` with `x` added is
/// `x` or an element of `s`.
proof fn lemma_inserted_elements<T>(s: Seq<T>, t: Seq<T>, x: T)
    requires
        t.to_multiset() == s.to_multiset().insert(x),
    ensures
        forall|k: int| 0 <= k < t.len() ==> t[k] == x || s.contains(#[trigger] t[k]),
{
    broadcast use vstd::multiset::group_multiset_axioms;

    s.to_multiset_ensures();
    t.to_multiset_ensures();
    assert forall|k: int| 0 <= k < t.len() implies t[k] == x || s.contains(#[trigger] t[k]) by {
        assert(t.contains(t[k]));
        assert(t.to_multiset().count(t[k]) > 0);
        if t[k] != x {
            assert(s.to_multiset().insert(x).count(t[k]) == s.to_multiset().count(t[k]));
            assert(s.to_multiset().count(t[k]) > 0);
        }
    }
}

/// Adding `x` to the middle part adds it to the whole.
proof fn lemma_concat_insert<T>(a: Seq<T>, a2: Seq<T>, v: T, b: Seq<T>, x: T)
    requires
        a2.to_multiset() == a.to_multiset().insert(x),
    ensures
        (a2 + seq![v] + b).to_multiset() == (a + seq![v] + b).to_multiset().insert(x),
{
    broadcast use vstd::multiset::group_multiset_axioms;

    vstd::seq_lib::lemma_multiset_commutative(a2, seq![v]);
    vstd::seq_lib::lemma_multiset_commutative(a2 + seq![v], b);
    vstd::seq_lib::lemma_multiset_commutative(a, seq![v]);
    vstd::seq_lib::lemma_multiset_commutative(a + seq![v], b);
    assert((a2 + seq![v] + b).to_multiset() =~= (a + seq![v] + b).to_multiset().insert(x));
}

impl<T: Ord> BinaryTree<T> {
    /// Adds `data` below the root: to the left when smaller than the root's element,
    /// to the right otherwise; then rotates the root toward the lower side when the
    /// recorded heights of its subtrees differ by two or more on the right, or by one
    /// or more on the left, and otherwise refreshes the root's recorded height.
    pub fn add_sort(&mut self, data: T)
        requires
            obeys_cmp::<T>(),
            old(self).wf(),
            old(self).size() < isize::MAX,
            ordered(old(self).inorder()),
        ensures
            final(self).wf(),
            final(self).size() == old(self).size() + 1,
            ordered(final(self).inorder()),
            final(self).inorder().to_multiset() == old(self).inorder().to_multiset().insert(data),
            *final(self) == add_sorted(*old(self), data),
        decreases old(self).size(),
    {
        proof {
            lemma_total_order::<T>();
        }
        let ghost d = data;
        let balancing_factor: isize = match &mut self.0 {
            Some(bd) => {
                let ghost l0 = bd.left_node.inorder();
                let ghost r0 = bd.right_node.inorder();
                let ghost v0 = bd.data;
                proof {
                    assert(bd.node_wf());
                    lemma_split_sorted(l0, v0, r0);
                }
                if data < bd.data {
                    bd.left_node.add_sort(data);
                    proof {
                        let l1 = bd.left_node.inorder();
                        lemma_inserted_elements(l0, l1, d);
                        assert(le(d, v0));
                        assert forall|i: int| 0 <= i < l1.len() implies le(l1[i], v0) by {
                            if l1[i] != d {
                                let k = choose|k: int| 0 <= k < l0.len() && l0[k] == l1[i];
                            }
                        }
                        lemma_join_sorted(l1, v0, r0);
                        lemma_concat_insert(l0, l1, v0, r0, d);
                        assert(bd.node_inorder() == l1 + seq![v0] + r0);
                    }
                    bd.balancing_factor()
                } else {
                    bd.right_node.add_sort(data);
                    proof {
                        let r1 = bd.right_node.inorder();
                        lemma_inserted_elements(r0, r1, d);
                        assert(le(v0, d));
                        assert forall|j: int| 0 <= j < r1.len() implies le(v0, r1[j]) by {
                            if r1[j] != d {
                                let k = choose|k: int| 0 <= k < r0.len() && r0[k] == r1[j];
                            }
                        }
                        lemma_join_sorted(l0, v0, r1);
                        vstd::seq_lib::lemma_multiset_commutative(l0 + seq![v0], r0);
                        vstd::seq_lib::lemma_multiset_commutative(l0 + seq![v0], r1);
                        assert(bd.node_inorder() == l0 + seq![v0] + r1);
                        assert(bd.node_inorder().to_multiset() =~= (l0 + seq![v0] + r0).to_multiset().insert(
                            d,
                        )) by {
                            broadcast use vstd::multiset::group_multiset_axioms;
                        }
                    }
                    bd.balancing_factor()
                }
            },
            None => {
                self.0 = Some(
                    Box::new(
                        TreeNode {
                            data,
                            height: 0,
                            left_node: BinaryTree::new(),
                            right_node: BinaryTree::new(),
                        },
                    ),
                );
                proof {
                    let s = self.inorder();
                    assert(s =~= seq![d]);
                    assert(old(self).inorder() =~= Seq::<T>::empty());
                    s.to_multiset_ensures();
                    Seq::<T>::empty().to_multiset_ensures();
                    assert(s =~= Seq::<T>::empty().push(d));
                }
                0
            },
        };
        if balancing_factor >= 1 {
            self.rotate_right();
        } else if balancing_factor < -1 {
            self.rotate_left();
        } else {
            self.set_height();
        }
    }
}

/// The position of the parent of position `i > 0` in the array layout of a tree.
pub open spec fn parent_pos(i: nat) -> nat {
    ((i - 1) as nat) / 2
}

/// Whether position `i` lies in the subtree at position `g`: it is `g` or below it.
pub open spec fn descends(i: nat, g: nat) -> bool
    decreases i,
{
    i == g || (i > g && descends(parent_pos(i), g))
}

/// The number of steps from position `i` up to the root.
pub open spec fn level(i: nat) -> nat
    decreases i,
{
    if i == 0 {
        0
    } else {
        level(parent_pos(i)) + 1
    }
}

impl<T> BinaryTree<T> {
    /// The subtree at position `i` of the array layout: the root at 0 and the
    /// children of position `p` at `2p + 1` (left) and `2p + 2` (right).
    pub open spec fn subtree_at(&self, i: nat) -> BinaryTree<T>
        decreases i,
    {
        if i == 0 {
            *self
        } else {
            match self.subtree_at(parent_pos(i)).0 {
                Some(n) => if i % 2 == 1 {
                    n.left_node
                } else {
                    n.right_node
                },
                None => BinaryTree(None),
            }
        }
    }

    /// The element at position `i` of the array layout, if a node sits there.
    pub open spec fn slot(&self, i: nat) -> Option<T> {
        match self.subtree_at(i).0 {
            Some(n) => Some(n.data),
            None => None,
        }
    }
}

/// A position is below the root by its level, and the tree is at least that deep
/// plus the depth of what sits there.
proof fn lemma_level_depth<T>(t: BinaryTree<T>, i: nat)
    ensures
        t.subtree_at(i).0 is Some ==> t.depth_of() >= level(i) + t.subtree_at(i).depth_of(),
        i + 1 < pow2(level(i) + 1),
    decreases i,
{
    vstd::arithmetic::power2::lemma2_to64();
    if i > 0 {
        let p = parent_pos(i);
        lemma_level_depth(t, p);
        lemma_pow2_unfold(level(i) + 1);
        assert(level(i) == level(p) + 1);
        assert(i <= 2 * p + 2);
        assert(pow2(level(i) + 1) == 2 * pow2(level(p) + 1));
        if t.subtree_at(i).0 is Some {
            let n = t.subtree_at(p).0->Some_0;
            assert(n.node_depth() >= 1 + t.subtree_at(i).depth_of());
        }
    }
}

/// A node sits at a position below the size of the layout of the whole tree.
proof fn lemma_position_bound<T>(t: BinaryTree<T>, i: nat)
    requires
        t.subtree_at(i).0 is Some,
    ensures
        i + 1 < pow2(t.depth_of()),
{
    lemma_level_depth(t, i);
    assert(t.subtree_at(i).depth_of() >= 1);
    if level(i) + 1 < t.depth_of() {
        lemma_pow2_strictly_increases(level(i) + 1, t.depth_of());
    }
}

/// Below an empty position every position is empty.
proof fn lemma_empty_below<T>(t: BinaryTree<T>, i: nat, g: nat)
    requires
        t.subtree_at(g).0 is None,
        descends(i, g),
    ensures
        t.subtree_at(i).0 is None,
    decreases i,
{
    if i != g {
        lemma_empty_below(t, parent_pos(i), g);
    }
}

/// A position strictly below `g` is below one of its two children.
proof fn lemma_descends_child(i: nat, g: nat)
    requires
        i > g,
    ensures
        descends(i, g) <==> descends(i, 2 * g + 1) || descends(i, 2 * g + 2),
    decreases i,
{
    assert(parent_pos(2 * g + 1) == g);
    assert(parent_pos(2 * g + 2) == g);
    if descends(i, 2 * g + 1) {
        lemma_descends_parent(i, 2 * g + 1);
    }
    if descends(i, 2 * g + 2) {
        lemma_descends_parent(i, 2 * g + 2);
    }
    if descends(i, g) {
        let p = parent_pos(i);
        assert(descends(p, g));
        if p == g {
            assert(i == 2 * g + 1 || i == 2 * g + 2);
        } else {
            lemma_descends_ge(p, g);
            lemma_descends_child(p, g);
            if descends(p, 2 * g + 1) {
                lemma_descends_ge(p, 2 * g + 1);
                assert(descends(i, 2 * g + 1));
            } else {
                lemma_descends_ge(p, 2 * g + 2);
                assert(descends(i, 2 * g + 2));
            }
        }
    }
}

/// A position below `c > 0` is below the parent of `c`, or is it, and it is never
/// above `c`.
proof fn lemma_descends_parent(i: nat, c: nat)
    requires
        descends(i, c),
        c > 0,
    ensures
        i >= c,
        descends(i, parent_pos(c)),
    decreases i,
{
    if i != c {
        lemma_descends_parent(parent_pos(i), c);
    } else {
        assert(descends(parent_pos(c), parent_pos(c)));
    }
}

/// A position below `g` is not above it.
proof fn lemma_descends_ge(i: nat, g: nat)
    requires
        descends(i, g),
    ensures
        i >= g,
{
}

impl<T: Copy> BinaryTree<T> {
    /// The array layout of the tree: position 0 holds the root, and the children of
    /// position `p` sit at `2p + 1` and `2p + 2`; a position without a node holds
    /// `None`.
    pub fn to_vec(&self) -> (r: Vec<Option<T>>)
        requires
            self.size() <= usize::MAX,
            pow2(self.depth_of()) <= usize::MAX,
        ensures
            r@.len() + 1 == pow2(self.depth_of()),
            forall|i: int| 0 <= i < r@.len() ==> r@[i] == self.slot(i as nat),
    {
        let depth = self.depth();
        proof {
            vstd::arithmetic::power2::lemma2_to64();
        }
        let mut len: usize = 1;
        let mut k: usize = 0;
        while k < depth
            invariant
                k <= depth,
                depth == self.depth_of(),
                len == pow2(k as nat),
                pow2(depth as nat) <= usize::MAX,
            decreases depth - k,
        {
            proof {
                lemma_pow2_unfold((k + 1) as nat);
                if k + 1 < depth {
                    lemma_pow2_strictly_increases((k + 1) as nat, depth as nat);
                }
            }
            len = len * 2;
            k = k + 1;
        }
        proof {
            vstd::arithmetic::power2::lemma_pow2_pos(depth as nat);
        }
        let mut arr: Vec<Option<T>> = Vec::new();
        while arr.len() < len - 1
            invariant
                len == pow2(depth as nat),
                len >= 1,
                arr@.len() <= len - 1,
                forall|i: int| 0 <= i < arr@.len() ==> arr@[i] is None,
            decreases len - 1 - arr@.len(),
        {
            arr.push(None);
        }
        if self.0.is_some() {
            self.fill(&mut arr, 0, 0, Ghost(*self));
        }
        proof {
            assert forall|i: int| 0 <= i < arr@.len() implies arr@[i] == self.slot(i as nat) by {
                if !descends(i as nat, 0) || self.subtree_at(i as nat).0 is None {
                    if self.0 is None {
                        lemma_empty_below(*self, i as nat, 0);
                    }
                    if !descends(i as nat, 0) {
                        lemma_descends_zero(i as nat);
                    }
                }
            }
        }
        arr
    }

    /// Writes this subtree, which sits at position `2n + b` of `whole`, into `arr`.
    fn fill(&self, arr: &mut Vec<Option<T>>, n: usize, b: usize, whole: Ghost<BinaryTree<T>>)
        requires
            (n == 0 && b == 0) || b == 1 || b == 2,
            whole@.subtree_at((2 * n + b) as nat) == *self,
            self.0 is Some,
            old(arr)@.len() + 1 == pow2(whole@.depth_of()),
        ensures
            final(arr)@.len() == old(arr)@.len(),
            forall|i: int|
                0 <= i < old(arr)@.len() ==> #[trigger] final(arr)@[i] == if descends(i as nat, (2 * n + b) as nat)
                    && whole@.subtree_at(i as nat).0 is Some {
                    whole@.slot(i as nat)
                } else {
                    old(arr)@[i]
                },
        decreases self,
    {
        let ghost g: nat = (2 * n + b) as nat;
        proof {
            lemma_position_bound(whole@, g);
        }
        match &self.0 {
            None => {},
            Some(node) => {
                let len = arr.len();
                assert(2 * n + b < len);
                let index = 2 * n + b;
                arr[index] = Some(node.data);
                proof {
                    assert(whole@.subtree_at(2 * g + 1) == node.left_node);
                    assert(whole@.subtree_at(2 * g + 2) == node.right_node);
                }
                if node.left_node.0.is_some() {
                    node.left_node.fill(arr, index, 1, whole);
                }
                if node.right_node.0.is_some() {
                    node.right_node.fill(arr, index, 2, whole);
                }
                proof {
                    assert forall|i: int| 0 <= i < old(arr)@.len() implies #[trigger] arr@[i] == if descends(
                        i as nat,
                        g,
                    ) && whole@.subtree_at(i as nat).0 is Some {
                        whole@.slot(i as nat)
                    } else {
                        old(arr)@[i]
                    } by {
                        let ii = i as nat;
                        if ii > g {
                            lemma_descends_child(ii, g);
                            if node.left_node.0 is None && descends(ii, 2 * g + 1) {
                                lemma_empty_below(whole@, ii, 2 * g + 1);
                            }
                            if node.right_node.0 is None && descends(ii, 2 * g + 2) {
                                lemma_empty_below(whole@, ii, 2 * g + 2);
                            }
                        } else if ii < g {
                            if descends(ii, 2 * g + 1) {
                                lemma_descends_parent(ii, 2 * g + 1);
                            }
                            if descends(ii, 2 * g + 2) {
                                lemma_descends_parent(ii, 2 * g + 2);
                            }
                        } else {
                            if descends(ii, 2 * g + 1) {
                                lemma_descends_parent(ii, 2 * g + 1);
                            }
                            if descends(ii, 2 * g + 2) {
                                lemma_descends_parent(ii, 2 * g + 2);
                            }
                        }
                    }
                }
            },
        }
    }
}

/// Every position lies below the root.
proof fn lemma_descends_zero(i: nat)
    ensures
        descends(i, 0),
    decreases i,
{
    if i > 0 {
        lemma_descends_zero(parent_pos(i));
    }
}

impl<T> TreeNode<T> {
    /// The nodes directly below this one, left first.
    pub open spec fn kids(&self) -> Seq<TreeNode<T>> {
        let l = match self.left_node.0 {
            Some(n) => seq![*n],
            None => Seq::empty(),
        };
        let r = match self.right_node.0 {
            Some(n) => seq![*n],
            None => Seq::empty(),
        };
        l + r
    }
}

/// The number of nodes in all the subtrees of a queue.
pub open spec fn total_size<T>(q: Seq<TreeNode<T>>) -> nat
    decreases q.len(),
{
    if q.len() == 0 {
        0
    } else {
        q[0].node_size() + total_size(q.drop_first())
    }
}

proof fn lemma_total_size_concat<T>(a: Seq<TreeNode<T>>, b: Seq<TreeNode<T>>)
    ensures
        total_size(a + b) == total_size(a) + total_size(b),
    decreases a.len(),
{
    if a.len() > 0 {
        assert((a + b).drop_first() =~= a.drop_first() + b);
        lemma_total_size_concat(a.drop_first(), b);
    } else {
        assert(a + b =~= b);
    }
}

proof fn lemma_kids_size<T>(n: TreeNode<T>)
    ensures
        total_size(n.kids()) + 1 == n.node_size(),
{
    let l = match n.left_node.0 {
        Some(x) => seq![*x],
        None => Seq::empty(),
    };
    let r = match n.right_node.0 {
        Some(x) => seq![*x],
        None => Seq::empty(),
    };
    lemma_total_size_concat(l, r);
    assert(total_size(Seq::<TreeNode<T>>::empty()) == 0);
    assert(total_size(l) == n.left_node.size()) by {
        if l.len() > 0 {
            assert(l.drop_first() =~= Seq::<TreeNode<T>>::empty());
            assert(n.left_node.size() == l[0].node_size());
        }
    }
    assert(total_size(r) == n.right_node.size()) by {
        if r.len() > 0 {
            assert(r.drop_first() =~= Seq::<TreeNode<T>>::empty());
            assert(n.right_node.size() == r[0].node_size());
        }
    }
}

/// The elements met when visiting a queue of subtrees breadth first: take the
/// first subtree's root, then queue its children, left first, behind the rest.
pub open spec fn level_order<T>(q: Seq<TreeNode<T>>) -> Seq<T>
    decreases total_size(q),
    via lemma_level_order_decreases::<T>
{
    if q.len() == 0 {
        Seq::empty()
    } else {
        seq![q[0].data] + level_order(q.drop_first() + q[0].kids())
    }
}

#[via_fn]
proof fn lemma_level_order_decreases<T>(q: Seq<TreeNode<T>>) {
    if q.len() > 0 {
        lemma_total_size_concat(q.drop_first(), q[0].kids());
        lemma_kids_size(q[0]);
    }
}

/// The nodes of a queue that is filled at the front and emptied at the back, in the
/// order they will leave it.
pub open spec fn pending<T>(q: Seq<&TreeNode<T>>) -> Seq<TreeNode<T>> {
    q.reverse().map_values(|r: &TreeNode<T>| *r)
}

impl<T> BinaryTree<T> {
    /// The elements level by level from the root down, each level left to right.
    pub open spec fn breadth_first(&self) -> Seq<T> {
        match self.0 {
            Some(n) => level_order(seq![*n]),
            None => Seq::empty(),
        }
    }
}

/// The elements of all the subtrees of a queue, counted with multiplicity.
pub open spec fn queue_elems<T>(q: Seq<TreeNode<T>>) -> Multiset<T>
    decreases q.len(),
{
    if q.len() == 0 {
        Multiset::empty()
    } else {
        q[0].node_inorder().to_multiset().add(queue_elems(q.drop_first()))
    }
}

proof fn lemma_queue_elems_concat<T>(a: Seq<TreeNode<T>>, b: Seq<TreeNode<T>>)
    ensures
        queue_elems(a + b) == queue_elems(a).add(queue_elems(b)),
    decreases a.len(),
{
    broadcast use vstd::multiset::group_multiset_axioms;

    if a.len() == 0 {
        assert(a + b =~= b);
        assert(queue_elems(a).add(queue_elems(b)) =~= queue_elems(b));
    } else {
        assert((a + b).drop_first() =~= a.drop_first() + b);
        lemma_queue_elems_concat(a.drop_first(), b);
        assert(queue_elems(a + b) =~= queue_elems(a).add(queue_elems(b)));
    }
}

proof fn lemma_kids_elems<T>(n: TreeNode<T>)
    ensures
        queue_elems(n.kids()) == n.left().inorder().to_multiset().add(n.right().inorder().to_multiset()),
{
    broadcast use vstd::multiset::group_multiset_axioms;

    let l = match n.left_node.0 {
        Some(x) => seq![*x],
        None => Seq::empty(),
    };
    let r = match n.right_node.0 {
        Some(x) => seq![*x],
        None => Seq::empty(),
    };
    lemma_queue_elems_concat(l, r);
    assert(queue_elems(Seq::<TreeNode<T>>::empty()) == Multiset::<T>::empty());
    Seq::<T>::empty().to_multiset_ensures();
    assert(Seq::<T>::empty().to_multiset() =~= Multiset::<T>::empty());
    assert(queue_elems(l) =~= n.left_node.inorder().to_multiset()) by {
        if l.len() > 0 {
            assert(l.drop_first() =~= Seq::<TreeNode<T>>::empty());
        }
    }
    assert(queue_elems(r) =~= n.right_node.inorder().to_multiset()) by {
        if r.len() > 0 {
            assert(r.drop_first() =~= Seq::<TreeNode<T>>::empty());
        }
    }
}

/// Visiting a queue breadth first meets every element of its subtrees exactly as
/// often as they hold it.
proof fn lemma_level_order_elems<T>(q: Seq<TreeNode<T>>)
    ensures
        level_order(q).to_multiset() == queue_elems(q),
    decreases total_size(q),
{
    broadcast use vstd::multiset::group_multiset_axioms;

    if q.len() == 0 {
        Seq::<T>::empty().to_multiset_ensures();
        assert(level_order(q).to_multiset() =~= queue_elems(q));
    } else {
        let n = q[0];
        let next = q.drop_first() + n.kids();
        lemma_total_size_concat(q.drop_first(), n.kids());
        lemma_kids_size(n);
        lemma_level_order_elems(next);
        lemma_queue_elems_concat(q.drop_first(), n.kids());
        lemma_kids_elems(n);
        vstd::seq_lib::lemma_multiset_commutative(seq![n.data], level_order(next));
        vstd::seq_lib::lemma_multiset_commutative(n.left_node.inorder(), seq![n.data]);
        vstd::seq_lib::lemma_multiset_commutative(
            n.left_node.inorder() + seq![n.data],
            n.right_node.inorder(),
        );
        seq![n.data].to_multiset_ensures();
        Seq::<T>::empty().to_multiset_ensures();
        assert(seq![n.data] =~= Seq::<T>::empty().push(n.data));
        assert(level_order(q).to_multiset() =~= queue_elems(q));
    }
}

/// Breadth first meets every element of the tree exactly as often as the tree holds
/// it: the same multiset as the in-order sequence.
pub proof fn lemma_breadth_first_elems<T>(t: BinaryTree<T>)
    ensures
        t.breadth_first().to_multiset() == t.inorder().to_multiset(),
{
    broadcast use vstd::multiset::group_multiset_axioms;

    match t.0 {
        Some(n) => {
            lemma_level_order_elems(seq![*n]);
            assert(seq![*n].drop_first() =~= Seq::<TreeNode<T>>::empty());
            assert(queue_elems(Seq::<TreeNode<T>>::empty()) == Multiset::<T>::empty());
            assert(seq![*n][0] == *n);
            assert(queue_elems(seq![*n]) == n.node_inorder().to_multiset().add(
                queue_elems(Seq::<TreeNode<T>>::empty()),
            ));
            assert(queue_elems(seq![*n]) =~= n.node_inorder().to_multiset());
        },
        None => {
            Seq::<T>::empty().to_multiset_ensures();
        },
    }
}

impl<T: Copy> BinaryTree<T> {
    /// The elements level by level from the root down, each level left to right.
    pub fn breadth_first_traversal(&self) -> (r: Vec<T>)
        ensures
            r@ == self.breadth_first(),
            r@.to_multiset() == self.inorder().to_multiset(),
    {
        proof {
            lemma_breadth_first_elems(*self);
        }
        let mut res: Vec<T> = Vec::new();
        let mut queue: VecDeque<&TreeNode<T>> = VecDeque::new();
        if let Some(root_node) = &self.0 {
            queue.push_front(root_node);
        }
        proof {
            if self.0 is Some {
                assert(pending(queue@) =~= seq![*self.0->Some_0]);
            } else {
                assert(pending(queue@) =~= Seq::<TreeNode<T>>::empty());
            }
        }
        loop
            invariant
                res@ + level_order(pending(queue@)) == self.breadth_first(),
            ensures
                res@ == self.breadth_first(),
            decreases total_size(pending(queue@)),
        {
            if queue.len() == 0 {
                proof {
                    assert(pending(queue@) =~= Seq::<TreeNode<T>>::empty());
                    assert(res@ + Seq::<T>::empty() =~= res@);
                }
                break;
            }
            let ghost before = pending(queue@);
            let node = queue.pop_back().unwrap();
            res.push(node.data);
            if let Some(left_node) = &node.left_node.0 {
                queue.push_front(left_node);
            }
            if let Some(right_node) = &node.right_node.0 {
                queue.push_front(right_node);
            }
            proof {
                assert(before[0] == *node);
                assert(pending(queue@) =~= before.drop_first() + node.kids());
                assert(res@ + level_order(pending(queue@)) =~= self.breadth_first());
                lemma_total_size_concat(before.drop_first(), node.kids());
                lemma_kids_size(*node);
            }
        }
        res
    }
}

impl<T> Default for BinaryTree<T> {
    fn default() -> (r: Self)
        ensures
            r.size() == 0,
            r.wf(),
    {
        Self::new()
    }
}

} // verus!
