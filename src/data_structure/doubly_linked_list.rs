use std::collections::VecDeque;
use vstd::prelude::*;

verus! {

/// A list with constant-time insertion and removal at both ends.
#[derive(Debug, Clone, PartialEq)]
pub struct DoublyLinkedList<T> {
    nodes: VecDeque<T>,
}

impl<T> View for DoublyLinkedList<T> {
    type V = Seq<T>;

    /// The elements from front to back.
    closed spec fn view(&self) -> Seq<T> {
        self.nodes@
    }
}

impl<T> DoublyLinkedList<T> {
    /// An empty list.
    pub fn new() -> (r: Self)
        ensures
            r@ == Seq::<T>::empty(),
    {
        DoublyLinkedList { nodes: VecDeque::new() }
    }

    /// Whether the list holds no element.
    pub fn is_empty(&self) -> (r: bool)
        ensures
            r == (self@.len() == 0),
    {
        self.nodes.len() == 0
    }

    /// Adds `data` at the front.
    pub fn push_front(&mut self, data: T)
        ensures
            final(self)@ == seq![data] + old(self)@,
    {
        self.nodes.push_front(data);
        proof {
            assert(self.nodes@ =~= seq![data] + old(self)@);
        }
    }

    /// Removes the front element, if there is one.
    pub fn pop_front(&mut self) -> (r: Option<T>)
        ensures
            old(self)@.len() == 0 ==> r.is_none() && final(self)@ == old(self)@,
            old(self)@.len() > 0 ==> r == Some(old(self)@[0]) && final(self)@ == old(self)@.drop_first(),
    {
        self.nodes.pop_front()
    }

    /// Adds `data` at the back.
    pub fn push_back(&mut self, data: T)
        ensures
            final(self)@ == old(self)@.push(data),
    {
        self.nodes.push_back(data);
    }

    /// Removes the back element, if there is one.
    pub fn pop_back(&mut self) -> (r: Option<T>)
        ensures
            old(self)@.len() == 0 ==> r.is_none() && final(self)@ == old(self)@,
            old(self)@.len() > 0 ==> r == Some(old(self)@.last()) && final(self)@ == old(self)@.drop_last(),
    {
        self.nodes.pop_back()
    }
}

impl<T> Default for DoublyLinkedList<T> {
    fn default() -> (r: Self)
        ensures
            r@ == Seq::<T>::empty(),
    {
        Self::new()
    }
}

} // verus!
