use super::doubly_linked_list::DoublyLinkedList;
use vstd::prelude::*;

verus! {

/// A first-in, first-out queue kept in a doubly linked list.
#[derive(Debug, Clone)]
pub struct Queue<T> {
    data: DoublyLinkedList<T>,
}

impl<T> View for Queue<T> {
    type V = Seq<T>;

    /// The elements from the oldest to the newest.
    closed spec fn view(&self) -> Seq<T> {
        self.data@
    }
}

impl<T> Queue<T> {
    /// An empty queue.
    pub fn new() -> (r: Self)
        ensures
            r@ == Seq::<T>::empty(),
    {
        Queue { data: DoublyLinkedList::new() }
    }

    /// Whether the queue holds no element.
    pub fn is_empty(&self) -> (r: bool)
        ensures
            r == (self@.len() == 0),
    {
        self.data.is_empty()
    }

    /// Adds `data` at the end of the queue.
    pub fn enqueue(&mut self, data: T)
        ensures
            final(self)@ == old(self)@.push(data),
    {
        self.data.push_back(data)
    }

    /// Removes and returns the oldest element, if there is one.
    pub fn dequeue(&mut self) -> (r: Option<T>)
        ensures
            old(self)@.len() == 0 ==> r.is_none() && final(self)@ == old(self)@,
            old(self)@.len() > 0 ==> r == Some(old(self)@[0]) && final(self)@ == old(self)@.drop_first(),
    {
        self.data.pop_front()
    }
}

impl<T> Default for Queue<T> {
    fn default() -> (r: Self)
        ensures
            r@ == Seq::<T>::empty(),
    {
        Self::new()
    }
}

} // verus!
