use vstd::prelude::*;

verus! {

/// A singly linked list: either empty, or a first element and the rest of the list.
#[derive(Debug)]
pub struct LinkedList<T>(pub Option<(T, Box<LinkedList<T>>)>);

impl<T> LinkedList<T> {
    /// The elements from first to last.
    pub closed spec fn elems(&self) -> Seq<T>
        decreases self,
    {
        match self.0 {
            Some((v, next)) => seq![v] + next.elems(),
            None => Seq::empty(),
        }
    }
}

impl<T> View for LinkedList<T> {
    type V = Seq<T>;

    open spec fn view(&self) -> Seq<T> {
        self.elems()
    }
}

impl<T> LinkedList<T> {
    /// An empty list.
    pub fn new() -> (r: Self)
        ensures
            r@ == Seq::<T>::empty(),
    {
        LinkedList(None)
    }

    /// Whether the list holds no element.
    pub fn is_empty(&self) -> (r: bool)
        ensures
            r == (self@.len() == 0),
    {
        self.0.is_none()
    }

    /// Adds `data` at the head of the list.
    pub fn push_front(&mut self, data: T)
        ensures
            final(self)@ == seq![data] + old(self)@,
    {
        let t = self.0.take();
        self.0 = Some((data, Box::new(LinkedList(t))));
    }

    /// The first element, if there is one.
    pub fn peak(&self) -> (r: Option<&T>)
        ensures
            self@.len() == 0 ==> r.is_none(),
            self@.len() > 0 ==> r.is_some() && *r.unwrap() == self@[0],
    {
        match &self.0 {
            Some((value, _)) => Some(value),
            None => None,
        }
    }

    /// Removes the first element and returns it; `None` when the list is empty.
    pub fn pop_front(&mut self) -> (r: Option<T>)
        ensures
            old(self)@.len() == 0 ==> r.is_none() && final(self)@ == old(self)@,
            old(self)@.len() > 0 ==> r == Some(old(self)@[0]) && final(self)@ == old(self)@.drop_first(),
    {
        match self.0.take() {
            Some((data, child)) => {
                self.0 = child.0;
                proof {
                    assert(old(self)@.drop_first() =~= self@);
                }
                Some(data)
            },
            None => None,
        }
    }

    /// Adds `data` at the end of the list, walking the list to get there.
    pub fn push_back(&mut self, data: T)
        ensures
            final(self)@ == old(self)@.push(data),
        decreases old(self)@.len(),
    {
        match &mut self.0 {
            Some((_, child)) => {
                child.push_back(data);
            },
            None => {
                self.push_front(data);
            },
        }
        proof {
            assert(self@ =~= old(self)@.push(data));
        }
    }

    /// Inserts `data` so that it ends up at position `index`; the index must be at
    /// most the length.
    pub fn insert(&mut self, data: T, index: usize)
        requires
            index <= old(self)@.len(),
        ensures
            final(self)@ == old(self)@.insert(index as int, data),
        decreases index,
    {
        if index == 0 {
            self.push_front(data);
            proof {
                assert(self@ =~= old(self)@.insert(0, data));
            }
            return;
        }
        if index == 1 {
            self.insert_next(data);
            proof {
                assert(self@ =~= old(self)@.insert(1, data));
            }
            return;
        }
        match &mut self.0 {
            Some((_, child)) => {
                child.insert(data, index - 1);
            },
            None => {},
        }
        proof {
            assert(self@ =~= old(self)@.insert(index as int, data));
        }
    }

    /// Inserts `data` right after the first element of a non-empty list.
    fn insert_next(&mut self, data: T)
        requires
            old(self)@.len() > 0,
        ensures
            final(self)@ == old(self)@.insert(1, data),
    {
        match self.0.take() {
            Some((self_value, child)) => {
                let ghost rest = child.elems();
                let ghost first = self_value;
                let ghost d = data;
                let inner = LinkedList(Some((data, child)));
                assert(inner.elems() == seq![d] + rest);
                self.0 = Some((self_value, Box::new(inner)));
                proof {
                    assert(old(self)@ == seq![first] + rest);
                    assert(self@ == seq![first] + (seq![d] + rest));
                    assert(self@ =~= old(self)@.insert(1, data));
                }
            },
            None => {},
        }
    }
}

impl<T> Default for LinkedList<T> {
    fn default() -> (r: Self)
        ensures
            r@ == Seq::<T>::empty(),
    {
        Self::new()
    }
}

} // verus!
