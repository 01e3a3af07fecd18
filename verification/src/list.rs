//! A verified singly-linked list with an iterator-style cursor.

use vstd::prelude::*;

verus! {

/// A singly-linked list: a chain of owned nodes ending in `Nil`.
#[derive(Debug)]
pub enum List<T> {
    Node { data: T, next: Box<List<T>> },
    Nil,
}

impl<T> List<T> {
    /// The sequence of elements, front first.
    pub open spec fn view(self) -> Seq<T>
        decreases self,
    {
        match self {
            List::Node { data, next } => seq![data] + next.view(),
            List::Nil => Seq::empty(),
        }
    }

    /// The empty list.
    pub fn new() -> (r: List<T>)
        ensures
            r.view() == Seq::<T>::empty(),
    {
        List::Nil
    }

    /// Consume the list and return it with `data` prepended.
    pub fn cons(self, data: T) -> (r: List<T>)
        ensures
            r.view() == seq![data] + self.view(),
    {
        List::Node { data, next: Box::new(self) }
    }

    /// Consume the list and return a fresh list of `num` copies of `data`
    /// (none when `num` is not positive); the old contents are discarded.
    pub fn set(self, data: T, num: i32) -> (r: List<T>) where T: Copy
        ensures
            r.view().len() == if num >= 0 { num as int } else { 0 },
            forall|k: int| 0 <= k < r.view().len() ==> r.view()[k] == data,
    {
        let mut tmp: List<T> = List::Nil;
        let mut i: i32 = 0;
        while i < num
            invariant
                0 <= i,
                i <= num || i == 0,
                tmp.view().len() == i as int,
                forall|k: int| 0 <= k < tmp.view().len() ==> tmp.view()[k] == data,
            decreases num - i,
        {
            tmp = tmp.cons(data);
            i = i + 1;
        }
        tmp
    }

    /// An iterator-style cursor over the list, starting at the front.
    pub fn iter<'a>(&'a self) -> (r: ListIter<'a, T>)
        ensures
            r.view() == self.view(),
    {
        ListIter { elm: self }
    }
}

/// A cursor over a borrowed list: what remains to be visited.
pub struct ListIter<'a, T> {
    elm: &'a List<T>,
}

impl<'a, T> ListIter<'a, T> {
    /// The elements not yet visited, front first.
    pub closed spec fn view(self) -> Seq<T> {
        self.elm.view()
    }

    /// Yield the next element, or `None` once the list is exhausted.
    pub fn next(&mut self) -> (r: Option<&'a T>)
        ensures
            old(self).view().len() == 0 ==> r is None && final(self).view() == old(self).view(),
            old(self).view().len() > 0 ==> (r matches Some(x) && *x == old(self).view()[0]
                && final(self).view() == old(self).view().drop_first()),
    {
        match self.elm {
            List::Node { data, next } => {
                self.elm = next;
                proof {
                    assert(self.view() =~= old(self).view().drop_first());
                }
                Some(data)
            },
            List::Nil => None,
        }
    }
}

} // verus!
