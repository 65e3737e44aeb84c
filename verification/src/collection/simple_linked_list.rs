//! A list with two ends. Elements go in and come out at the front and at the
//! back; as a stack it takes elements in at the front and gives them back
//! from the back, oldest first.

use std::collections::VecDeque;
use vstd::multiset::Multiset;
use vstd::prelude::*;
use vstd::seq_lib::{lemma_multiset_commutative, to_multiset_build, to_multiset_remove};

use crate::collection::dequeue::Dequeue;
use crate::collection::stack::Stack;
use crate::collection::Collection;

verus! {

/// A list that takes elements and gives them back at both of its ends.
pub struct LinkedList<T> {
    links: VecDeque<T>,
    size: usize,
}

impl<T> LinkedList<T> {
    /// The elements from the front to the back.
    pub closed spec fn view(&self) -> Seq<T> {
        self.links@
    }

    /// The number of elements that the list has on record.
    pub closed spec fn recorded(&self) -> nat {
        self.size as nat
    }

    /// The list without elements.
    pub fn new() -> (list: Self)
        ensures
            list.wf(),
            list.view() == Seq::<T>::empty(),
    {
        LinkedList { links: VecDeque::new(), size: 0 }
    }
}

impl<T> Collection for LinkedList<T> {
    open spec fn wf(&self) -> bool {
        self.recorded() == self.view().len()
    }

    open spec fn count(&self) -> nat {
        self.view().len()
    }

    fn is_empty(&self) -> (empty: bool) {
        self.size == 0
    }

    fn size(&self) -> (size: usize) {
        self.size
    }
}

impl<T> Stack<T> for LinkedList<T> {
    open spec fn held(&self) -> Multiset<T> {
        self.view().to_multiset()
    }

    fn push(&mut self, value: T)
        ensures
            final(self).view() == seq![value] + old(self).view(),
    {
        proof {
            lemma_multiset_commutative(seq![value], self.view());
            to_multiset_build(Seq::<T>::empty(), value);
            broadcast use vstd::seq_lib::to_multiset_contains;

            assert((seq![value] + self.view()).to_multiset() =~= self.view().to_multiset().insert(
                value,
            ));
        }
        self.push_front(value)
    }

    fn pop(&mut self) -> (value: Option<T>)
        ensures
            old(self).view().len() > 0 ==> value == Some(old(self).view().last())
                && final(self).view() == old(self).view().drop_last(),
    {
        proof {
            if self.view().len() > 0 {
                let last = self.view().len() - 1;
                to_multiset_remove(self.view(), last);
                assert(self.view().remove(last) =~= self.view().drop_last());
                broadcast use vstd::seq_lib::to_multiset_contains;

                assert(self.view().contains(self.view()[last]));
            }
        }
        self.pop_back()
    }
}

impl<T> Dequeue<T> for LinkedList<T> {
    open spec fn items(&self) -> Seq<T> {
        self.view()
    }

    proof fn lemma_count(&self) {
    }

    fn push_front(&mut self, value: T) {
        self.links.push_front(value);
        self.size = self.size + 1;
    }

    fn pop_front(&mut self) -> (value: Option<T>) {
        let value = self.links.pop_front();
        if value.is_some() {
            self.size = self.size - 1;
            assert(self.links@ =~= old(self).links@.drop_first());
        }
        value
    }

    fn push_back(&mut self, value: T) {
        self.links.push_back(value);
        self.size = self.size + 1;
    }

    fn pop_back(&mut self) -> (value: Option<T>) {
        let value = self.links.pop_back();
        if value.is_some() {
            self.size = self.size - 1;
            assert(self.links@ =~= old(self).links@.drop_last());
        }
        value
    }
}

} // verus!
