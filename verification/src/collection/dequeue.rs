//! Collections with two ends, each of which takes elements and gives them
//! back.

use vstd::prelude::*;

use crate::collection::Collection;

verus! {

/// A sequence that grows and shrinks at its front and at its back.
pub trait Dequeue<T>: Collection {
    /// The elements from the front to the back.
    spec fn items(&self) -> Seq<T>;

    /// There are as many elements as the sequence is long.
    proof fn lemma_count(&self)
        requires
            self.wf(),
        ensures
            self.count() == self.items().len(),
    ;

    /// Puts `value` before the front.
    fn push_front(&mut self, value: T)
        requires
            old(self).wf(),
            old(self).count() < usize::MAX,
        ensures
            final(self).wf(),
            final(self).items() == seq![value] + old(self).items(),
    ;

    /// Takes the element at the front, where there is one.
    fn pop_front(&mut self) -> (value: Option<T>)
        requires
            old(self).wf(),
        ensures
            final(self).wf(),
            old(self).items().len() == 0 ==> value is None && final(self).items() == old(
                self,
            ).items(),
            old(self).items().len() > 0 ==> value == Some(old(self).items().first())
                && final(self).items() == old(self).items().drop_first(),
    ;

    /// Puts `value` behind the back.
    fn push_back(&mut self, value: T)
        requires
            old(self).wf(),
            old(self).count() < usize::MAX,
        ensures
            final(self).wf(),
            final(self).items() == old(self).items().push(value),
    ;

    /// Takes the element at the back, where there is one.
    fn pop_back(&mut self) -> (value: Option<T>)
        requires
            old(self).wf(),
        ensures
            final(self).wf(),
            old(self).items().len() == 0 ==> value is None && final(self).items() == old(
                self,
            ).items(),
            old(self).items().len() > 0 ==> value == Some(old(self).items().last())
                && final(self).items() == old(self).items().drop_last(),
    ;
}

} // verus!
