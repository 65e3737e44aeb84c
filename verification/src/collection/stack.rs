//! Collections that take one element at a time and give one back at a time.

use vstd::multiset::Multiset;
use vstd::prelude::*;

use crate::collection::Collection;

verus! {

/// A collection with one way in and one way out. Which of the elements
/// comes out next is for each implementation to say; here it is one of those
/// that went in and have not come out yet.
pub trait Stack<T>: Collection {
    /// The elements that are in, each as often as it is.
    spec fn held(&self) -> Multiset<T>;

    /// Takes `value` in.
    fn push(&mut self, value: T)
        requires
            old(self).wf(),
            old(self).count() < usize::MAX,
        ensures
            final(self).wf(),
            final(self).count() == old(self).count() + 1,
            final(self).held() == old(self).held().insert(value),
    ;

    /// Gives one element back, where there is one.
    fn pop(&mut self) -> (value: Option<T>)
        requires
            old(self).wf(),
        ensures
            final(self).wf(),
            value is None <==> old(self).count() == 0,
            value is None ==> final(self).held() == old(self).held() && final(self).count()
                == old(self).count(),
            value matches Some(taken) ==> {
                &&& old(self).held().contains(taken)
                &&& final(self).held() == old(self).held().remove(taken)
                &&& final(self).count() == old(self).count() - 1
            },
    ;
}

} // verus!
