//! Quick-find: every element carries the identifier of its component, so a
//! query compares two slots and a merge rewrites every slot of one component.

use vstd::prelude::*;

use crate::dynamic_connectivity::forest::{bounded, singletons};
use crate::dynamic_connectivity::partition::Partition;
use crate::dynamic_connectivity::union_find::{check_operands, render, Connectivity, UnionFind};
use crate::AlgoError;

verus! {

/// The partition in which two elements lie together where their slots hold
/// the same identifier.
pub open spec fn labelled(ids: Seq<usize>) -> Partition {
    Partition {
        count: ids.len(),
        links: Set::new(
            |p: (int, int)| 0 <= p.0 < ids.len() && 0 <= p.1 < ids.len() && ids[p.0] == ids[p.1],
        ),
    }
}

/// `ids` with every slot that holds `from` rewritten to `to`.
pub open spec fn relabelled(ids: Seq<usize>, from: usize, to: usize) -> Seq<usize> {
    Seq::new(
        ids.len(),
        |i: int|
            if ids[i] == from {
                to
            } else {
                ids[i]
            },
    )
}

/// The slots after the merge of `first` and `second`: every slot that held
/// the identifier of `first` holds that of `second`, and nothing changes where
/// an operand is not an element.
pub open spec fn united(ids: Seq<usize>, first: usize, second: usize) -> Seq<usize> {
    if first < ids.len() && second < ids.len() {
        relabelled(ids, ids[first as int], ids[second as int])
    } else {
        ids
    }
}

/// The slots after a merge name elements as before, and stand for the
/// partition with that merge made.
pub proof fn lemma_united(ids: Seq<usize>, first: usize, second: usize)
    requires
        bounded(ids),
    ensures
        bounded(united(ids, first, second)),
        labelled(united(ids, first, second)) == labelled(ids).unite(first, second),
{
    if first < ids.len() && second < ids.len() {
        assert(ids[second as int] < ids.len());
        assert(labelled(united(ids, first, second)).links =~= labelled(ids).merge(
            first as int,
            second as int,
        ).links);
    }
}

/// The elements `0 .. n` in components, each element with the identifier of
/// its component in its slot.
pub struct QuickFind {
    objects: Vec<usize>,
}

impl View for QuickFind {
    type V = Partition;

    open spec fn view(&self) -> Partition {
        labelled(self.ids())
    }
}

impl QuickFind {
    /// For each element the identifier of its component.
    pub closed spec fn ids(&self) -> Seq<usize> {
        self.objects@
    }

    /// `size` elements, each the only one of its component.
    pub fn new(size: usize) -> (made: Self)
        ensures
            made.wf(),
            made.ids() == singletons(size as nat),
            made@ == Partition::discrete(size as nat),
            made.room() == usize::MAX - size,
    {
        let mut objects: Vec<usize> = Vec::with_capacity(size);
        let mut i: usize = 0;
        while i < size
            invariant
                i <= size,
                objects@.len() == i,
                forall|k: int| 0 <= k < i ==> objects@[k] == k,
            decreases size - i,
        {
            objects.push(i);
            i = i + 1;
        }
        assert(objects@ =~= singletons(size as nat));
        assert(labelled(objects@).links =~= Partition::discrete(size as nat).links);
        QuickFind { objects }
    }

    /// The structure that holds exactly these slots, where every slot names
    /// an element.
    pub fn from_objects(objects: Vec<usize>) -> (made: Option<Self>)
        ensures
            made is Some <==> bounded(objects@),
            made matches Some(structure) ==> structure.wf() && structure.ids() == objects@,
    {
        let n = objects.len();
        let mut i: usize = 0;
        while i < n
            invariant
                i <= n,
                n == objects@.len(),
                forall|k: int| 0 <= k < i ==> (#[trigger] objects@[k]) < n,
            decreases n - i,
        {
            if objects[i] >= n {
                return None;
            }
            i = i + 1;
        }
        Some(QuickFind { objects })
    }

    /// The slots: for each element the identifier of its component.
    pub fn objects(&self) -> (objects: &Vec<usize>)
        ensures
            objects@ == self.ids(),
    {
        &self.objects
    }
}

impl Connectivity for QuickFind {
    open spec fn wf(&self) -> bool {
        bounded(self.ids())
    }

    proof fn lemma_view(&self) {
    }
}

impl UnionFind for QuickFind {
    open spec fn slots(&self) -> Seq<usize> {
        self.ids()
    }

    open spec fn room(&self) -> nat {
        (usize::MAX - self.ids().len()) as nat
    }

    fn add(&mut self, object: usize) -> (result: Result<(), AlgoError>) {
        if object < self.objects.len() {
            return Err(AlgoError::element_already_exist("object", object));
        }
        self.objects.insert(object, object);
        assert(self.objects@ =~= old(self).objects@.push(object));
        proof {
            let before = old(self).ids();
            let after = self.ids();
            assert forall|p: (int, int)|
                labelled(after).links.contains(p) == labelled(before).extend().links.contains(
                    p,
                ) by {
                if 0 <= p.0 < before.len() {
                    assert(after[p.0] == before[p.0]);
                }
                if 0 <= p.1 < before.len() {
                    assert(after[p.1] == before[p.1]);
                }
            }
            assert(labelled(after).links =~= labelled(before).extend().links);
        }
        Ok(())
    }

    fn union(&mut self, first: &usize, second: &usize) -> (result: Result<(), AlgoError>)
        ensures
            final(self).ids() == united(old(self).ids(), *first, *second),
    {
        let n = self.objects.len();
        match check_operands(n, *first, *second) {
            Err(error) => Err(error),
            Ok(()) => {
                let from = self.objects[*first];
                let to = self.objects[*second];
                let mut i: usize = 0;
                while i < n
                    invariant
                        i <= n,
                        n == self.objects@.len(),
                        n == old(self).objects@.len(),
                        forall|k: int|
                            0 <= k < i ==> self.objects@[k] == relabelled(
                                old(self).objects@,
                                from,
                                to,
                            )[k],
                        forall|k: int| i <= k < n ==> self.objects@[k] == old(self).objects@[k],
                    decreases n - i,
                {
                    if self.objects[i] == from {
                        self.objects.set(i, to);
                    }
                    i = i + 1;
                }
                proof {
                    assert(self.objects@ =~= relabelled(old(self).objects@, from, to));
                    lemma_united(old(self).objects@, *first, *second);
                }
                Ok(())
            },
        }
    }

    fn connected(&self, first: &usize, second: &usize) -> (result: Result<bool, AlgoError>) {
        match check_operands(self.objects.len(), *first, *second) {
            Err(error) => Err(error),
            Ok(()) => Ok(self.objects[*first] == self.objects[*second]),
        }
    }

    fn to_string(&self) -> (text: String) {
        render(&self.objects)
    }
}

} // verus!
