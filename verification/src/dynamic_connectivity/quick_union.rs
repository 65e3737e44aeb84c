//! Quick-union: every element points to a parent, a root points to itself,
//! and a merge hangs the root of the first operand under that of the second,
//! whatever the sizes of the two trees.

use vstd::prelude::*;

use crate::dynamic_connectivity::forest::{
    check_forest, is_forest, lemma_grown, lemma_linked_merges, lemma_ranking, lemma_root,
    lemma_singletons, lemma_trees_wf, linked, ranked, ranking, root, singletons, trees,
};
use crate::dynamic_connectivity::partition::Partition;
use crate::dynamic_connectivity::union_find::{render, Connectivity, UnionFind};
use crate::AlgoError;

verus! {

/// The parent pointers after the merge of `first` and `second`: the root of
/// `first` has the root of `second` as its parent, and nothing changes where
/// an operand is not an element.
pub open spec fn united(parents: Seq<usize>, first: usize, second: usize) -> Seq<usize> {
    if first < parents.len() && second < parents.len() {
        linked(parents, root(parents, first as int), root(parents, second as int))
    } else {
        parents
    }
}

/// The parent pointers after a merge are a forest, whose trees stand for
/// the partition with that merge made.
pub proof fn lemma_united(parents: Seq<usize>, first: usize, second: usize)
    requires
        is_forest(parents),
    ensures
        is_forest(united(parents, first, second)),
        trees(united(parents, first, second)) == trees(parents).unite(first, second),
{
    if first < parents.len() && second < parents.len() {
        lemma_linked_merges(
            parents,
            root(parents, first as int),
            root(parents, second as int),
            first as int,
            second as int,
        );
    }
}

/// The elements `0 .. n` in components, each component a tree of parent
/// pointers.
pub struct QuickUnion {
    objects: Vec<usize>,
}

impl View for QuickUnion {
    type V = Partition;

    open spec fn view(&self) -> Partition {
        trees(self.parents())
    }
}

impl QuickUnion {
    /// For each element its parent; a root is its own parent.
    pub closed spec fn parents(&self) -> Seq<usize> {
        self.objects@
    }

    /// `size` elements, each the root of a tree of its own.
    pub fn new(size: usize) -> (made: Self)
        ensures
            made.wf(),
            made.parents() == singletons(size as nat),
            made@ == Partition::discrete(size as nat),
            made.room() == usize::MAX - size,
    {
        let mut objects: Vec<usize> = Vec::with_capacity(size);
        let mut i: usize = 0;
        while i < size
            invariant
                i <= size,
                objects@.len() == i,
                forall|k: int| 0 <= k < i ==> objects@[k] == k,
            decreases size - i,
        {
            objects.push(i);
            i = i + 1;
        }
        proof {
            assert(objects@ =~= singletons(size as nat));
            lemma_singletons(size as nat);
        }
        QuickUnion { objects }
    }

    /// The structure that holds exactly these parent pointers, where they
    /// form a forest.
    pub fn from_objects(objects: Vec<usize>) -> (made: Option<Self>)
        ensures
            made is Some <==> is_forest(objects@),
            made matches Some(structure) ==> structure.wf() && structure.parents() == objects@,
    {
        if check_forest(&objects) {
            Some(QuickUnion { objects })
        } else {
            None
        }
    }

    /// The parent pointers.
    pub fn objects(&self) -> (objects: &Vec<usize>)
        ensures
            objects@ == self.parents(),
    {
        &self.objects
    }

    /// The root of the tree of `object`, where it is an element.
    fn find_root(&self, object: &usize) -> (found: Option<usize>)
        requires
            self.wf(),
        ensures
            *object >= self.parents().len() ==> found is None,
            *object < self.parents().len() ==> (found matches Some(top) && top == root(
                self.parents(),
                *object as int,
            )),
            found matches Some(top) ==> top < self.parents().len() && self.parents()[top as int]
                == top,
    {
        if *object >= self.objects.len() {
            return None;
        }
        let ghost rank = ranking(self.objects@);
        proof {
            lemma_ranking(self.objects@);
        }
        let mut current: usize = *object;
        while self.objects[current] != current
            invariant
                is_forest(self.objects@),
                ranked(self.objects@, rank),
                current < self.objects@.len(),
                root(self.objects@, current as int) == root(self.objects@, *object as int),
            decreases rank[current as int],
        {
            proof {
                lemma_root(self.objects@, current as int);
            }
            current = self.objects[current];
        }
        Some(current)
    }
}

impl Connectivity for QuickUnion {
    open spec fn wf(&self) -> bool {
        is_forest(self.parents())
    }

    proof fn lemma_view(&self) {
        lemma_trees_wf(self.parents());
    }
}

impl UnionFind for QuickUnion {
    open spec fn slots(&self) -> Seq<usize> {
        self.parents()
    }

    open spec fn room(&self) -> nat {
        (usize::MAX - self.parents().len()) as nat
    }

    fn add(&mut self, object: usize) -> (result: Result<(), AlgoError>) {
        if object < self.objects.len() {
            return Err(AlgoError::element_already_exist("object", object));
        }
        proof {
            lemma_grown(self.objects@);
        }
        self.objects.insert(object, object);
        assert(self.objects@ =~= old(self).objects@.push(object));
        Ok(())
    }

    fn union(&mut self, first: &usize, second: &usize) -> (result: Result<(), AlgoError>)
        ensures
            final(self).parents() == united(old(self).parents(), *first, *second),
    {
        let first_root = self.find_root(first);
        let second_root = self.find_root(second);
        match (first_root, second_root) {
            (Some(f), Some(s)) => {
                proof {
                    lemma_united(self.objects@, *first, *second);
                }
                self.objects.set(f, s);
                Ok(())
            },
            (None, None) => Err(
                AlgoError::missing_elements("first object", *first, "second object", *second),
            ),
            (None, _) => Err(AlgoError::missing_element("first object", *first)),
            (_, None) => Err(AlgoError::missing_element("second object", *second)),
        }
    }

    fn connected(&self, first: &usize, second: &usize) -> (result: Result<bool, AlgoError>) {
        let first_root = self.find_root(first);
        let second_root = self.find_root(second);
        match (first_root, second_root) {
            (Some(f), Some(s)) => {
                proof {
                    lemma_root(self.objects@, *first as int);
                    lemma_root(self.objects@, *second as int);
                }
                Ok(f == s)
            },
            (None, None) => Err(
                AlgoError::missing_elements("first object", *first, "second object", *second),
            ),
            (None, _) => Err(AlgoError::missing_element("first object", *first)),
            (_, None) => Err(AlgoError::missing_element("second object", *second)),
        }
    }

    fn to_string(&self) -> (text: String) {
        render(&self.objects)
    }
}

} // verus!
