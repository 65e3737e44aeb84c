//! Weighted quick-union: a parent-pointer forest in which every root also
//! records a size, and a merge hangs the root with the smaller size under the
//! other one.

use vstd::prelude::*;

use crate::dynamic_connectivity::depth::{
    depth, lemma_shallow_depth, lemma_shallow_grown, lemma_shallow_singletons,
    lemma_shallow_weighed, shallow,
};
use crate::dynamic_connectivity::forest::{
    check_forest, is_forest, lemma_grown, lemma_ranking, lemma_root, lemma_singletons,
    lemma_trees_wf, ranked, ranking, root, singletons, trees,
};
use crate::dynamic_connectivity::partition::Partition;
use crate::dynamic_connectivity::union_find::{render, Connectivity, UnionFind};
use crate::dynamic_connectivity::weights::{
    checked_total_weight, lemma_sized_grown, lemma_sized_singletons, lemma_sized_weighed,
    lemma_sized_weight, lemma_weighed, lemma_weight_grown, lemma_weight_singletons, ones, sized,
    total_weight, weighed_parents, weighed_sizes, weighted_forest,
};
use crate::AlgoError;

verus! {

/// The parent pointers after the merge of `first` and `second`: their roots
/// merged by size, and nothing changed where an operand is not an element.
pub open spec fn united_parents(
    parents: Seq<usize>,
    sizes: Seq<usize>,
    first: usize,
    second: usize,
) -> Seq<usize> {
    if first < parents.len() && second < parents.len() {
        weighed_parents(
            parents,
            sizes,
            root(parents, first as int),
            root(parents, second as int),
        )
    } else {
        parents
    }
}

/// The sizes after the merge of `first` and `second`.
pub open spec fn united_sizes(
    parents: Seq<usize>,
    sizes: Seq<usize>,
    first: usize,
    second: usize,
) -> Seq<usize> {
    if first < parents.len() && second < parents.len() {
        weighed_sizes(sizes, root(parents, first as int), root(parents, second as int))
    } else {
        sizes
    }
}

/// Parent pointers and sizes after a merge are a weighted forest of the
/// same weight, whose trees stand for the partition with that merge made.
pub proof fn lemma_united(parents: Seq<usize>, sizes: Seq<usize>, first: usize, second: usize)
    requires
        weighted_forest(parents, sizes),
    ensures
        weighted_forest(
            united_parents(parents, sizes, first, second),
            united_sizes(parents, sizes, first, second),
        ),
        total_weight(
            united_parents(parents, sizes, first, second),
            united_sizes(parents, sizes, first, second),
        ) == total_weight(parents, sizes),
        trees(united_parents(parents, sizes, first, second)) == trees(parents).unite(
            first,
            second,
        ),
        sized(parents, sizes) ==> sized(
            united_parents(parents, sizes, first, second),
            united_sizes(parents, sizes, first, second),
        ),
        sized(parents, sizes) && shallow(parents) ==> shallow(
            united_parents(parents, sizes, first, second),
        ),
{
    if first < parents.len() && second < parents.len() {
        lemma_weighed(parents, sizes, first as int, second as int);
        if sized(parents, sizes) {
            lemma_sized_weighed(parents, sizes, first as int, second as int);
            if shallow(parents) {
                lemma_shallow_weighed(parents, sizes, first as int, second as int);
            }
        }
    }
}

/// The elements `0 .. n` in components, each component a tree of parent
/// pointers whose root records a size.
// One could keep the height of each tree in place of its size; sizes are
// kept because later refinements build on them.
pub struct WeightedQuickUnion {
    objects: Vec<usize>,
    sizes: Vec<usize>,
}

impl View for WeightedQuickUnion {
    type V = Partition;

    open spec fn view(&self) -> Partition {
        trees(self.parents())
    }
}

impl WeightedQuickUnion {
    /// For each element its parent; a root is its own parent.
    pub closed spec fn parents(&self) -> Seq<usize> {
        self.objects@
    }

    /// For each element a size, which counts where the element is a root.
    pub closed spec fn weights(&self) -> Seq<usize> {
        self.sizes@
    }

    /// The sum of the sizes that the roots record.
    pub open spec fn weight(&self) -> nat {
        total_weight(self.parents(), self.weights())
    }

    /// The sizes that the roots record add up to the number of elements.
    pub open spec fn balanced(&self) -> bool {
        self.weight() == self.parents().len()
    }

    /// Every root records the number of elements of its tree.
    pub open spec fn sized(&self) -> bool {
        sized(self.parents(), self.weights())
    }

    /// The tree of every element has at least two to the power of the depth
    /// of the element many elements.
    pub open spec fn shallow(&self) -> bool {
        shallow(self.parents())
    }

    /// In a structure of shallow trees no element is deeper than the
    /// binary logarithm of the number of elements.
    pub proof fn lemma_logarithmic_depth(&self, x: int)
        requires
            self.wf(),
            self.shallow(),
            0 <= x < self.parents().len(),
        ensures
            vstd::arithmetic::power2::pow2(depth(self.parents(), x)) <= self.parents().len(),
    {
        lemma_shallow_depth(self.parents(), x);
    }

    /// Where every root records the number of elements of its tree, the
    /// sizes that the roots record add up to the number of elements.
    pub proof fn lemma_sized_is_balanced(&self)
        requires
            self.wf(),
            self.sized(),
        ensures
            self.balanced(),
    {
        lemma_sized_weight(self.parents(), self.weights());
    }

    /// `size` elements, each the root of a tree of size one.
    pub fn new(size: usize) -> (made: Self)
        ensures
            made.wf(),
            made.parents() == singletons(size as nat),
            made.weights() == ones(size as nat),
            made@ == Partition::discrete(size as nat),
            made.balanced(),
            made.sized(),
            made.shallow(),
    {
        let mut objects: Vec<usize> = Vec::with_capacity(size);
        let mut sizes: Vec<usize> = Vec::with_capacity(size);
        let mut i: usize = 0;
        while i < size
            invariant
                i <= size,
                objects@.len() == i,
                sizes@.len() == i,
                forall|k: int| 0 <= k < i ==> objects@[k] == k,
                forall|k: int| 0 <= k < i ==> sizes@[k] == 1,
            decreases size - i,
        {
            objects.push(i);
            sizes.push(1);
            i = i + 1;
        }
        proof {
            assert(objects@ =~= singletons(size as nat));
            assert(sizes@ =~= ones(size as nat));
            lemma_singletons(size as nat);
            lemma_weight_singletons(size as nat, size as nat);
            lemma_sized_singletons(size as nat);
            lemma_shallow_singletons(size as nat);
        }
        WeightedQuickUnion { objects, sizes }
    }

    /// The structure that holds exactly these parent pointers and sizes,
    /// where there is a size for each element, the parent pointers form a
    /// forest, and the sizes of the roots add up within a machine word.
    pub fn from_parts(objects: Vec<usize>, sizes: Vec<usize>) -> (made: Option<Self>)
        ensures
            made is Some <==> weighted_forest(objects@, sizes@),
            made matches Some(structure) ==> {
                &&& structure.wf()
                &&& structure.parents() == objects@
                &&& structure.weights() == sizes@
            },
    {
        if objects.len() != sizes.len() {
            return None;
        }
        if !check_forest(&objects) {
            return None;
        }
        match checked_total_weight(&objects, &sizes) {
            None => None,
            Some(_) => Some(WeightedQuickUnion { objects, sizes }),
        }
    }

    /// The parent pointers.
    pub fn objects(&self) -> (objects: &Vec<usize>)
        ensures
            objects@ == self.parents(),
    {
        &self.objects
    }

    /// The sizes.
    pub fn sizes(&self) -> (sizes: &Vec<usize>)
        ensures
            sizes@ == self.weights(),
    {
        &self.sizes
    }

    /// The root of the tree of `object`, where it is an element.
    fn find_root(&self, object: &usize) -> (found: Option<usize>)
        requires
            self.wf(),
        ensures
            *object >= self.parents().len() ==> found is None,
            *object < self.parents().len() ==> (found matches Some(top) && top == root(
                self.parents(),
                *object as int,
            )),
            found matches Some(top) ==> top < self.parents().len() && self.parents()[top as int]
                == top,
    {
        if *object >= self.objects.len() {
            return None;
        }
        let ghost rank = ranking(self.objects@);
        proof {
            lemma_ranking(self.objects@);
        }
        let mut current: usize = *object;
        while self.objects[current] != current
            invariant
                is_forest(self.objects@),
                ranked(self.objects@, rank),
                current < self.objects@.len(),
                root(self.objects@, current as int) == root(self.objects@, *object as int),
            decreases rank[current as int],
        {
            proof {
                lemma_root(self.objects@, current as int);
            }
            current = self.objects[current];
        }
        Some(current)
    }
}

impl Connectivity for WeightedQuickUnion {
    open spec fn wf(&self) -> bool {
        weighted_forest(self.parents(), self.weights())
    }

    proof fn lemma_view(&self) {
        lemma_trees_wf(self.parents());
    }
}

impl UnionFind for WeightedQuickUnion {
    open spec fn slots(&self) -> Seq<usize> {
        self.parents()
    }

    open spec fn room(&self) -> nat {
        if self.weight() <= self.parents().len() {
            (usize::MAX - self.parents().len()) as nat
        } else {
            (usize::MAX - self.weight()) as nat
        }
    }

    fn add(&mut self, object: usize) -> (result: Result<(), AlgoError>)
        ensures
            object == old(self)@.count ==> final(self).weights() == old(self).weights().push(1)
                && final(self).weight() == old(self).weight() + 1,
            old(self).balanced() ==> final(self).balanced(),
            old(self).sized() ==> final(self).sized(),
            old(self).shallow() ==> final(self).shallow(),
    {
        if object < self.objects.len() {
            return Err(AlgoError::element_already_exist("object", object));
        }
        proof {
            lemma_grown(self.objects@);
            lemma_weight_grown(self.objects@, self.sizes@);
            if self.sized() {
                lemma_sized_grown(self.objects@, self.sizes@);
            }
            if self.shallow() {
                lemma_shallow_grown(self.objects@);
            }
        }
        self.objects.insert(object, object);
        assert(self.objects@ =~= old(self).objects@.push(object));
        self.sizes.insert(object, 1);
        assert(self.sizes@ =~= old(self).sizes@.push(1));
        Ok(())
    }

    fn union(&mut self, first: &usize, second: &usize) -> (result: Result<(), AlgoError>)
        ensures
            final(self).weight() == old(self).weight(),
            old(self).balanced() ==> final(self).balanced(),
            old(self).sized() ==> final(self).sized(),
            old(self).sized() && old(self).shallow() ==> final(self).shallow(),
            final(self).parents() == united_parents(
                old(self).parents(),
                old(self).weights(),
                *first,
                *second,
            ),
            final(self).weights() == united_sizes(
                old(self).parents(),
                old(self).weights(),
                *first,
                *second,
            ),
    {
        let first_root = self.find_root(first);
        let second_root = self.find_root(second);
        match (first_root, second_root) {
            (Some(f), Some(s)) => {
                proof {
                    lemma_weighed(self.objects@, self.sizes@, *first as int, *second as int);
                    lemma_united(self.objects@, self.sizes@, *first, *second);
                }
                if f != s {
                    if self.sizes[f] < self.sizes[s] {
                        self.objects.set(f, s);
                        let merged = self.sizes[s] + self.sizes[f];
                        self.sizes.set(s, merged);
                    } else {
                        self.objects.set(s, f);
                        let merged = self.sizes[f] + self.sizes[s];
                        self.sizes.set(f, merged);
                    }
                }
                Ok(())
            },
            (None, None) => Err(
                AlgoError::missing_elements("first object", *first, "second object", *second),
            ),
            (None, _) => Err(AlgoError::missing_element("first object", *first)),
            (_, None) => Err(AlgoError::missing_element("second object", *second)),
        }
    }

    fn connected(&self, first: &usize, second: &usize) -> (result: Result<bool, AlgoError>) {
        let first_root = self.find_root(first);
        let second_root = self.find_root(second);
        match (first_root, second_root) {
            (Some(f), Some(s)) => {
                proof {
                    lemma_root(self.objects@, *first as int);
                    lemma_root(self.objects@, *second as int);
                }
                Ok(f == s)
            },
            (None, None) => Err(
                AlgoError::missing_elements("first object", *first, "second object", *second),
            ),
            (None, _) => Err(AlgoError::missing_element("first object", *first)),
            (_, None) => Err(AlgoError::missing_element("second object", *second)),
        }
    }

    fn to_string(&self) -> (text: String) {
        render(&self.objects)
    }
}

} // verus!
