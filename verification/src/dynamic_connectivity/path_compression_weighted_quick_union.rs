//! Weighted quick-union with path halving: every lookup of a root also moves
//! every other element on its way to the parent of its parent, so later
//! lookups are shorter. Queries therefore change the parent pointers, and
//! never the components.

use vstd::prelude::*;

use crate::dynamic_connectivity::depth::{
    depth, lemma_shallow_depth, lemma_shallow_grown, lemma_shallow_halved,
    lemma_shallow_singletons, lemma_shallow_weighed, shallow,
};
use crate::dynamic_connectivity::forest::{
    check_forest, halved, halved_along, is_forest, lemma_grown, lemma_halved, lemma_ranking,
    lemma_root, lemma_shortcut, lemma_shortcut_ranked, lemma_singletons, lemma_trees_wf, ranked,
    ranking, root, singletons, trees,
};
use crate::dynamic_connectivity::partition::Partition;
use crate::dynamic_connectivity::union_find::{
    check_operands, operand_fault, render, rendered, reports_existing, reports_missing,
    Connectivity,
};
use crate::dynamic_connectivity::weights::{
    checked_total_weight, lemma_sized_grown, lemma_sized_same, lemma_sized_singletons,
    lemma_sized_weighed, lemma_sized_weight, lemma_weighed, lemma_weight_grown, lemma_weight_same,
    lemma_weight_singletons, ones, sized, total_weight, weighed_parents, weighed_sizes,
    weighted_forest,
};
use crate::AlgoError;

verus! {

/// The parent pointers after the merge of `first` and `second`: path
/// halving from `first`, then from `second`, then their roots merged by
/// size; nothing changes where an operand is not an element.
pub open spec fn united_parents(
    parents: Seq<usize>,
    sizes: Seq<usize>,
    first: usize,
    second: usize,
) -> Seq<usize> {
    if first < parents.len() && second < parents.len() {
        weighed_parents(
            halved(halved(parents, first as int), second as int),
            sizes,
            root(parents, first as int),
            root(parents, second as int),
        )
    } else {
        parents
    }
}

/// The sizes after the merge of `first` and `second`.
pub open spec fn united_sizes(
    parents: Seq<usize>,
    sizes: Seq<usize>,
    first: usize,
    second: usize,
) -> Seq<usize> {
    if first < parents.len() && second < parents.len() {
        weighed_sizes(sizes, root(parents, first as int), root(parents, second as int))
    } else {
        sizes
    }
}

/// The parent pointers after the query for `first` and `second`: path
/// halving from `first`, then from `second`; nothing changes where an operand
/// is not an element.
pub open spec fn queried(parents: Seq<usize>, first: usize, second: usize) -> Seq<usize> {
    if first < parents.len() && second < parents.len() {
        halved(halved(parents, first as int), second as int)
    } else {
        parents
    }
}

/// The parent pointers after a query are a forest with every root and every
/// tree as it was.
pub proof fn lemma_queried(parents: Seq<usize>, first: usize, second: usize)
    requires
        is_forest(parents),
    ensures
        is_forest(queried(parents, first, second)),
        queried(parents, first, second).len() == parents.len(),
        forall|x: int|
            0 <= x < parents.len() ==> #[trigger] root(queried(parents, first, second), x) == root(
                parents,
                x,
            ),
        forall|x: int|
            0 <= x < parents.len() ==> (#[trigger] queried(parents, first, second)[x] == x) == (
            parents[x] == x),
        trees(queried(parents, first, second)) == trees(parents),
        shallow(parents) ==> shallow(queried(parents, first, second)),
{
    if first < parents.len() && second < parents.len() {
        let once = halved(parents, first as int);
        lemma_halved(parents, first as int);
        lemma_halved(once, second as int);
        if shallow(parents) {
            lemma_ranking(parents);
            lemma_shallow_halved(parents, ranking(parents), first as int);
            lemma_ranking(once);
            lemma_shallow_halved(once, ranking(once), second as int);
        }
        let twice = halved(once, second as int);
        assert forall|x: int| 0 <= x < parents.len() implies #[trigger] root(twice, x) == root(
            parents,
            x,
        ) by {
            assert(root(twice, x) == root(once, x));
        }
        assert forall|x: int| 0 <= x < parents.len() implies (#[trigger] twice[x] == x) == (
        parents[x] == x) by {
            assert((twice[x] == x) == (once[x] == x));
        }
    }
}

/// Parent pointers and sizes after a merge are a weighted forest of the
/// same weight, whose trees stand for the partition with that merge made.
pub proof fn lemma_united(parents: Seq<usize>, sizes: Seq<usize>, first: usize, second: usize)
    requires
        weighted_forest(parents, sizes),
    ensures
        weighted_forest(
            united_parents(parents, sizes, first, second),
            united_sizes(parents, sizes, first, second),
        ),
        total_weight(
            united_parents(parents, sizes, first, second),
            united_sizes(parents, sizes, first, second),
        ) == total_weight(parents, sizes),
        trees(united_parents(parents, sizes, first, second)) == trees(parents).unite(
            first,
            second,
        ),
        sized(parents, sizes) ==> sized(
            united_parents(parents, sizes, first, second),
            united_sizes(parents, sizes, first, second),
        ),
        sized(parents, sizes) && shallow(parents) ==> shallow(
            united_parents(parents, sizes, first, second),
        ),
{
    if first < parents.len() && second < parents.len() {
        let twice = queried(parents, first, second);
        lemma_queried(parents, first, second);
        lemma_weight_same(parents, sizes, twice, sizes, parents.len());
        assert(root(twice, first as int) == root(parents, first as int));
        assert(root(twice, second as int) == root(parents, second as int));
        lemma_weighed(twice, sizes, first as int, second as int);
        if sized(parents, sizes) {
            lemma_sized_same(parents, twice, sizes);
            lemma_sized_weighed(twice, sizes, first as int, second as int);
            if shallow(parents) {
                lemma_shallow_weighed(twice, sizes, first as int, second as int);
            }
        }
    }
}

/// The elements `0 .. n` in components, each component a tree of parent
/// pointers whose root records a size, with paths that every lookup makes
/// shorter.
// One could keep the height of each tree in place of its size; sizes are
// kept because later refinements build on them.
pub struct PathCompressionWeightedQuickUnion {
    objects: Vec<usize>,
    sizes: Vec<usize>,
}

impl View for PathCompressionWeightedQuickUnion {
    type V = Partition;

    open spec fn view(&self) -> Partition {
        trees(self.parents())
    }
}

impl Connectivity for PathCompressionWeightedQuickUnion {
    open spec fn wf(&self) -> bool {
        weighted_forest(self.parents(), self.weights())
    }

    proof fn lemma_view(&self) {
        lemma_trees_wf(self.parents());
    }
}

impl PathCompressionWeightedQuickUnion {
    /// For each element its parent; a root is its own parent.
    pub closed spec fn parents(&self) -> Seq<usize> {
        self.objects@
    }

    /// For each element a size, which counts where the element is a root.
    pub closed spec fn weights(&self) -> Seq<usize> {
        self.sizes@
    }

    /// The sum of the sizes that the roots record.
    pub open spec fn weight(&self) -> nat {
        total_weight(self.parents(), self.weights())
    }

    /// The sizes that the roots record add up to the number of elements.
    pub open spec fn balanced(&self) -> bool {
        self.weight() == self.parents().len()
    }

    /// Every root records the number of elements of its tree.
    pub open spec fn sized(&self) -> bool {
        sized(self.parents(), self.weights())
    }

    /// The tree of every element has at least two to the power of the depth
    /// of the element many elements.
    pub open spec fn shallow(&self) -> bool {
        shallow(self.parents())
    }

    /// In a structure of shallow trees no element is deeper than the
    /// binary logarithm of the number of elements.
    pub proof fn lemma_logarithmic_depth(&self, x: int)
        requires
            self.wf(),
            self.shallow(),
            0 <= x < self.parents().len(),
        ensures
            vstd::arithmetic::power2::pow2(depth(self.parents(), x)) <= self.parents().len(),
    {
        lemma_shallow_depth(self.parents(), x);
    }

    /// Where every root records the number of elements of its tree, the
    /// sizes that the roots record add up to the number of elements.
    pub proof fn lemma_sized_is_balanced(&self)
        requires
            self.wf(),
            self.sized(),
        ensures
            self.balanced(),
    {
        lemma_sized_weight(self.parents(), self.weights());
    }

    /// How many more elements the bookkeeping has room for.
    pub open spec fn room(&self) -> nat {
        if self.weight() <= self.parents().len() {
            (usize::MAX - self.parents().len()) as nat
        } else {
            (usize::MAX - self.weight()) as nat
        }
    }

    /// `size` elements, each the root of a tree of size one.
    pub fn new(size: usize) -> (made: PathCompressionWeightedQuickUnion)
        ensures
            made.wf(),
            made.parents() == singletons(size as nat),
            made.weights() == ones(size as nat),
            made@ == Partition::discrete(size as nat),
            made.balanced(),
            made.sized(),
            made.shallow(),
    {
        let mut objects: Vec<usize> = Vec::with_capacity(size);
        let mut sizes: Vec<usize> = Vec::with_capacity(size);
        let mut i: usize = 0;
        while i < size
            invariant
                i <= size,
                objects@.len() == i,
                sizes@.len() == i,
                forall|k: int| 0 <= k < i ==> objects@[k] == k,
                forall|k: int| 0 <= k < i ==> sizes@[k] == 1,
            decreases size - i,
        {
            objects.push(i);
            sizes.push(1);
            i = i + 1;
        }
        proof {
            assert(objects@ =~= singletons(size as nat));
            assert(sizes@ =~= ones(size as nat));
            lemma_singletons(size as nat);
            lemma_weight_singletons(size as nat, size as nat);
            lemma_sized_singletons(size as nat);
            lemma_shallow_singletons(size as nat);
        }
        PathCompressionWeightedQuickUnion { objects, sizes }
    }

    /// The structure that holds exactly these parent pointers and sizes,
    /// where there is a size for each element, the parent pointers form a
    /// forest, and the sizes of the roots add up within a machine word.
    pub fn from_parts(objects: Vec<usize>, sizes: Vec<usize>) -> (made: Option<Self>)
        ensures
            made is Some <==> weighted_forest(objects@, sizes@),
            made matches Some(structure) ==> {
                &&& structure.wf()
                &&& structure.parents() == objects@
                &&& structure.weights() == sizes@
            },
    {
        if objects.len() != sizes.len() {
            return None;
        }
        if !check_forest(&objects) {
            return None;
        }
        match checked_total_weight(&objects, &sizes) {
            None => None,
            Some(_) => Some(PathCompressionWeightedQuickUnion { objects, sizes }),
        }
    }

    /// The parent pointers.
    pub fn objects(&self) -> (objects: &Vec<usize>)
        ensures
            objects@ == self.parents(),
    {
        &self.objects
    }

    /// The sizes.
    pub fn sizes(&self) -> (sizes: &Vec<usize>)
        ensures
            sizes@ == self.weights(),
    {
        &self.sizes
    }

    /// The root of the tree of the element `object`, found by path halving
    /// from it.
    fn find_root(&mut self, object: &usize) -> (top: usize)
        requires
            old(self).wf(),
            *object < old(self).parents().len(),
        ensures
            final(self).wf(),
            top == root(old(self).parents(), *object as int),
            top < final(self).parents().len(),
            final(self).parents()[top as int] == top,
            final(self).parents() == halved(old(self).parents(), *object as int),
            final(self).weights() == old(self).weights(),
            final(self).weight() == old(self).weight(),
            final(self)@ == old(self)@,
            old(self).sized() ==> final(self).sized(),
            old(self).shallow() ==> final(self).shallow(),
    {
        let ghost rank = ranking(self.objects@);
        proof {
            lemma_ranking(self.objects@);
            lemma_halved(self.objects@, *object as int);
        }
        let mut current: usize = *object;
        while current != self.objects[current]
            invariant
                ranked(self.objects@, rank),
                ranked(old(self).objects@, rank),
                self.objects@.len() == old(self).objects@.len(),
                self.sizes@ == old(self).sizes@,
                current < self.objects@.len(),
                halved_along(self.objects@, rank, current as int) == halved_along(
                    old(self).objects@,
                    rank,
                    *object as int,
                ),
                root(self.objects@, current as int) == root(old(self).objects@, *object as int),
            decreases rank[current as int],
        {
            let parent = self.objects[current];
            let grand = self.objects[parent];
            proof {
                lemma_shortcut_ranked(self.objects@, rank, current as int);
                lemma_shortcut(self.objects@, current as int);
                lemma_root(self.objects@, current as int);
                lemma_root(self.objects@, parent as int);
            }
            self.objects.set(current, grand);
            current = grand;
        }
        proof {
            let before = old(self).objects@;
            assert(self.objects@ == halved(before, *object as int));
            lemma_weight_same(before, self.sizes@, self.objects@, self.sizes@, before.len());
            if old(self).sized() {
                lemma_sized_same(before, self.objects@, self.sizes@);
            }
            if old(self).shallow() {
                lemma_shallow_halved(before, rank, *object as int);
            }
        }
        current
    }

    /// Registers `object` as a new element in a component of its own, where
    /// it is the next identifier; turns it down, and changes nothing, where
    /// it is an element already.
    pub fn add(&mut self, object: usize) -> (result: Result<(), AlgoError>)
        requires
            old(self).wf(),
            old(self).room() > 0,
            object <= old(self)@.count,
        ensures
            final(self).wf(),
            object < old(self)@.count ==> reports_existing(result, object) && *final(self) == *old(
                self,
            ),
            object == old(self)@.count ==> {
                &&& result is Ok
                &&& final(self)@ == old(self)@.extend()
                &&& final(self).parents() == old(self).parents().push(object)
                &&& final(self).weights() == old(self).weights().push(1)
                &&& final(self).weight() == old(self).weight() + 1
                &&& final(self).room() == old(self).room() - 1
            },
            old(self).balanced() ==> final(self).balanced(),
            old(self).sized() ==> final(self).sized(),
            old(self).shallow() ==> final(self).shallow(),
    {
        if object < self.objects.len() {
            return Err(AlgoError::element_already_exist("object", object));
        }
        proof {
            lemma_grown(self.objects@);
            lemma_weight_grown(self.objects@, self.sizes@);
            if self.sized() {
                lemma_sized_grown(self.objects@, self.sizes@);
            }
            if self.shallow() {
                lemma_shallow_grown(self.objects@);
            }
        }
        self.objects.insert(object, object);
        assert(self.objects@ =~= old(self).objects@.push(object));
        self.sizes.insert(object, 1);
        assert(self.sizes@ =~= old(self).sizes@.push(1));
        Ok(())
    }

    /// Merges the components of `first` and `second` by size, after path
    /// halving from both; turns operands that are not elements down, and
    /// then changes nothing.
    pub fn union(&mut self, first: &usize, second: &usize) -> (result: Result<(), AlgoError>)
        requires
            old(self).wf(),
        ensures
            final(self).wf(),
            final(self).weight() == old(self).weight(),
            old(self).balanced() ==> final(self).balanced(),
            old(self).sized() ==> final(self).sized(),
            old(self).sized() && old(self).shallow() ==> final(self).shallow(),
            match operand_fault(old(self)@.count, *first, *second) {
                Some(text) => reports_missing(result, text) && *final(self) == *old(self),
                None => {
                    &&& result is Ok
                    &&& final(self)@ == old(self)@.merge(*first as int, *second as int)
                    &&& final(self)@.joined(*first as int, *second as int)
                    &&& final(self).room() == old(self).room()
                },
            },
            final(self).parents() == united_parents(
                old(self).parents(),
                old(self).weights(),
                *first,
                *second,
            ),
            final(self).weights() == united_sizes(
                old(self).parents(),
                old(self).weights(),
                *first,
                *second,
            ),
    {
        match check_operands(self.objects.len(), *first, *second) {
            Err(error) => Err(error),
            Ok(()) => {
                let ghost start = self.objects@;
                proof {
                    lemma_halved(start, *first as int);
                }
                let first_root = self.find_root(first);
                let ghost halved_once = self.objects@;
                proof {
                    lemma_halved(halved_once, *second as int);
                }
                let second_root = self.find_root(second);
                proof {
                    let halved_twice = self.objects@;
                    assert(root(halved_twice, *first as int) == root(start, *first as int));
                    assert(root(halved_twice, *second as int) == root(start, *second as int));
                    assert(root(halved_once, *second as int) == root(start, *second as int));
                    lemma_weighed(halved_twice, self.sizes@, *first as int, *second as int);
                    lemma_united(start, self.sizes@, *first, *second);
                }
                if first_root != second_root {
                    if self.sizes[first_root] < self.sizes[second_root] {
                        self.objects.set(first_root, second_root);
                        let merged = self.sizes[second_root] + self.sizes[first_root];
                        self.sizes.set(second_root, merged);
                    } else {
                        self.objects.set(second_root, first_root);
                        let merged = self.sizes[first_root] + self.sizes[second_root];
                        self.sizes.set(first_root, merged);
                    }
                }
                Ok(())
            },
        }
    }

    /// Tells whether `first` and `second` lie in one component, after path
    /// halving from both; turns operands that are not elements down, and
    /// then changes nothing.
    pub fn connected(&mut self, first: &usize, second: &usize) -> (result: Result<
        bool,
        AlgoError,
    >)
        requires
            old(self).wf(),
        ensures
            final(self).wf(),
            final(self)@ == old(self)@,
            final(self).weights() == old(self).weights(),
            final(self).weight() == old(self).weight(),
            old(self).balanced() ==> final(self).balanced(),
            old(self).sized() ==> final(self).sized(),
            old(self).shallow() ==> final(self).shallow(),
            match operand_fault(old(self)@.count, *first, *second) {
                Some(text) => reports_missing(result, text) && *final(self) == *old(self),
                None => result matches Ok(answer) && answer == old(self)@.joined(
                    *first as int,
                    *second as int,
                ),
            },
            final(self).parents() == queried(old(self).parents(), *first, *second),
    {
        match check_operands(self.objects.len(), *first, *second) {
            Err(error) => Err(error),
            Ok(()) => {
                proof {
                    lemma_halved(self.objects@, *first as int);
                    lemma_root(self.objects@, *first as int);
                    lemma_root(self.objects@, *second as int);
                }
                let first_root = self.find_root(first);
                proof {
                    lemma_halved(self.objects@, *second as int);
                }
                let second_root = self.find_root(second);
                Ok(first_root == second_root)
            },
        }
    }

    /// Shows the parent pointers for a person to read: for each index in
    /// ascending order the index, a colon, the parent, a comma and a space.
    pub fn to_string(&self) -> (text: String)
        ensures
            text@ == rendered(self.parents(), self.parents().len()),
    {
        render(&self.objects)
    }
}

} // verus!
