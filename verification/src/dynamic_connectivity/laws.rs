//! What holds of every union-find structure here, whatever its variant.

use vstd::prelude::*;

use crate::dynamic_connectivity::depth::{lemma_shallow_singletons, shallow};
use crate::dynamic_connectivity::forest::{bounded, is_forest, lemma_singletons, singletons, trees};
use crate::dynamic_connectivity::partition::Partition;
use crate::dynamic_connectivity::path_compression_weighted_quick_union;
use crate::dynamic_connectivity::quick_find;
use crate::dynamic_connectivity::quick_find::labelled;
use crate::dynamic_connectivity::quick_union;
use crate::dynamic_connectivity::union_find::Connectivity;
use crate::dynamic_connectivity::weighted_quick_union;
use crate::dynamic_connectivity::weights::{
    lemma_sized_singletons, lemma_weight_singletons, ones, sized, total_weight, weighted_forest,
};

verus! {

/// Reflexivity: every element of a structure is connected to itself.
pub proof fn lemma_reflexive<C: Connectivity>(structure: &C, i: int)
    requires
        structure.wf(),
        structure@.has(i),
    ensures
        structure@.joined(i, i),
{
    structure.lemma_view();
}

/// Symmetry: two elements are connected in one order exactly if they are in
/// the other.
pub proof fn lemma_symmetric<C: Connectivity>(structure: &C, a: int, b: int)
    requires
        structure.wf(),
    ensures
        structure@.joined(a, b) == structure@.joined(b, a),
{
    structure.lemma_view();
    if structure@.joined(a, b) {
        assert(structure@.joined(b, a));
    }
    if structure@.joined(b, a) {
        assert(structure@.joined(a, b));
    }
}

/// Transitivity: once `a` is merged with `b` and then `b` with `c`, `a` and
/// `c` are connected.
pub proof fn lemma_transitive<C: Connectivity>(structure: &C, a: usize, b: usize, c: usize)
    requires
        structure.wf(),
        structure@.has(a as int),
        structure@.has(b as int),
        structure@.has(c as int),
    ensures
        structure@.unite(a, b).unite(b, c).joined(a as int, c as int),
{
    structure.lemma_view();
    let once = structure@.unite(a, b);
    structure@.lemma_merge_wf(a as int, b as int);
    structure@.lemma_merge_joins(a as int, b as int);
    assert(once.joined(c as int, c as int));
}

/// Merges are irreversible: what is connected stays connected through any
/// further merge and through any further element.
pub proof fn lemma_stays_connected<C: Connectivity>(
    structure: &C,
    a: int,
    b: int,
    first: usize,
    second: usize,
)
    requires
        structure@.joined(a, b),
    ensures
        structure@.unite(first, second).joined(a, b),
        structure@.extend().joined(a, b),
{
    structure@.lemma_merge_keeps(first as int, second as int, a, b);
}

/// A merge does not depend on the order of its operands.
pub proof fn lemma_union_commutes<C: Connectivity>(structure: &C, first: usize, second: usize)
    ensures
        structure@.unite(first, second) == structure@.unite(second, first),
{
    structure@.lemma_merge_commutes(first as int, second as int);
}

/// A merge of two elements that are connected changes no component.
pub proof fn lemma_union_of_connected<C: Connectivity>(structure: &C, first: usize, second: usize)
    requires
        structure.wf(),
        structure@.joined(first as int, second as int),
    ensures
        structure@.unite(first, second) == structure@,
{
    structure.lemma_view();
    structure@.lemma_merge_joined_is_same(first as int, second as int);
}

/// A new element is connected to itself and to no other element, and the
/// elements that were there are connected as they were.
pub proof fn lemma_added_is_alone<C: Connectivity>(structure: &C, a: int, b: int)
    requires
        structure.wf(),
    ensures
        structure@.extend().wf(),
        structure@.extend().joined(a, b) == (structure@.joined(a, b) || (a == structure@.count
            && b == structure@.count)),
{
    structure.lemma_view();
    structure@.lemma_extend_wf();
}

/// Whatever `union` calls a structure of `count` elements gets, it stands
/// for an equivalence relation on its elements.
pub proof fn lemma_history_is_partition(count: nat, unions: Seq<(usize, usize)>)
    ensures
        Partition::discrete(count).unite_all(unions).wf(),
        Partition::discrete(count).unite_all(unions).count == count,
    decreases unions.len(),
{
    if unions.len() == 0 {
        Partition::lemma_discrete_wf(count);
    } else {
        lemma_history_is_partition(count, unions.drop_last());
        let before = Partition::discrete(count).unite_all(unions.drop_last());
        if before.has(unions.last().0 as int) && before.has(unions.last().1 as int) {
            before.lemma_merge_wf(unions.last().0 as int, unions.last().1 as int);
        }
    }
}

/// The slots of a quick-find structure of `count` elements after the given
/// `union` calls.
pub open spec fn quick_find_after(count: nat, unions: Seq<(usize, usize)>) -> Seq<usize>
    decreases unions.len(),
{
    if unions.len() == 0 {
        singletons(count)
    } else {
        quick_find::united(
            quick_find_after(count, unions.drop_last()),
            unions.last().0,
            unions.last().1,
        )
    }
}

/// The parent pointers of a quick-union structure of `count` elements after
/// the given `union` calls.
pub open spec fn quick_union_after(count: nat, unions: Seq<(usize, usize)>) -> Seq<usize>
    decreases unions.len(),
{
    if unions.len() == 0 {
        singletons(count)
    } else {
        quick_union::united(
            quick_union_after(count, unions.drop_last()),
            unions.last().0,
            unions.last().1,
        )
    }
}

/// The parent pointers and the sizes of a weighted quick-union structure of
/// `count` elements after the given `union` calls.
pub open spec fn weighted_after(count: nat, unions: Seq<(usize, usize)>) -> (
    Seq<usize>,
    Seq<usize>,
)
    decreases unions.len(),
{
    if unions.len() == 0 {
        (singletons(count), ones(count))
    } else {
        let before = weighted_after(count, unions.drop_last());
        (
            weighted_quick_union::united_parents(
                before.0,
                before.1,
                unions.last().0,
                unions.last().1,
            ),
            weighted_quick_union::united_sizes(
                before.0,
                before.1,
                unions.last().0,
                unions.last().1,
            ),
        )
    }
}

/// The parent pointers and the sizes of a weighted quick-union structure
/// with path halving, of `count` elements, after the given `union` calls.
pub open spec fn compressed_after(count: nat, unions: Seq<(usize, usize)>) -> (
    Seq<usize>,
    Seq<usize>,
)
    decreases unions.len(),
{
    if unions.len() == 0 {
        (singletons(count), ones(count))
    } else {
        let before = compressed_after(count, unions.drop_last());
        (
            path_compression_weighted_quick_union::united_parents(
                before.0,
                before.1,
                unions.last().0,
                unions.last().1,
            ),
            path_compression_weighted_quick_union::united_sizes(
                before.0,
                before.1,
                unions.last().0,
                unions.last().1,
            ),
        )
    }
}

/// Agreement of the variants: structures of the four variants that start
/// with the same number of elements and get the same `union` calls stand for
/// the same partition, so every query has the same answer from each of them,
/// whatever their arrays hold. In the two weighted variants every root then
/// records the size of its tree, these sizes add up to the number of
/// elements, and the trees are shallow.
pub proof fn lemma_variants_agree(count: nat, unions: Seq<(usize, usize)>)
    requires
        count <= usize::MAX,
    ensures
        bounded(quick_find_after(count, unions)),
        is_forest(quick_union_after(count, unions)),
        weighted_forest(weighted_after(count, unions).0, weighted_after(count, unions).1),
        weighted_forest(compressed_after(count, unions).0, compressed_after(count, unions).1),
        labelled(quick_find_after(count, unions)) == Partition::discrete(count).unite_all(unions),
        trees(quick_union_after(count, unions)) == Partition::discrete(count).unite_all(unions),
        trees(weighted_after(count, unions).0) == Partition::discrete(count).unite_all(unions),
        trees(compressed_after(count, unions).0) == Partition::discrete(count).unite_all(unions),
        total_weight(weighted_after(count, unions).0, weighted_after(count, unions).1) == count,
        total_weight(compressed_after(count, unions).0, compressed_after(count, unions).1)
            == count,
        sized(weighted_after(count, unions).0, weighted_after(count, unions).1),
        sized(compressed_after(count, unions).0, compressed_after(count, unions).1),
        shallow(weighted_after(count, unions).0),
        shallow(compressed_after(count, unions).0),
    decreases unions.len(),
{
    if unions.len() == 0 {
        lemma_singletons(count);
        lemma_weight_singletons(count, count);
        lemma_sized_singletons(count);
        lemma_shallow_singletons(count);
        assert(labelled(singletons(count)).links =~= Partition::discrete(count).links);
    } else {
        let earlier = unions.drop_last();
        let first = unions.last().0;
        let second = unions.last().1;
        lemma_variants_agree(count, earlier);
        quick_find::lemma_united(quick_find_after(count, earlier), first, second);
        quick_union::lemma_united(quick_union_after(count, earlier), first, second);
        let weighted = weighted_after(count, earlier);
        weighted_quick_union::lemma_united(weighted.0, weighted.1, first, second);
        let compressed = compressed_after(count, earlier);
        path_compression_weighted_quick_union::lemma_united(
            compressed.0,
            compressed.1,
            first,
            second,
        );
    }
}

} // verus!
