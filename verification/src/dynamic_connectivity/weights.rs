//! Forests whose roots record a size: what the roots weigh together, and
//! the merge that hangs the root with the smaller size under the other one.

use vstd::prelude::*;

use crate::dynamic_connectivity::forest::{
    is_forest, lemma_grown, lemma_linked, lemma_linked_merges, lemma_root, lemma_singletons,
    lemma_trees_wf, linked, root, singletons, trees,
};

verus! {

/// What the roots among the first `upto` elements weigh together, where a
/// root `r` weighs `sizes[r]`.
pub open spec fn root_weight(parents: Seq<usize>, sizes: Seq<usize>, upto: nat) -> nat
    decreases upto,
{
    if upto == 0 {
        0
    } else {
        root_weight(parents, sizes, (upto - 1) as nat) + if parents[upto - 1] == upto - 1 {
            sizes[upto - 1] as nat
        } else {
            0
        }
    }
}

/// What all roots weigh together.
pub open spec fn total_weight(parents: Seq<usize>, sizes: Seq<usize>) -> nat {
    root_weight(parents, sizes, parents.len())
}

/// The weight of the roots depends on which elements are roots and on what
/// the roots weigh, and on nothing else.
pub proof fn lemma_weight_same(
    parents: Seq<usize>,
    sizes: Seq<usize>,
    others: Seq<usize>,
    other_sizes: Seq<usize>,
    upto: nat,
)
    requires
        upto <= parents.len(),
        upto <= others.len(),
        upto <= sizes.len(),
        upto <= other_sizes.len(),
        forall|x: int| 0 <= x < upto ==> (#[trigger] others[x] == x) == (parents[x] == x),
        forall|x: int| 0 <= x < upto && parents[x] == x ==> #[trigger] other_sizes[x] == sizes[x],
    ensures
        root_weight(others, other_sizes, upto) == root_weight(parents, sizes, upto),
    decreases upto,
{
    if upto > 0 {
        lemma_weight_same(parents, sizes, others, other_sizes, (upto - 1) as nat);
        assert((others[upto - 1] == upto - 1) == (parents[upto - 1] == upto - 1));
        if parents[upto - 1] == upto - 1 {
            assert(other_sizes[upto - 1] == sizes[upto - 1]);
        }
    }
}

/// One root weighs no more than all roots among the elements up to a bound
/// above it, and two different roots weigh no more together.
pub proof fn lemma_weight_covers(
    parents: Seq<usize>,
    sizes: Seq<usize>,
    upto: nat,
    one: int,
    two: int,
)
    requires
        upto <= parents.len(),
        upto <= sizes.len(),
        0 <= one < upto,
        0 <= two < upto,
        parents[one] == one,
        parents[two] == two,
    ensures
        sizes[one] <= root_weight(parents, sizes, upto),
        one != two ==> sizes[one] + sizes[two] <= root_weight(parents, sizes, upto),
    decreases upto,
{
    let last = upto - 1;
    if one < last && two < last {
        lemma_weight_covers(parents, sizes, last as nat, one, two);
    } else if one < last {
        lemma_weight_covers(parents, sizes, last as nat, one, one);
    } else if two < last {
        lemma_weight_covers(parents, sizes, last as nat, two, two);
    }
}

/// Where the root `below` is hung under another root `above`, which takes
/// over its weight, the roots weigh together what they weighed before.
pub proof fn lemma_weight_linked(
    parents: Seq<usize>,
    sizes: Seq<usize>,
    below: int,
    above: int,
    upto: nat,
)
    requires
        parents.len() == sizes.len(),
        upto <= parents.len(),
        0 <= below < parents.len(),
        0 <= above < parents.len(),
        below != above,
        parents[below] == below,
        parents[above] == above,
        sizes[above] + sizes[below] <= usize::MAX,
    ensures
        root_weight(
            linked(parents, below, above),
            sizes.update(above, (sizes[above] + sizes[below]) as usize),
            upto,
        ) + (if below < upto {
            sizes[below] as int
        } else {
            0
        }) == root_weight(parents, sizes, upto) + (if above < upto {
            sizes[below] as int
        } else {
            0
        }),
    decreases upto,
{
    if upto > 0 {
        lemma_weight_linked(parents, sizes, below, above, (upto - 1) as nat);
    }
}

/// The weight one for each of `count` elements.
pub open spec fn ones(count: nat) -> Seq<usize> {
    Seq::new(count, |i: int| 1usize)
}

/// A forest of roots that weigh one each weighs as much as it has
/// elements.
pub proof fn lemma_weight_singletons(count: nat, upto: nat)
    requires
        upto <= count <= usize::MAX,
    ensures
        root_weight(singletons(count), ones(count), upto) == upto,
    decreases upto,
{
    if upto > 0 {
        lemma_weight_singletons(count, (upto - 1) as nat);
        assert(singletons(count)[upto - 1] == upto - 1);
        assert(ones(count)[upto - 1] == 1);
    }
}

/// One more root of weight one makes the roots weigh one more.
pub proof fn lemma_weight_grown(parents: Seq<usize>, sizes: Seq<usize>)
    requires
        parents.len() == sizes.len(),
        parents.len() < usize::MAX,
    ensures
        total_weight(parents.push(parents.len() as usize), sizes.push(1)) == total_weight(
            parents,
            sizes,
        ) + 1,
{
    let longer = parents.push(parents.len() as usize);
    let heavier = sizes.push(1);
    assert forall|x: int| 0 <= x < parents.len() implies (#[trigger] longer[x] == x) == (parents[x]
        == x) by {}
    assert forall|x: int| 0 <= x < parents.len() && parents[x] == x implies #[trigger] heavier[x]
        == sizes[x] by {}
    lemma_weight_same(parents, sizes, longer, heavier, parents.len());
}

/// Adds up what the roots weigh, unless the sum leaves the machine word.
pub(crate) fn checked_total_weight(parents: &Vec<usize>, sizes: &Vec<usize>) -> (total: Option<
    usize,
>)
    requires
        parents@.len() == sizes@.len(),
    ensures
        total is Some <==> total_weight(parents@, sizes@) <= usize::MAX,
        total matches Some(weight) ==> weight == total_weight(parents@, sizes@),
{
    let n = parents.len();
    let mut weight: usize = 0;
    let mut i: usize = 0;
    while i < n
        invariant
            i <= n,
            n == parents@.len(),
            n == sizes@.len(),
            weight == root_weight(parents@, sizes@, i as nat),
        decreases n - i,
    {
        if parents[i] == i {
            if sizes[i] > usize::MAX - weight {
                proof {
                    lemma_weight_grows(parents@, sizes@, (i + 1) as nat, n as nat);
                }
                return None;
            }
            weight = weight + sizes[i];
        }
        i = i + 1;
    }
    Some(weight)
}

/// The roots among more elements weigh no less.

proof fn lemma_weight_grows(parents: Seq<usize>, sizes: Seq<usize>, upto: nat, more: nat)
    requires
        upto <= more,
    ensures
        root_weight(parents, sizes, upto) <= root_weight(parents, sizes, more),
    decreases more - upto,
{
    if upto < more {
        lemma_weight_grows(parents, sizes, upto, (more - 1) as nat);
    }
}

/// The parent pointers after the trees of the roots `first_root` and
/// `second_root` are merged by size: the root with the smaller size goes
/// under the other one, and on equal sizes the second goes under the first.
/// Where the two are one root, nothing changes.
pub open spec fn weighed_parents(
    parents: Seq<usize>,
    sizes: Seq<usize>,
    first_root: int,
    second_root: int,
) -> Seq<usize> {
    if first_root == second_root {
        parents
    } else if sizes[first_root] < sizes[second_root] {
        linked(parents, first_root, second_root)
    } else {
        linked(parents, second_root, first_root)
    }
}

/// The sizes after that merge: the root that stays a root records the sum
/// of the two sizes.
pub open spec fn weighed_sizes(sizes: Seq<usize>, first_root: int, second_root: int) -> Seq<
    usize,
> {
    if first_root == second_root {
        sizes
    } else if sizes[first_root] < sizes[second_root] {
        sizes.update(second_root, (sizes[second_root] + sizes[first_root]) as usize)
    } else {
        sizes.update(first_root, (sizes[first_root] + sizes[second_root]) as usize)
    }
}

/// Parent pointers and sizes that go together: a forest, a size for each
/// element, and sizes of the roots whose sum fits a machine word.
pub open spec fn weighted_forest(parents: Seq<usize>, sizes: Seq<usize>) -> bool {
    &&& is_forest(parents)
    &&& sizes.len() == parents.len()
    &&& total_weight(parents, sizes) <= usize::MAX
}

/// Merging by size two roots of a weighted forest, those of `a` and `b`,
/// leaves a weighted forest of the same weight, in which the components of
/// `a` and `b` are one.
pub proof fn lemma_weighed(parents: Seq<usize>, sizes: Seq<usize>, a: int, b: int)
    requires
        weighted_forest(parents, sizes),
        0 <= a < parents.len(),
        0 <= b < parents.len(),
    ensures
        ({
            let f = root(parents, a);
            let s = root(parents, b);
            &&& f != s ==> sizes[f] + sizes[s] <= total_weight(parents, sizes)
            &&& weighted_forest(weighed_parents(parents, sizes, f, s), weighed_sizes(sizes, f, s))
            &&& total_weight(weighed_parents(parents, sizes, f, s), weighed_sizes(sizes, f, s))
                == total_weight(parents, sizes)
            &&& trees(weighed_parents(parents, sizes, f, s)) == trees(parents).merge(a, b)
        }),
{
    let f = root(parents, a);
    let s = root(parents, b);
    lemma_root(parents, a);
    lemma_root(parents, b);
    lemma_trees_wf(parents);
    if f == s {
        assert(trees(parents).joined(a, b));
        trees(parents).lemma_merge_joined_is_same(a, b);
    } else {
        lemma_weight_covers(parents, sizes, parents.len(), f, s);
        if sizes[f] < sizes[s] {
            lemma_linked_merges(parents, f, s, a, b);
            lemma_weight_linked(parents, sizes, f, s, parents.len());
        } else {
            lemma_linked_merges(parents, s, f, a, b);
            lemma_weight_linked(parents, sizes, s, f, parents.len());
        }
    }
}

/// How many of the first `upto` elements have the root `top`.
pub open spec fn tree_size(parents: Seq<usize>, top: int, upto: nat) -> nat
    decreases upto,
{
    if upto == 0 {
        0
    } else {
        tree_size(parents, top, (upto - 1) as nat) + if root(parents, upto - 1) == top {
            1nat
        } else {
            0nat
        }
    }
}

/// Every root records the number of elements of its tree.
pub open spec fn sized(parents: Seq<usize>, sizes: Seq<usize>) -> bool {
    forall|top: int|
        0 <= top < parents.len() && parents[top] == top ==> #[trigger] sizes[top] == tree_size(
            parents,
            top,
            parents.len(),
        )
}

/// The size of a tree depends on the roots of the elements and on nothing
/// else.
pub proof fn lemma_tree_size_same(parents: Seq<usize>, others: Seq<usize>, top: int, upto: nat)
    requires
        forall|x: int| 0 <= x < upto ==> #[trigger] root(others, x) == root(parents, x),
    ensures
        tree_size(others, top, upto) == tree_size(parents, top, upto),
    decreases upto,
{
    if upto > 0 {
        lemma_tree_size_same(parents, others, top, (upto - 1) as nat);
        assert(root(others, upto - 1) == root(parents, upto - 1));
    }
}

/// Where the root `below` is hung under the root `above`, the tree of
/// `above` grows by the tree of `below`, and every other tree stays.
pub proof fn lemma_tree_size_linked(
    parents: Seq<usize>,
    below: int,
    above: int,
    top: int,
    upto: nat,
)
    requires
        below != above,
        upto <= parents.len(),
        forall|x: int|
            0 <= x < parents.len() ==> #[trigger] root(linked(parents, below, above), x) == if root(
                parents,
                x,
            ) == below {
                above
            } else {
                root(parents, x)
            },
    ensures
        tree_size(linked(parents, below, above), top, upto) == if top == above {
            tree_size(parents, above, upto) + tree_size(parents, below, upto)
        } else if top == below {
            0
        } else {
            tree_size(parents, top, upto)
        },
    decreases upto,
{
    if upto > 0 {
        lemma_tree_size_linked(parents, below, above, top, (upto - 1) as nat);
        let x = upto - 1;
        assert(root(linked(parents, below, above), x) == if root(parents, x) == below {
            above
        } else {
            root(parents, x)
        });
    }
}

/// No element has a root that is no element, so such a tree is empty; and a
/// tree among the first elements has no more elements than these.
pub proof fn lemma_tree_size_bounds(parents: Seq<usize>, top: int, upto: nat)
    requires
        is_forest(parents),
        upto <= parents.len(),
    ensures
        tree_size(parents, top, upto) <= upto,
        !(0 <= top < parents.len()) ==> tree_size(parents, top, upto) == 0,
    decreases upto,
{
    if upto > 0 {
        lemma_tree_size_bounds(parents, top, (upto - 1) as nat);
        lemma_root(parents, upto - 1);
    }
}

/// In the forest of roots that record the size one, every root records
/// the size of its tree.
pub proof fn lemma_sized_singletons(count: nat)
    requires
        count <= usize::MAX,
    ensures
        sized(singletons(count), ones(count)),
{
    lemma_singletons(count);
    assert forall|top: int| 0 <= top < count implies tree_size(singletons(count), top, count)
        == 1 by {
        lemma_singleton_size(count, top, count);
    }
}

/// In the forest of roots the tree of a root holds the root and nothing

/// else.

proof fn lemma_singleton_size(count: nat, top: int, upto: nat)
    requires
        is_forest(singletons(count)),
        0 <= top < count,
        upto <= count <= usize::MAX,
    ensures
        tree_size(singletons(count), top, upto) == if top < upto {
            1nat
        } else {
            0nat
        },
    decreases upto,
{
    if upto > 0 {
        lemma_singleton_size(count, top, (upto - 1) as nat);
        assert(singletons(count)[upto - 1] == upto - 1);
        assert(root(singletons(count), upto - 1) == upto - 1);
    }
}

/// One more root that records the size one keeps the record of every
/// root right.
pub proof fn lemma_sized_grown(parents: Seq<usize>, sizes: Seq<usize>)
    requires
        is_forest(parents),
        parents.len() == sizes.len(),
        parents.len() < usize::MAX,
        sized(parents, sizes),
    ensures
        sized(parents.push(parents.len() as usize), sizes.push(1)),
{
    let count = parents.len();
    let longer = parents.push(count as usize);
    let heavier = sizes.push(1);
    lemma_grown(parents);
    assert forall|top: int|
        0 <= top < longer.len() && longer[top] == top implies #[trigger] heavier[top] == tree_size(
        longer,
        top,
        longer.len(),
    ) by {
        lemma_tree_size_same(parents, longer, top, count);
        assert(root(longer, count as int) == count);
        if top < count {
            assert(parents[top] == longer[top]);
            assert(heavier[top] == sizes[top]);
        } else {
            lemma_tree_size_bounds(parents, top, count);
        }
    }
}

/// A merge by size keeps the record of every root right.
pub proof fn lemma_sized_weighed(parents: Seq<usize>, sizes: Seq<usize>, a: int, b: int)
    requires
        weighted_forest(parents, sizes),
        sized(parents, sizes),
        0 <= a < parents.len(),
        0 <= b < parents.len(),
    ensures
        sized(
            weighed_parents(parents, sizes, root(parents, a), root(parents, b)),
            weighed_sizes(sizes, root(parents, a), root(parents, b)),
        ),
{
    let f = root(parents, a);
    let s = root(parents, b);
    lemma_root(parents, a);
    lemma_root(parents, b);
    if f != s {
        lemma_weight_covers(parents, sizes, parents.len(), f, s);
        let (below, above) = if sizes[f] < sizes[s] {
            (f, s)
        } else {
            (s, f)
        };
        let after = linked(parents, below, above);
        let recorded = weighed_sizes(sizes, f, s);
        lemma_linked(parents, below, above);
        assert forall|top: int|
            0 <= top < after.len() && after[top] == top implies #[trigger] recorded[top]
                == tree_size(after, top, after.len()) by {
            lemma_tree_size_linked(parents, below, above, top, parents.len());
            assert(parents[top] == top);
            assert(sizes[top] == tree_size(parents, top, parents.len()));
            assert(sizes[below] == tree_size(parents, below, parents.len()));
        }
    }
}

/// Parent pointers with the same root for every element, and the same
/// roots, keep the record of every root right.
pub proof fn lemma_sized_same(parents: Seq<usize>, others: Seq<usize>, sizes: Seq<usize>)
    requires
        sized(parents, sizes),
        others.len() == parents.len(),
        forall|x: int| 0 <= x < parents.len() ==> #[trigger] root(others, x) == root(parents, x),
        forall|x: int| 0 <= x < parents.len() ==> (#[trigger] others[x] == x) == (parents[x] == x),
    ensures
        sized(others, sizes),
{
    assert forall|top: int|
        0 <= top < others.len() && others[top] == top implies #[trigger] sizes[top] == tree_size(
        others,
        top,
        others.len(),
    ) by {
        lemma_tree_size_same(parents, others, top, parents.len());
        assert((others[top] == top) == (parents[top] == top));
    }
}

/// What the trees of the first `upto` roots hold together of the first
/// `among` elements.
pub open spec fn covered(parents: Seq<usize>, among: nat, upto: nat) -> nat
    decreases upto,
{
    if upto == 0 {
        0
    } else {
        covered(parents, among, (upto - 1) as nat) + if parents[upto - 1] == upto - 1 {
            tree_size(parents, upto - 1, among)
        } else {
            0
        }
    }
}

/// One more element counts once: for the tree of its root.

proof fn lemma_covered_step(parents: Seq<usize>, among: nat, upto: nat)
    requires
        is_forest(parents),
        among < parents.len(),
        upto <= parents.len(),
    ensures
        covered(parents, among + 1, upto) == covered(parents, among, upto) + if root(
            parents,
            among as int,
        ) < upto {
            1nat
        } else {
            0nat
        },
    decreases upto,
{
    lemma_root(parents, among as int);
    if upto > 0 {
        lemma_covered_step(parents, among, (upto - 1) as nat);
        let last = upto - 1;
        assert(tree_size(parents, last, among + 1) == tree_size(parents, last, among) + if root(
            parents,
            among as int,
        ) == last {
            1nat
        } else {
            0nat
        });
    }
}

/// The trees of all roots hold together every element once.

proof fn lemma_covered_all(parents: Seq<usize>, among: nat)
    requires
        is_forest(parents),
        among <= parents.len(),
    ensures
        covered(parents, among, parents.len()) == among,
    decreases among,
{
    if among > 0 {
        lemma_covered_all(parents, (among - 1) as nat);
        lemma_covered_step(parents, (among - 1) as nat, parents.len());
        lemma_root(parents, among - 1);
    } else {
        lemma_covered_none(parents, parents.len());
    }
}

/// Of no elements the trees hold none.

proof fn lemma_covered_none(parents: Seq<usize>, upto: nat)
    ensures
        covered(parents, 0, upto) == 0,
    decreases upto,
{
    if upto > 0 {
        lemma_covered_none(parents, (upto - 1) as nat);
    }
}

/// Where every root records the size of its tree, the roots weigh what

/// their trees hold.

proof fn lemma_weight_is_covered(parents: Seq<usize>, sizes: Seq<usize>, upto: nat)
    requires
        sized(parents, sizes),
        upto <= parents.len(),
        parents.len() == sizes.len(),
    ensures
        root_weight(parents, sizes, upto) == covered(parents, parents.len(), upto),
    decreases upto,
{
    if upto > 0 {
        lemma_weight_is_covered(parents, sizes, (upto - 1) as nat);
        if parents[upto - 1] == upto - 1 {
            assert(sizes[upto - 1] == tree_size(parents, upto - 1, parents.len()));
        }
    }
}

/// Where every root records the size of its tree, the roots weigh together
/// as much as there are elements.
pub proof fn lemma_sized_weight(parents: Seq<usize>, sizes: Seq<usize>)
    requires
        is_forest(parents),
        parents.len() == sizes.len(),
        sized(parents, sizes),
    ensures
        total_weight(parents, sizes) == parents.len(),
{
    lemma_weight_is_covered(parents, sizes, parents.len());
    lemma_covered_all(parents, parents.len());
}

} // verus!
