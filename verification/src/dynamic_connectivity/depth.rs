//! How deep the trees of a forest are. Where the smaller tree goes under the
//! root of the larger one, a tree has at least two to the power of the depth
//! of each of its elements many elements, so no element is deeper than the
//! binary logarithm of the number of elements.

use vstd::arithmetic::power2::{lemma2_to64, lemma_pow2_strictly_increases, lemma_pow2_unfold, pow2};
use vstd::prelude::*;

use crate::dynamic_connectivity::forest::{
    halved_along, is_forest, lemma_grown, lemma_linked, lemma_ranking, lemma_root,
    lemma_shortcut, lemma_shortcut_ranked, lemma_singletons, linked, ranked, ranking, root,
    shortcut, singletons,
};
use crate::dynamic_connectivity::weights::{
    lemma_tree_size_bounds, lemma_tree_size_linked, lemma_tree_size_same, sized, tree_size,
    weighed_parents, weighted_forest,
};

verus! {

/// How many parent pointers lead from `i` to its root.
pub open spec fn depth(parents: Seq<usize>, i: int) -> nat
    decreases ranking(parents)[i],
    when is_forest(parents) && 0 <= i < parents.len()
{
    if parents[i] == i {
        0
    } else {
        proof {
            lemma_ranking(parents);
        }
        1 + depth(parents, parents[i] as int)
    }
}

/// The tree of every element has at least two to the power of the depth of
/// the element many elements.
pub open spec fn shallow(parents: Seq<usize>) -> bool {
    forall|x: int|
        0 <= x < parents.len() ==> pow2(#[trigger] depth(parents, x)) <= tree_size(
            parents,
            root(parents, x),
            parents.len(),
        )
}

/// In a forest of shallow trees two to the power of the depth of an element
/// is not more than the number of elements.
pub proof fn lemma_shallow_depth(parents: Seq<usize>, x: int)
    requires
        is_forest(parents),
        shallow(parents),
        0 <= x < parents.len(),
    ensures
        pow2(depth(parents, x)) <= parents.len(),
{
    lemma_tree_size_bounds(parents, root(parents, x), parents.len());
    assert(pow2(depth(parents, x)) <= tree_size(parents, root(parents, x), parents.len()));
}

/// Two to the power of the greater number is the greater power.
proof fn lemma_pow2_grows(less: nat, more: nat)
    requires
        less <= more,
    ensures
        pow2(less) <= pow2(more),
{
    if less < more {
        lemma_pow2_strictly_increases(less, more);
    }
}

/// A forest of roots is shallow.
pub proof fn lemma_shallow_singletons(count: nat)
    requires
        count <= usize::MAX,
    ensures
        shallow(singletons(count)),
{
    let parents = singletons(count);
    lemma_singletons(count);
    lemma2_to64();
    assert forall|x: int| 0 <= x < parents.len() implies pow2(#[trigger] depth(parents, x))
        <= tree_size(parents, root(parents, x), parents.len()) by {
        assert(parents[x] == x);
        assert(depth(parents, x) == 0);
        assert(root(parents, x) == x);
        lemma_own_tree(parents, x, parents.len());
    }
}

/// An element counts for the tree of its root.
proof fn lemma_own_tree(parents: Seq<usize>, x: int, upto: nat)
    requires
        0 <= x < upto,
    ensures
        tree_size(parents, root(parents, x), upto) >= 1,
    decreases upto,
{
    if x < upto - 1 {
        lemma_own_tree(parents, x, (upto - 1) as nat);
    }
}

/// One more root at the end leaves every element as deep as it was.

proof fn lemma_grown_depth(parents: Seq<usize>, x: int)
    requires
        is_forest(parents),
        is_forest(parents.push(parents.len() as usize)),
        parents.len() < usize::MAX,
        0 <= x < parents.len(),
    ensures
        depth(parents.push(parents.len() as usize), x) == depth(parents, x),
    decreases ranking(parents)[x],
{
    let longer = parents.push(parents.len() as usize);
    lemma_ranking(parents);
    assert(longer[x] == parents[x]);
    assert(parents[x] < parents.len());
    if parents[x] != x {
        lemma_grown_depth(parents, parents[x] as int);
    }
}

/// A shallow forest with one more root is shallow.
pub proof fn lemma_shallow_grown(parents: Seq<usize>)
    requires
        is_forest(parents),
        parents.len() < usize::MAX,
        shallow(parents),
    ensures
        shallow(parents.push(parents.len() as usize)),
{
    let count = parents.len();
    let longer = parents.push(count as usize);
    lemma_grown(parents);
    lemma2_to64();
    assert forall|x: int| 0 <= x < longer.len() implies pow2(#[trigger] depth(longer, x))
        <= tree_size(longer, root(longer, x), longer.len()) by {
        if x < count {
            lemma_grown_depth(parents, x);
            lemma_tree_size_same(parents, longer, root(parents, x), count);
            assert(pow2(depth(parents, x)) <= tree_size(parents, root(parents, x), count));
        } else {
            assert(longer[x] == x);
            assert(depth(longer, x) == 0);
            lemma_own_tree(longer, x, longer.len());
        }
    }
}

/// Where the root `below` is hung under the root `above`, the elements of

/// its tree get one deeper, and every other element stays as deep as it was.

proof fn lemma_linked_depth(parents: Seq<usize>, below: int, above: int, rank: Seq<nat>, x: int)
    requires
        is_forest(parents),
        is_forest(linked(parents, below, above)),
        ranked(parents, rank),
        0 <= below < parents.len(),
        0 <= above < parents.len(),
        below != above,
        parents[below] == below,
        parents[above] == above,
        0 <= x < parents.len(),
    ensures
        depth(linked(parents, below, above), x) == if root(parents, x) == below {
            depth(parents, x) + 1
        } else {
            depth(parents, x)
        },
    decreases rank[x],
{
    let after = linked(parents, below, above);
    lemma_root(parents, x);
    if x == below {
        assert(after[x] == above);
        assert(after[above] == above);
        assert(depth(after, above) == 0);
        assert(depth(after, x) == 1 + depth(after, above));
        assert(depth(parents, x) == 0);
    } else {
        assert(after[x] == parents[x]);
        if parents[x] != x {
            lemma_linked_depth(parents, below, above, rank, parents[x] as int);
        } else {
            assert(depth(after, x) == 0);
        }
    }
}

/// A merge by size of trees whose roots record their sizes keeps a shallow
/// forest shallow.
pub proof fn lemma_shallow_weighed(parents: Seq<usize>, sizes: Seq<usize>, a: int, b: int)
    requires
        weighted_forest(parents, sizes),
        sized(parents, sizes),
        shallow(parents),
        0 <= a < parents.len(),
        0 <= b < parents.len(),
    ensures
        shallow(weighed_parents(parents, sizes, root(parents, a), root(parents, b))),
{
    let f = root(parents, a);
    let s = root(parents, b);
    lemma_root(parents, a);
    lemma_root(parents, b);
    if f != s {
        let (below, above) = if sizes[f] < sizes[s] {
            (f, s)
        } else {
            (s, f)
        };
        let after = linked(parents, below, above);
        let count = parents.len();
        lemma_linked(parents, below, above);
        lemma_ranking(parents);
        assert(sizes[below] == tree_size(parents, below, count));
        assert(sizes[above] == tree_size(parents, above, count));
        assert forall|x: int| 0 <= x < after.len() implies pow2(#[trigger] depth(after, x))
            <= tree_size(after, root(after, x), after.len()) by {
            lemma_linked_depth(parents, below, above, ranking(parents), x);
            lemma_root(parents, x);
            assert(root(after, x) == if root(parents, x) == below {
                above
            } else {
                root(parents, x)
            });
            lemma_tree_size_linked(parents, below, above, root(after, x), count);
            assert(pow2(depth(parents, x)) <= tree_size(parents, root(parents, x), count));
            if root(parents, x) == below {
                lemma_pow2_unfold(depth(after, x));
            }
        }
    }
}

/// A shortcut makes no element deeper.

proof fn lemma_shortcut_depth(parents: Seq<usize>, rank: Seq<nat>, i: int, x: int)
    requires
        ranked(parents, rank),
        0 <= i < parents.len(),
        0 <= x < parents.len(),
    ensures
        depth(shortcut(parents, i), x) <= depth(parents, x),
    decreases rank[x],
{
    let after = shortcut(parents, i);
    lemma_shortcut_ranked(parents, rank, i);
    assert(parents[x] < parents.len());
    if parents[x] != x {
        if x == i {
            let parent = parents[i] as int;
            let grand = parents[parent] as int;
            assert(parents[parent] < parents.len());
            lemma_shortcut_depth(parents, rank, i, grand);
            assert(after[x] == grand);
            assert(depth(after, x) == 1 + depth(after, grand));
            assert(depth(parents, x) == 1 + depth(parents, parent));
            if parents[parent] != parent {
                assert(depth(parents, parent) == 1 + depth(parents, grand));
            }
        } else {
            lemma_shortcut_depth(parents, rank, i, parents[x] as int);
            assert(after[x] == parents[x]);
            assert(depth(after, x) == 1 + depth(after, parents[x] as int));
        }
    } else {
        assert(after[x] == x);
        assert(depth(after, x) == 0);
    }
}

/// A shortcut keeps a shallow forest shallow.
pub proof fn lemma_shallow_shortcut(parents: Seq<usize>, i: int)
    requires
        is_forest(parents),
        shallow(parents),
        0 <= i < parents.len(),
    ensures
        shallow(shortcut(parents, i)),
{
    let after = shortcut(parents, i);
    lemma_ranking(parents);
    lemma_shortcut(parents, i);
    assert forall|x: int| 0 <= x < after.len() implies pow2(#[trigger] depth(after, x))
        <= tree_size(after, root(after, x), after.len()) by {
        lemma_shortcut_depth(parents, ranking(parents), i, x);
        lemma_pow2_grows(depth(after, x), depth(parents, x));
        lemma_tree_size_same(parents, after, root(parents, x), parents.len());
        assert(root(after, x) == root(parents, x));
        assert(pow2(depth(parents, x)) <= tree_size(parents, root(parents, x), parents.len()));
    }
}

/// Path halving keeps a shallow forest shallow.
pub proof fn lemma_shallow_halved(parents: Seq<usize>, rank: Seq<nat>, i: int)
    requires
        ranked(parents, rank),
        shallow(parents),
        0 <= i < parents.len(),
    ensures
        shallow(halved_along(parents, rank, i)),
    decreases rank[i],
{
    if parents[i] != i {
        let parent = parents[i] as int;
        assert(parents[parent] < parents.len());
        lemma_shortcut_ranked(parents, rank, i);
        lemma_shallow_shortcut(parents, i);
        lemma_shallow_halved(shortcut(parents, i), rank, parents[parent] as int);
    }
}

} // verus!
