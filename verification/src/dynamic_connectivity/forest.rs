//! Parent-pointer forests over the elements `0 .. n`: element `i` has the
//! parent `parents[i]`, and an element that is its own parent is a root.
//! Three of the union-find variants keep their components in this shape.

use vstd::prelude::*;
use vstd::set_lib::{lemma_int_range, lemma_len_subset, set_int_range};

use crate::dynamic_connectivity::partition::Partition;

verus! {

/// `rank` decreases strictly along every parent pointer that leaves its
/// element, and every parent pointer stays within the elements.
pub open spec fn ranked(parents: Seq<usize>, rank: Seq<nat>) -> bool {
    &&& rank.len() == parents.len()
    &&& forall|i: int|
        0 <= i < parents.len() ==> {
            &&& (#[trigger] parents[i]) < parents.len()
            &&& parents[i] != i ==> rank[parents[i] as int] < rank[i]
        }
}

/// The parent pointers form a forest: following them from any element ends
/// at a root, because some ranking decreases along them.
pub open spec fn is_forest(parents: Seq<usize>) -> bool {
    exists|rank: Seq<nat>| ranked(parents, rank)
}

/// Some ranking of a forest.
pub closed spec fn ranking(parents: Seq<usize>) -> Seq<nat> {
    choose|rank: Seq<nat>| ranked(parents, rank)
}

/// In a forest, `ranking` is a ranking of it.
pub proof fn lemma_ranking(parents: Seq<usize>)
    requires
        is_forest(parents),
    ensures
        ranked(parents, ranking(parents)),
{
}

/// The root that the parent pointers lead to from `i`.
pub open spec fn root(parents: Seq<usize>, i: int) -> int
    decreases ranking(parents)[i],
    when is_forest(parents) && 0 <= i < parents.len()
{
    if parents[i] == i {
        i
    } else {
        root(parents, parents[i] as int)
    }
}

/// The partition whose components are the trees of the forest.
pub open spec fn trees(parents: Seq<usize>) -> Partition {
    Partition {
        count: parents.len(),
        links: Set::new(
            |p: (int, int)|
                0 <= p.0 < parents.len() && 0 <= p.1 < parents.len() && root(parents, p.0) == root(
                    parents,
                    p.1,
                ),
        ),
    }
}

/// The root of an element is an element, is its own parent, and is the root
/// of the element's parent too.
pub proof fn lemma_root(parents: Seq<usize>, i: int)
    requires
        is_forest(parents),
        0 <= i < parents.len(),
    ensures
        0 <= root(parents, i) < parents.len(),
        parents[root(parents, i)] == root(parents, i),
        root(parents, root(parents, i)) == root(parents, i),
        root(parents, parents[i] as int) == root(parents, i),
    decreases ranking(parents)[i],
{
    if parents[i] != i {
        lemma_root(parents, parents[i] as int);
    }
}

/// The trees of a forest are a well-formed partition of its elements.
pub proof fn lemma_trees_wf(parents: Seq<usize>)
    requires
        is_forest(parents),
    ensures
        trees(parents).wf(),
        trees(parents).count == parents.len(),
{
}

/// The forest of `count` roots.
pub open spec fn singletons(count: nat) -> Seq<usize> {
    Seq::new(count, |i: int| i as usize)
}

/// `singletons` is a forest, and its trees are the discrete partition.
pub proof fn lemma_singletons(count: nat)
    requires
        count <= usize::MAX,
    ensures
        is_forest(singletons(count)),
        trees(singletons(count)) == Partition::discrete(count),
{
    let parents = singletons(count);
    let rank = Seq::new(count, |i: int| 0nat);
    assert(ranked(parents, rank));
    assert forall|p: (int, int)|
        trees(parents).links.contains(p) == Partition::discrete(count).links.contains(p) by {
        if 0 <= p.0 < count && 0 <= p.1 < count {
            assert(root(parents, p.0) == p.0);
            assert(root(parents, p.1) == p.1);
        }
    }
    assert(trees(parents).links =~= Partition::discrete(count).links);
}

/// The roots of `longer` agree with those of `parents` on the elements of
/// `parents`, where `longer` is `parents` with one more root at its end.
proof fn lemma_grown_root(parents: Seq<usize>, i: int)
    requires
        is_forest(parents),
        is_forest(parents.push(parents.len() as usize)),
        parents.len() < usize::MAX,
        0 <= i < parents.len(),
    ensures
        root(parents.push(parents.len() as usize), i) == root(parents, i),
    decreases ranking(parents)[i],
{
    let longer = parents.push(parents.len() as usize);
    assert(longer[i] == parents[i]);
    if parents[i] != i {
        lemma_grown_root(parents, parents[i] as int);
    }
}

/// A forest with one more root at its end is a forest, and its trees are the
/// old ones and the new element alone.
pub proof fn lemma_grown(parents: Seq<usize>)
    requires
        is_forest(parents),
        parents.len() < usize::MAX,
    ensures
        is_forest(parents.push(parents.len() as usize)),
        trees(parents.push(parents.len() as usize)) == trees(parents).extend(),
        root(parents.push(parents.len() as usize), parents.len() as int) == parents.len(),
        forall|x: int|
            0 <= x < parents.len() ==> #[trigger] root(parents.push(parents.len() as usize), x)
                == root(parents, x),
{
    let n = parents.len() as int;
    let longer = parents.push(parents.len() as usize);
    let rank = ranking(parents).push(0nat);
    assert(ranked(longer, rank)) by {
        assert forall|i: int| 0 <= i < longer.len() implies (#[trigger] longer[i]) < longer.len()
            && (longer[i] != i ==> rank[longer[i] as int] < rank[i]) by {
            if i < n {
                assert(longer[i] == parents[i]);
            }
        }
    }
    assert(root(longer, n) == n);
    assert forall|x: int| 0 <= x < parents.len() implies #[trigger] root(longer, x) == root(
        parents,
        x,
    ) by {
        lemma_grown_root(parents, x);
    }
    assert forall|p: (int, int)|
        trees(longer).links.contains(p) == trees(parents).extend().links.contains(p) by {
        if 0 <= p.0 < n {
            lemma_grown_root(parents, p.0);
            lemma_root(parents, p.0);
        }
        if 0 <= p.1 < n {
            lemma_grown_root(parents, p.1);
            lemma_root(parents, p.1);
        }
    }
    assert(trees(longer).links =~= trees(parents).extend().links);
}

/// `parents` with the root `below` hung under the root `above`.
pub open spec fn linked(parents: Seq<usize>, below: int, above: int) -> Seq<usize> {
    parents.update(below, above as usize)
}

/// A ranking of the forest that ranks it also with the root `below` hung

/// under the root `above`: the tree of `below` is lifted above `above`.

proof fn lemma_linked_ranked(parents: Seq<usize>, below: int, above: int) -> (rank: Seq<nat>)
    requires
        is_forest(parents),
        0 <= below < parents.len(),
        0 <= above < parents.len(),
        parents[below] == below,
        parents[above] == above,
    ensures
        ranked(linked(parents, below, above), rank),
        ranked(parents, rank),
{
    let old_rank = ranking(parents);
    let lift = old_rank[above] + 1;
    let rank = Seq::new(
        parents.len(),
        |i: int|
            if root(parents, i) == below && below != above {
                old_rank[i] + lift
            } else {
                old_rank[i]
            },
    );
    let after = linked(parents, below, above);
    assert forall|i: int| 0 <= i < parents.len() implies {
        &&& (#[trigger] after[i]) < after.len()
        &&& after[i] != i ==> rank[after[i] as int] < rank[i]
        &&& parents[i] != i ==> rank[parents[i] as int] < rank[i]
    } by {
        lemma_root(parents, i);
        assert(parents[i] < parents.len());
        if i == below {
            assert(root(parents, above) == above);
            assert(root(parents, below) == below);
        }
    }
    assert forall|i: int| 0 <= i < parents.len() implies {
        &&& (#[trigger] parents[i]) < parents.len()
        &&& parents[i] != i ==> rank[parents[i] as int] < rank[i]
    } by {
        assert(after[i] < after.len());
    }
    rank
}

/// Where the root `below` is hung under the root `above`, the elements of

/// its tree get the root `above`, and every other element keeps its root.

proof fn lemma_linked_root(parents: Seq<usize>, below: int, above: int, rank: Seq<nat>, i: int)
    requires
        is_forest(parents),
        0 <= below < parents.len(),
        0 <= above < parents.len(),
        parents[below] == below,
        parents[above] == above,
        ranked(parents, rank),
        is_forest(linked(parents, below, above)),
        0 <= i < parents.len(),
    ensures
        root(linked(parents, below, above), i) == if root(parents, i) == below {
            above
        } else {
            root(parents, i)
        },
    decreases rank[i],
{
    let after = linked(parents, below, above);
    lemma_root(parents, i);
    if i == below {
        assert(root(parents, i) == i);
        if below != above {
            assert(after[above] == above);
            assert(root(after, above) == above);
            assert(root(after, i) == root(after, above));
        } else {
            assert(root(after, i) == i);
        }
    } else {
        assert(after[i] == parents[i]);
        if parents[i] != i {
            lemma_linked_root(parents, below, above, rank, parents[i] as int);
        } else {
            assert(root(after, i) == i);
        }
    }
}

/// Hanging one root under another leaves a forest, whose trees are the old
/// ones with the two trees merged.
pub proof fn lemma_linked(parents: Seq<usize>, below: int, above: int)
    requires
        is_forest(parents),
        0 <= below < parents.len(),
        0 <= above < parents.len(),
        parents[below] == below,
        parents[above] == above,
    ensures
        is_forest(linked(parents, below, above)),
        forall|i: int|
            0 <= i < parents.len() ==> #[trigger] root(linked(parents, below, above), i) == if root(
                parents,
                i,
            ) == below {
                above
            } else {
                root(parents, i)
            },
{
    let rank = lemma_linked_ranked(parents, below, above);
    assert forall|i: int| 0 <= i < parents.len() implies #[trigger] root(
        linked(parents, below, above),
        i,
    ) == if root(parents, i) == below {
        above
    } else {
        root(parents, i)
    } by {
        lemma_linked_root(parents, below, above, rank, i);
    }
}

/// Hanging the root of `a` under the root of `b`, or the other way round,
/// merges the components of `a` and `b`.
pub proof fn lemma_linked_merges(parents: Seq<usize>, below: int, above: int, a: int, b: int)
    requires
        is_forest(parents),
        0 <= a < parents.len(),
        0 <= b < parents.len(),
        (below == root(parents, a) && above == root(parents, b)) || (below == root(parents, b)
            && above == root(parents, a)),
    ensures
        is_forest(linked(parents, below, above)),
        trees(linked(parents, below, above)) == trees(parents).merge(a, b),
{
    lemma_root(parents, a);
    lemma_root(parents, b);
    lemma_linked(parents, below, above);
    let after = linked(parents, below, above);
    assert forall|p: (int, int)|
        trees(after).links.contains(p) == trees(parents).merge(a, b).links.contains(p) by {
        if 0 <= p.0 < parents.len() && 0 <= p.1 < parents.len() {
            assert(root(after, p.0) == if root(parents, p.0) == below {
                above
            } else {
                root(parents, p.0)
            });
            assert(root(after, p.1) == if root(parents, p.1) == below {
                above
            } else {
                root(parents, p.1)
            });
        }
    }
    assert(trees(after).links =~= trees(parents).merge(a, b).links);
}

/// `parents` with the parent pointer of `i` moved to the parent of its parent.
pub open spec fn shortcut(parents: Seq<usize>, i: int) -> Seq<usize> {
    parents.update(i, parents[parents[i] as int])
}

/// A ranking of a forest ranks the forest with a shortcut in it too.
pub proof fn lemma_shortcut_ranked(parents: Seq<usize>, rank: Seq<nat>, i: int)
    requires
        ranked(parents, rank),
        0 <= i < parents.len(),
    ensures
        ranked(shortcut(parents, i), rank),
        parents[i] != i ==> rank[parents[parents[i] as int] as int] < rank[i],
{
    let after = shortcut(parents, i);
    let parent = parents[i] as int;
    assert(parents[parent] < parents.len());
    assert forall|x: int| 0 <= x < after.len() implies {
        &&& (#[trigger] after[x]) < after.len()
        &&& after[x] != x ==> rank[after[x] as int] < rank[x]
    } by {
        assert(parents[x] < parents.len());
    }
}

/// A shortcut leaves every element its root.

proof fn lemma_shortcut_root(parents: Seq<usize>, rank: Seq<nat>, i: int, x: int)
    requires
        ranked(parents, rank),
        0 <= i < parents.len(),
        0 <= x < parents.len(),
    ensures
        root(shortcut(parents, i), x) == root(parents, x),
    decreases rank[x],
{
    let after = shortcut(parents, i);
    lemma_shortcut_ranked(parents, rank, i);
    lemma_root(parents, x);
    assert(parents[x] < parents.len());
    if parents[x] != x {
        if x == i {
            let parent = parents[i] as int;
            let grand = parents[parent] as int;
            lemma_root(parents, parent);
            lemma_shortcut_root(parents, rank, i, grand);
            assert(after[x] == grand);
            assert(grand != x);
        } else {
            lemma_shortcut_root(parents, rank, i, parents[x] as int);
            assert(after[x] == parents[x]);
        }
    } else {
        assert(after[x] == x);
    }
}

/// A shortcut leaves a forest a forest, with every root and every tree as it
/// was.
pub proof fn lemma_shortcut(parents: Seq<usize>, i: int)
    requires
        is_forest(parents),
        0 <= i < parents.len(),
    ensures
        is_forest(shortcut(parents, i)),
        forall|x: int|
            0 <= x < parents.len() ==> #[trigger] root(shortcut(parents, i), x) == root(parents, x),
        forall|x: int|
            0 <= x < parents.len() ==> (#[trigger] shortcut(parents, i)[x] == x) == (parents[x]
                == x),
        trees(shortcut(parents, i)) == trees(parents),
{
    let rank = ranking(parents);
    let after = shortcut(parents, i);
    lemma_shortcut_ranked(parents, rank, i);
    assert forall|x: int| 0 <= x < parents.len() implies #[trigger] root(after, x) == root(
        parents,
        x,
    ) by {
        lemma_shortcut_root(parents, rank, i, x);
    }
    assert forall|x: int| 0 <= x < parents.len() implies (#[trigger] after[x] == x) == (parents[x]
        == x) by {
        assert(parents[x] < parents.len());
    }
    assert(trees(after).links =~= trees(parents).links);
}

/// Path halving from `i`, along a ranking: every other element on the way
/// to the root gets the parent of its parent as its parent.
pub open spec fn halved_along(parents: Seq<usize>, rank: Seq<nat>, i: int) -> Seq<usize>
    decreases rank[i],
    when ranked(parents, rank) && 0 <= i < parents.len()
{
    if parents[i] == i {
        parents
    } else {
        proof {
            lemma_shortcut_ranked(parents, rank, i);
        }
        halved_along(shortcut(parents, i), rank, parents[parents[i] as int] as int)
    }
}

/// Path halving from `i` in a forest.
pub open spec fn halved(parents: Seq<usize>, i: int) -> Seq<usize> {
    halved_along(parents, ranking(parents), i)
}

/// Path halving does not depend on the ranking it goes along.
pub proof fn lemma_halved_along(parents: Seq<usize>, rank: Seq<nat>, other: Seq<nat>, i: int)
    requires
        ranked(parents, rank),
        ranked(parents, other),
        0 <= i < parents.len(),
    ensures
        halved_along(parents, rank, i) == halved_along(parents, other, i),
    decreases rank[i],
{
    if parents[i] != i {
        lemma_shortcut_ranked(parents, rank, i);
        lemma_shortcut_ranked(parents, other, i);
        let parent = parents[i] as int;
        assert(parents[parent] < parents.len());
        lemma_halved_along(shortcut(parents, i), rank, other, parents[parent] as int);
    }
}

/// Path halving leaves a forest a forest of the same elements, with every
/// root and every tree as it was.
pub proof fn lemma_halved(parents: Seq<usize>, i: int)
    requires
        is_forest(parents),
        0 <= i < parents.len(),
    ensures
        is_forest(halved(parents, i)),
        halved(parents, i).len() == parents.len(),
        forall|x: int|
            0 <= x < parents.len() ==> #[trigger] root(halved(parents, i), x) == root(parents, x),
        forall|x: int|
            0 <= x < parents.len() ==> (#[trigger] halved(parents, i)[x] == x) == (parents[x] == x),
        trees(halved(parents, i)) == trees(parents),
{
    lemma_halved_steps(parents, ranking(parents), i);
}

/// Path halving along a ranking keeps the ranking, the roots and the

/// trees.

proof fn lemma_halved_steps(parents: Seq<usize>, rank: Seq<nat>, i: int)
    requires
        ranked(parents, rank),
        0 <= i < parents.len(),
    ensures
        ranked(halved_along(parents, rank, i), rank),
        halved_along(parents, rank, i).len() == parents.len(),
        forall|x: int|
            0 <= x < parents.len() ==> #[trigger] root(halved_along(parents, rank, i), x) == root(
                parents,
                x,
            ),
        forall|x: int|
            0 <= x < parents.len() ==> (#[trigger] halved_along(parents, rank, i)[x] == x) == (
            parents[x] == x),
        trees(halved_along(parents, rank, i)) == trees(parents),
    decreases rank[i],
{
    if parents[i] != i {
        let next = shortcut(parents, i);
        let parent = parents[i] as int;
        assert(parents[parent] < parents.len());
        lemma_shortcut_ranked(parents, rank, i);
        lemma_shortcut(parents, i);
        lemma_halved_steps(next, rank, parents[parent] as int);
        let done = halved_along(parents, rank, i);
        assert forall|x: int| 0 <= x < parents.len() implies #[trigger] root(done, x) == root(
            parents,
            x,
        ) by {
            assert(root(done, x) == root(next, x));
        }
        assert forall|x: int| 0 <= x < parents.len() implies (#[trigger] done[x] == x) == (
        parents[x] == x) by {
            assert((done[x] == x) == (next[x] == x));
        }
    }
}

/// The element reached from `i` after `steps` parent pointers.
pub open spec fn climb(parents: Seq<usize>, i: int, steps: nat) -> int
    decreases steps,
{
    if steps == 0 {
        i
    } else {
        climb(parents, parents[i] as int, (steps - 1) as nat)
    }
}

/// Every parent pointer names an element.
pub open spec fn bounded(parents: Seq<usize>) -> bool {
    forall|i: int| 0 <= i < parents.len() ==> (#[trigger] parents[i]) < parents.len()
}

/// Every parent pointer names an element, and from every element as many
/// parent pointers as there are elements lead to a root.
pub open spec fn climbs_out(parents: Seq<usize>) -> bool {
    &&& bounded(parents)
    &&& forall|i: int|
        0 <= i < parents.len() ==> parents[#[trigger] climb(parents, i, parents.len())] == climb(
            parents,
            i,
            parents.len(),
        )
}

/// A climb can be taken apart at its last step, and stays among the
/// elements.
pub proof fn lemma_climb_step(parents: Seq<usize>, i: int, steps: nat)
    requires
        bounded(parents),
        0 <= i < parents.len(),
    ensures
        0 <= climb(parents, i, steps) < parents.len(),
        climb(parents, i, steps + 1) == parents[climb(parents, i, steps)],
    decreases steps,
{
    if steps > 0 {
        lemma_climb_step(parents, parents[i] as int, (steps - 1) as nat);
        assert(climb(parents, i, steps + 1) == climb(parents, parents[i] as int, steps));
    } else {
        assert(climb(parents, parents[i] as int, 0) == parents[i]);
    }
}

/// A climb that has reached a root stays there.
pub proof fn lemma_climb_stays(parents: Seq<usize>, i: int, steps: nat, more: nat)
    requires
        bounded(parents),
        0 <= i < parents.len(),
        steps <= more,
        parents[climb(parents, i, steps)] == climb(parents, i, steps),
    ensures
        climb(parents, i, more) == climb(parents, i, steps),
    decreases more - steps,
{
    if steps < more {
        lemma_climb_step(parents, i, steps);
        lemma_climb_stays(parents, i, steps + 1, more);
    }
}

/// The number of parent pointers from `i` to a root, as far as `fuel` goes.
spec fn distance(parents: Seq<usize>, i: int, fuel: nat) -> nat
    decreases fuel,
{
    if fuel == 0 || parents[i] == i {
        0
    } else {
        1 + distance(parents, parents[i] as int, (fuel - 1) as nat)
    }
}

/// Once a climb has reached a root, more fuel finds no greater distance.

proof fn lemma_distance_settles(parents: Seq<usize>, i: int, fuel: nat)
    requires
        bounded(parents),
        0 <= i < parents.len(),
        parents[climb(parents, i, fuel)] == climb(parents, i, fuel),
    ensures
        distance(parents, i, fuel + 1) == distance(parents, i, fuel),
    decreases fuel,
{
    if fuel > 0 && parents[i] != i {
        lemma_distance_settles(parents, parents[i] as int, (fuel - 1) as nat);
    }
}

/// Parent pointers that climb out form a forest.
pub proof fn lemma_climbs_out_is_forest(parents: Seq<usize>)
    requires
        climbs_out(parents),
    ensures
        is_forest(parents),
{
    let n = parents.len();
    let rank = Seq::new(n, |i: int| distance(parents, i, n));
    assert forall|i: int| 0 <= i < parents.len() implies {
        &&& (#[trigger] parents[i]) < parents.len()
        &&& parents[i] != i ==> rank[parents[i] as int] < rank[i]
    } by {
        if parents[i] != i {
            let parent = parents[i] as int;
            assert(climb(parents, i, n) == climb(parents, parent, (n - 1) as nat));
            lemma_distance_settles(parents, parent, (n - 1) as nat);
        }
    }
    assert(ranked(parents, rank));
}

/// The elements passed on the first `steps` steps of a climb that has not
/// reached a root by then: as many as there were steps, each ranked above the
/// element that the climb has reached.
proof fn lemma_climb_passes(parents: Seq<usize>, rank: Seq<nat>, i: int, steps: nat) -> (passed:
    Set<int>)
    requires
        ranked(parents, rank),
        0 <= i < parents.len(),
        forall|k: nat|
            k < steps ==> parents[#[trigger] climb(parents, i, k)] != climb(parents, i, k),
    ensures
        passed.finite(),
        passed.len() == steps,
        passed.subset_of(set_int_range(0, parents.len() as int)),
        forall|e: int| passed.contains(e) ==> rank[e] > rank[climb(parents, i, steps)],
    decreases steps,
{
    if steps == 0 {
        Set::empty()
    } else {
        let before = (steps - 1) as nat;
        let earlier = lemma_climb_passes(parents, rank, i, before);
        let here = climb(parents, i, before);
        lemma_climb_step(parents, i, before);
        assert(parents[here] != here);
        assert(parents[here] < parents.len());
        earlier.insert(here)
    }
}

/// In a forest the parent pointers climb out: no climb is longer than there
/// are elements.
pub proof fn lemma_forest_climbs_out(parents: Seq<usize>)
    requires
        is_forest(parents),
    ensures
        climbs_out(parents),
{
    let rank = ranking(parents);
    let count = parents.len();
    assert forall|i: int| 0 <= i < count implies parents[#[trigger] climb(parents, i, count)]
        == climb(parents, i, count) by {
        if parents[climb(parents, i, count)] != climb(parents, i, count) {
            assert forall|k: nat| k < count + 1 implies parents[#[trigger] climb(parents, i, k)]
                != climb(parents, i, k) by {
                if parents[climb(parents, i, k)] == climb(parents, i, k) {
                    lemma_climb_stays(parents, i, k, count);
                }
            }
            let passed = lemma_climb_passes(parents, rank, i, count + 1);
            lemma_int_range(0, count as int);
            lemma_len_subset(passed, set_int_range(0, count as int));
        }
    }
}

/// Tells whether the parent pointers form a forest, by walking from every
/// element as many steps as there are elements.
pub(crate) fn check_forest(parents: &Vec<usize>) -> (ok: bool)
    ensures
        ok == is_forest(parents@),
        ok == climbs_out(parents@),
{

    let n = parents.len();
    let mut i: usize = 0;
    while i < n
        invariant
            i <= n,
            n == parents@.len(),
            forall|k: int| 0 <= k < i ==> (#[trigger] parents@[k]) < n,
        decreases n - i,
    {
        if parents[i] >= n {
            proof {
                if is_forest(parents@) {
                    lemma_forest_climbs_out(parents@);
                }
            }
            return false;
        }
        i = i + 1;
    }
    assert(bounded(parents@));
    i = 0;
    while i < n
        invariant
            i <= n,
            n == parents@.len(),
            bounded(parents@),
            forall|k: int|
                0 <= k < i ==> parents@[#[trigger] climb(parents@, k, n as nat)] == climb(
                    parents@,
                    k,
                    n as nat,
                ),
        decreases n - i,
    {
        let mut current: usize = i;
        let mut steps: usize = 0;
        while steps < n && parents[current] != current
            invariant
                steps <= n,
                n == parents@.len(),
                i < n,
                bounded(parents@),
                current < n,
                current == climb(parents@, i as int, steps as nat),
            decreases n - steps,
        {
            proof {
                lemma_climb_step(parents@, i as int, steps as nat);
            }
            current = parents[current];
            steps = steps + 1;
        }
        if parents[current] != current {
            proof {
                if is_forest(parents@) {
                    lemma_forest_climbs_out(parents@);
                }
            }
            return false;
        }
        proof {
            lemma_climb_stays(parents@, i as int, steps as nat, n as nat);
        }
        i = i + 1;
    }
    proof {
        lemma_climbs_out_is_forest(parents@);
    }
    true
}

} // verus!
