//! The mathematical content of a union-find structure: which of the elements
//! `0 .. count` belong together. Every variant is specified against this model,
//! so two variants that went through the same operations have equal models.

use vstd::prelude::*;

verus! {

/// An equivalence relation on the elements `0 .. count`, held as the set of
/// all pairs that belong to one component.
pub struct Partition {
    pub count: nat,
    pub links: Set<(int, int)>,
}

impl Partition {
    /// Whether `i` is one of the elements.
    pub open spec fn has(self, i: int) -> bool {
        0 <= i < self.count
    }

    /// Whether `a` and `b` lie in one component.
    pub open spec fn joined(self, a: int, b: int) -> bool {
        self.links.contains((a, b))
    }

    /// The relation holds between elements only, and is reflexive on them,
    /// symmetric and transitive.
    pub open spec fn wf(self) -> bool {
        &&& forall|a: int, b: int| #[trigger] self.joined(a, b) ==> self.has(a) && self.has(b)
        &&& forall|a: int| self.has(a) ==> #[trigger] self.joined(a, a)
        &&& forall|a: int, b: int| #[trigger] self.joined(a, b) ==> self.joined(b, a)
        &&& forall|a: int, b: int, c: int|
            #[trigger] self.joined(a, b) && #[trigger] self.joined(b, c) ==> self.joined(a, c)
    }

    /// `count` elements, each alone in its component.
    pub open spec fn discrete(count: nat) -> Partition {
        Partition { count, links: Set::new(|p: (int, int)| 0 <= p.0 < count && p.0 == p.1) }
    }

    /// One more element, numbered `count`, alone in its component.
    pub open spec fn extend(self) -> Partition {
        Partition {
            count: self.count + 1,
            links: self.links.insert((self.count as int, self.count as int)),
        }
    }

    /// The components of `a` and `b` made one; all others as they were.
    pub open spec fn merge(self, a: int, b: int) -> Partition {
        Partition {
            count: self.count,
            links: Set::new(
                |p: (int, int)|
                    self.joined(p.0, p.1) || (self.joined(p.0, a) && self.joined(b, p.1)) || (
                    self.joined(p.0, b) && self.joined(a, p.1)),
            ),
        }
    }

    /// The merge that a `union` of `first` and `second` asks for: of their
    /// components where both are elements, and none where one is not.
    pub open spec fn unite(self, first: usize, second: usize) -> Partition {
        if self.has(first as int) && self.has(second as int) {
            self.merge(first as int, second as int)
        } else {
            self
        }
    }

    /// The merges that a sequence of `union` calls asks for, from its first
    /// to its last.
    pub open spec fn unite_all(self, unions: Seq<(usize, usize)>) -> Partition
        decreases unions.len(),
    {
        if unions.len() == 0 {
            self
        } else {
            self.unite_all(unions.drop_last()).unite(unions.last().0, unions.last().1)
        }
    }

    /// The discrete partition is well formed.
    pub proof fn lemma_discrete_wf(count: nat)
        ensures
            Self::discrete(count).wf(),
    {
    }

    /// Growing by one element keeps a partition well formed.
    pub proof fn lemma_extend_wf(self)
        requires
            self.wf(),
        ensures
            self.extend().wf(),
    {
        let grown = self.extend();
        assert forall|a: int, b: int, c: int|
            #[trigger] grown.joined(a, b) && #[trigger] grown.joined(b, c) implies grown.joined(
            a,
            c,
        ) by {
            if a == self.count || b == self.count || c == self.count {
                assert(!self.joined(a, b) || (self.has(a) && self.has(b)));
                assert(!self.joined(b, c) || (self.has(b) && self.has(c)));
            } else {
                assert(self.joined(a, b) && self.joined(b, c));
            }
        }
        assert forall|a: int, b: int| #[trigger] grown.joined(a, b) implies grown.has(a)
            && grown.has(b) && grown.joined(b, a) by {
            if !(a == self.count && b == self.count) {
                assert(self.joined(a, b));
            }
        }
        assert forall|a: int| grown.has(a) implies #[trigger] grown.joined(a, a) by {
            if a != self.count {
                assert(self.joined(a, a));
            }
        }
    }

    /// Merging two elements keeps a partition well formed.
    pub proof fn lemma_merge_wf(self, a: int, b: int)
        requires
            self.wf(),
            self.has(a),
            self.has(b),
        ensures
            self.merge(a, b).wf(),
    {
        let merged = self.merge(a, b);
        assert(self.joined(a, a) && self.joined(b, b));
        assert forall|x: int, y: int| #[trigger] merged.joined(x, y) implies merged.has(x)
            && merged.has(y) && merged.joined(y, x) by {
            if self.joined(x, y) {
                assert(self.joined(y, x));
            } else if self.joined(x, a) && self.joined(b, y) {
                assert(self.joined(y, b) && self.joined(a, x));
            } else {
                assert(self.joined(x, b) && self.joined(a, y));
                assert(self.joined(y, a) && self.joined(b, x));
            }
        }
        assert forall|x: int| merged.has(x) implies #[trigger] merged.joined(x, x) by {
            assert(self.joined(x, x));
        }
        assert forall|x: int, y: int, z: int|
            #[trigger] merged.joined(x, y) && #[trigger] merged.joined(y, z) implies merged.joined(
            x,
            z,
        ) by {
            self.lemma_side(a, b, x, y);
            self.lemma_side(a, b, y, z);
            self.lemma_side_back(a, b, x, z);
        }
    }

    /// Whether `x` lies in the component of `a` or in that of `b`.
    pub open spec fn touches(self, a: int, b: int, x: int) -> bool {
        self.joined(x, a) || self.joined(x, b)
    }

    /// A pair is joined after the merge exactly if it was joined before, or
    /// both of its elements lay in one of the two merged components.
    proof fn lemma_side(self, a: int, b: int, x: int, y: int)
        requires
            self.wf(),
            self.has(a),
            self.has(b),
            self.merge(a, b).joined(x, y),
        ensures
            self.joined(x, y) || (self.touches(a, b, x) && self.touches(a, b, y)),
    {
        if !self.joined(x, y) {
            if self.joined(x, a) && self.joined(b, y) {
                assert(self.joined(y, b));
            } else {
                assert(self.joined(x, b) && self.joined(a, y));
                assert(self.joined(y, a));
            }
        }
    }

    /// The converse of `lemma_side`.

    proof fn lemma_side_back(self, a: int, b: int, x: int, y: int)
        requires
            self.wf(),
            self.has(a),
            self.has(b),
            self.joined(x, y) || (self.touches(a, b, x) && self.touches(a, b, y)),
        ensures
            self.merge(a, b).joined(x, y),
    {
        if !self.joined(x, y) {
            assert(self.joined(a, a) && self.joined(b, b));
            if self.joined(x, a) {
                assert(self.joined(a, x));
                if self.joined(y, a) {
                    assert(self.joined(a, y));
                    assert(self.joined(x, y));
                } else {
                    assert(self.joined(b, y));
                }
            } else {
                assert(self.joined(b, x));
                if self.joined(y, b) {
                    assert(self.joined(b, y));
                    assert(self.joined(x, y));
                } else {
                    assert(self.joined(a, y));
                }
            }
        }
    }

    /// A merge joins its two operands.
    pub proof fn lemma_merge_joins(self, a: int, b: int)
        requires
            self.wf(),
            self.has(a),
            self.has(b),
        ensures
            self.merge(a, b).joined(a, b),
            self.merge(a, b).joined(b, a),
    {
        assert(self.joined(a, a) && self.joined(b, b));
    }

    /// Merges are irreversible: what was joined stays joined.
    pub proof fn lemma_merge_keeps(self, a: int, b: int, x: int, y: int)
        requires
            self.joined(x, y),
        ensures
            self.merge(a, b).joined(x, y),
    {
    }

    /// Merging two elements that are already joined changes nothing.
    pub proof fn lemma_merge_joined_is_same(self, a: int, b: int)
        requires
            self.wf(),
            self.joined(a, b),
        ensures
            self.merge(a, b) == self,
    {
        let merged = self.merge(a, b);
        assert forall|p: (int, int)| merged.links.contains(p) == self.links.contains(p) by {
            if merged.links.contains(p) {
                assert(merged.joined(p.0, p.1));
                assert(self.joined(b, a));
                if self.joined(p.0, a) && self.joined(b, p.1) {
                    assert(self.joined(p.0, b));
                } else if self.joined(p.0, b) && self.joined(a, p.1) {
                    assert(self.joined(p.0, a));
                }
                assert(self.joined(p.0, p.1));
            } else if self.links.contains(p) {
                assert(self.joined(p.0, p.1));
            }
        }
        assert(merged.links =~= self.links);
    }

    /// The order of the operands of a merge does not matter.
    pub proof fn lemma_merge_commutes(self, a: int, b: int)
        ensures
            self.merge(a, b) == self.merge(b, a),
    {
        assert(self.merge(a, b).links =~= self.merge(b, a).links);
    }
}

} // verus!
