//! A binary heap in a vector: the element at index `i` is not less than the
//! elements at `2 i + 1` and `2 i + 2`, so the greatest element is in front.

use vstd::prelude::*;
use vstd::seq_lib::{to_multiset_build, to_multiset_remove};

use crate::order::{at_most, greater, lemma_total, sorted, total_order};
use crate::sort::exchange::{lemma_swapped, swap, swapped};

verus! {

/// The index above `index` in the heap.
pub open spec fn parent_of(index: int) -> int {
    (index - 1) / 2
}

/// Among the first `upto` elements no element is greater than the one above
/// it, as far as the one above it has the index `from` at least.
pub open spec fn heap_from<T: Ord>(items: Seq<T>, from: int, upto: int) -> bool {
    forall|child: int|
        1 <= child < upto && from <= parent_of(child) ==> at_most(
            #[trigger] items[child],
            items[parent_of(child)],
        )
}

/// The first `upto` elements are in heap order.
pub open spec fn heap_ordered<T: Ord>(items: Seq<T>, upto: int) -> bool {
    heap_from(items, 0, upto)
}

/// The same as `heap_from`, but for the elements right below `hole`, which
/// may be greater than it; they are not greater than the element above
/// `hole`, where that one counts.
pub open spec fn heap_but_below<T: Ord>(items: Seq<T>, from: int, upto: int, hole: int) -> bool {
    &&& forall|child: int|
        1 <= child < upto && from <= parent_of(child) && parent_of(child) != hole ==> at_most(
            #[trigger] items[child],
            items[parent_of(child)],
        )
    &&& hole >= 1 && from <= parent_of(hole) ==> forall|child: int|
        1 <= child < upto && parent_of(child) == hole ==> at_most(
            #[trigger] items[child],
            items[parent_of(hole)],
        )
}

/// The same as `heap_ordered`, but for the element at `hole`, which may be
/// greater than the one above it; the elements right below `hole` are not
/// greater than the element above it.
pub open spec fn heap_but_above<T: Ord>(items: Seq<T>, upto: int, hole: int) -> bool {
    &&& forall|child: int|
        1 <= child < upto && child != hole ==> at_most(
            #[trigger] items[child],
            items[parent_of(child)],
        )
    &&& hole >= 1 ==> forall|child: int|
        1 <= child < upto && parent_of(child) == hole ==> at_most(
            #[trigger] items[child],
            items[parent_of(hole)],
        )
}

/// In heap order no element is greater than the one in front.
pub proof fn lemma_front_is_greatest<T: Ord>(items: Seq<T>, upto: int, index: int)
    requires
        total_order::<T>(),
        heap_ordered(items, upto),
        0 <= index < upto <= items.len(),
    ensures
        at_most(items[index], items[0]),
    decreases index,
{
    if index == 0 {
        lemma_total(items[0], items[0]);
    } else {
        lemma_front_is_greatest(items, upto, parent_of(index));
        assert(at_most(items[index], items[parent_of(index)]));
    }
}

/// Elements in heap order, the greatest one in front.
pub struct SimpleBinaryHeap<T: Ord> {
    elements: Vec<T>,
}

impl<T: Ord> SimpleBinaryHeap<T> {
    /// The elements as the vector holds them.
    pub closed spec fn items(&self) -> Seq<T> {
        self.elements@
    }

    /// The invariant of the representation: the elements are in heap order.
    pub open spec fn wf(&self) -> bool {
        heap_ordered(self.items(), self.items().len() as int)
    }

    /// The heap without elements.
    pub fn new() -> (heap: SimpleBinaryHeap<T>)
        ensures
            heap.wf(),
            heap.items() == Seq::<T>::empty(),
    {
        SimpleBinaryHeap { elements: Vec::new() }
    }

    /// The heap of the given elements.
    pub fn from(elements: Vec<T>) -> (heap: SimpleBinaryHeap<T>)
        requires
            total_order::<T>(),
        ensures
            heap.wf(),
            heap.items().to_multiset() == elements@.to_multiset(),
            heap.items().len() == elements@.len(),
    {
        let ghost given = elements@;
        let mut heap = SimpleBinaryHeap { elements };
        let mut i = heap.elements.len() / 2;
        loop
            invariant_except_break
                heap_from(heap.elements@, i + 1, given.len() as int),
            invariant
                total_order::<T>(),
                heap.elements@.len() == given.len(),
                heap.elements@.to_multiset() == given.to_multiset(),
                i <= given.len() / 2,
            ensures
                heap_from(heap.elements@, 0, given.len() as int),
            decreases i,
        {
            heap.sink_till(i, None, Ghost(i as int));
            if i == 0 {
                break ;
            }
            i = i - 1;
        }
        heap
    }

    /// The elements as the vector holds them.
    pub fn elements(&self) -> (elements: &Vec<T>)
        ensures
            elements@ == self.items(),
    {
        &self.elements
    }

    /// Takes `elem` into the heap.
    pub fn add(&mut self, elem: T)
        requires
            total_order::<T>(),
            old(self).wf(),
        ensures
            final(self).wf(),
            final(self).items().to_multiset() == old(self).items().to_multiset().insert(elem),
            final(self).items().len() == old(self).items().len() + 1,
    {
        proof {
            to_multiset_build(self.elements@, elem);
        }
        self.elements.push(elem);
        let last = self.elements.len() - 1;
        self.pop_up(last);
    }

    /// Takes the greatest element out of the heap, which has at least one
    /// element.
    pub fn delete_max(&mut self) -> (removed: T)
        requires
            total_order::<T>(),
            old(self).wf(),
            old(self).items().len() > 0,
        ensures
            final(self).wf(),
            removed == old(self).items()[0],
            forall|i: int|
                0 <= i < old(self).items().len() ==> at_most(
                    #[trigger] old(self).items()[i],
                    removed,
                ),
            final(self).items().to_multiset() == old(self).items().to_multiset().remove(removed),
            final(self).items().len() == old(self).items().len() - 1,
    {
        let ghost before = self.elements@;
        proof {
            assert forall|i: int| 0 <= i < before.len() implies at_most(
                #[trigger] before[i],
                before[0],
            ) by {
                lemma_front_is_greatest(before, before.len() as int, i);
            }
            let last = before.len() - 1;
            lemma_swapped(before, 0, last);
            to_multiset_remove(swapped(before, 0, last), last);
            assert(before.update(0, before.last()).drop_last() =~= swapped(before, 0, last).remove(
                last,
            ));
        }
        let removed = self.elements.swap_remove(0);
        self.sink_till(0, None, Ghost(0));
        removed
    }

    /// Takes the element at the last place out of the heap, which has at
    /// least one element. That element has none below it.
    pub fn delete_min(&mut self) -> (removed: T)
        requires
            old(self).wf(),
            old(self).items().len() > 0,
        ensures
            final(self).wf(),
            removed == old(self).items().last(),
            final(self).items() == old(self).items().drop_last(),
    {
        let last = self.elements.len() - 1;
        let removed = self.elements.remove(last);
        assert(self.elements@ =~= old(self).elements@.drop_last());
        removed
    }

    /// The elements of the heap, which has at least one, in ascending order.
    pub fn sort(self) -> (ordered: Vec<T>)
        requires
            total_order::<T>(),
            self.wf(),
            self.items().len() > 0,
        ensures
            sorted(ordered@),
            ordered@.to_multiset() == self.items().to_multiset(),
            ordered@.len() == self.items().len(),
    {
        let mut heap = self;
        let ghost given = heap.elements@;
        let length = heap.elements.len();
        let mut count = length - 1;
        loop
            invariant
                total_order::<T>(),
                length == given.len(),
                heap.elements@.len() == length,
                heap.elements@.to_multiset() == given.to_multiset(),
                count < length,
                heap_ordered(heap.elements@, count + 1),
                forall|i: int, j: int|
                    count < i <= j < length ==> at_most(
                        #[trigger] heap.elements@[i],
                        #[trigger] heap.elements@[j],
                    ),
                forall|i: int, j: int|
                    0 <= i <= count < j < length ==> at_most(
                        #[trigger] heap.elements@[i],
                        #[trigger] heap.elements@[j],
                    ),
            ensures
                count == 0,
            decreases count,
        {
            if count == 0 {
                break ;
            }
            let ghost before = heap.elements@;
            proof {
                lemma_swapped(before, 0, count as int);
                assert forall|i: int| 0 <= i <= count implies at_most(
                    #[trigger] before[i],
                    before[0],
                ) by {
                    lemma_front_is_greatest(before, count + 1, i);
                }
            }
            swap(&mut heap.elements, 0, count);
            heap.sink_till(0, Some(count), Ghost(0));
            proof {
                let after = heap.elements@;
                assert forall|i: int, j: int| 0 <= i <= count - 1 < j < length implies at_most(
                    #[trigger] after[i],
                    #[trigger] after[j],
                ) by {
                    let source = lemma_region_member(
                        swapped(before, 0, count as int),
                        after,
                        count as int,
                        i,
                    );
                    if j == count {
                        assert(after[j] == before[0]);
                        if source == 0 {
                            assert(at_most(before[count as int], before[0]));
                        } else {
                            assert(at_most(before[source], before[0]));
                        }
                    } else {
                        assert(after[j] == before[j]);
                        if source == 0 {
                            assert(at_most(before[count as int], before[j]));
                        } else {
                            assert(at_most(before[source], before[j]));
                        }
                    }
                }
                assert forall|i: int, j: int| count - 1 < i <= j < length implies at_most(
                    #[trigger] after[i],
                    #[trigger] after[j],
                ) by {
                    lemma_total(after[i], after[j]);
                    if i == count && j > count {
                        assert(at_most(before[0], before[j]));
                    } else if i > count {
                        assert(at_most(before[i], before[j]));
                    }
                }
            }
            count = count - 1;
        }
        proof {
            assert forall|i: int, j: int| 0 <= i <= j < length implies at_most(
                #[trigger] heap.elements@[i],
                #[trigger] heap.elements@[j],
            ) by {
                lemma_total(heap.elements@[i], heap.elements@[j]);
            }
        }
        heap.elements
    }

    /// Moves the element at `index` up as long as it is greater than the
    /// one above it.
    fn pop_up(&mut self, index: usize)
        requires
            total_order::<T>(),
            index < old(self).elements@.len(),
            heap_but_above(old(self).elements@, old(self).elements@.len() as int, index as int),
        ensures
            final(self).wf(),
            final(self).elements@.len() == old(self).elements@.len(),
            final(self).elements@.to_multiset() == old(self).elements@.to_multiset(),
        decreases index,
    {
        if index == 0 {
            return ;
        }
        let parent_index = (index - 1) / 2;
        let ghost before = self.elements@;
        proof {
            lemma_total(before[index as int], before[parent_index as int]);
        }
        if greater(&self.elements[index], &self.elements[parent_index]) {
            proof {
                lemma_swapped(before, index as int, parent_index as int);
            }
            swap(&mut self.elements, index, parent_index);
            proof {
                let after = self.elements@;
                let length = after.len() as int;
                let hole = parent_index as int;
                assert forall|child: int| 1 <= child < length && child != hole implies at_most(
                    #[trigger] after[child],
                    after[parent_of(child)],
                ) by {
                    if child == index {
                    } else if parent_of(child) == index {
                        assert(at_most(before[child], before[hole]));
                    } else if parent_of(child) == hole {
                        assert(at_most(before[child], before[hole]));
                    } else {
                        assert(at_most(before[child], before[parent_of(child)]));
                    }
                }
                if hole >= 1 {
                    assert forall|child: int|
                        1 <= child < length && parent_of(child) == hole implies at_most(
                        #[trigger] after[child],
                        after[parent_of(hole)],
                    ) by {
                        assert(at_most(before[hole], before[parent_of(hole)]));
                        if child != index {
                            assert(at_most(before[child], before[hole]));
                        }
                    }
                }
            }
            self.pop_up(parent_index);
        }
    }

    /// Moves the element at `index` down as long as one of the two below
    /// it, among the first `till` elements where a bound is given, is greater.
    /// `from` is the index from which on the heap order is asked for.
    fn sink_till(&mut self, index: usize, till: Option<usize>, Ghost(from): Ghost<int>)
        requires
            total_order::<T>(),
            0 <= from <= index,
            till matches Some(bound) ==> bound <= old(self).elements@.len(),
            heap_but_below(
                old(self).elements@,
                from,
                reach(old(self).elements@.len(), till),
                index as int,
            ),
        ensures
            final(self).elements@.len() == old(self).elements@.len(),
            heap_from(final(self).elements@, from, reach(old(self).elements@.len(), till)),
            settled(
                old(self).elements@,
                final(self).elements@,
                reach(old(self).elements@.len(), till),
            ),
        decreases old(self).elements@.len() - index, 1int,
    {
        let length = self.elements.len();
        proof {
            lemma_settled_same(self.elements@, reach(self.elements@.len(), till));
        }
        if index >= length {
            return ;
        }
        if index > (usize::MAX - 2) / 2 {
            // no index is twice this one and one more
            return ;
        }
        let left_child_index = Self::left_child_index_for(index);
        let right_child_index = Self::right_child_index_for(index);
        let mut left_child = left_child_index < length;
        let mut right_child = right_child_index < length;
        if let Some(till_index) = till {
            if left_child_index >= till_index {
                left_child = false;
            }
            if right_child_index >= till_index {
                right_child = false;
            }
        }
        let ghost items = self.elements@;
        proof {
            if left_child && right_child {
                lemma_total(items[left_child_index as int], items[right_child_index as int]);
                lemma_total(items[right_child_index as int], items[index as int]);
            }
        }
        if left_child && right_child {
            if greater(&self.elements[left_child_index], &self.elements[right_child_index]) {
                self.swap_if_child_gt(index, left_child_index, till, Ghost(from));
            } else if greater(&self.elements[right_child_index], &self.elements[index]) {
                self.swap_if_child_gt(index, right_child_index, till, Ghost(from));
            }
        } else if left_child {
            self.swap_if_child_gt(index, left_child_index, till, Ghost(from));
        } else if right_child {
            self.swap_if_child_gt(index, right_child_index, till, Ghost(from));
        }
    }

    /// Exchanges the element at `current_index` with the one at
    /// `child_index` below it where that one is greater, and goes on from
    /// there.
    fn swap_if_child_gt(
        &mut self,
        current_index: usize,
        child_index: usize,
        sink_till: Option<usize>,
        Ghost(from): Ghost<int>,
    )
        requires
            total_order::<T>(),
            0 <= from <= current_index,
            sink_till matches Some(bound) ==> bound <= old(self).elements@.len(),
            child_index < reach(old(self).elements@.len(), sink_till),
            parent_of(child_index as int) == current_index,
            heap_but_below(
                old(self).elements@,
                from,
                reach(old(self).elements@.len(), sink_till),
                current_index as int,
            ),
            // the other element below is not greater than this one
            forall|other: int|
                1 <= other < reach(old(self).elements@.len(), sink_till) && parent_of(other)
                    == current_index ==> at_most(
                    #[trigger] old(self).elements@[other],
                    old(self).elements@[child_index as int],
                ) || at_most(old(self).elements@[other], old(self).elements@[current_index as int]),
        ensures
            final(self).elements@.len() == old(self).elements@.len(),
            heap_from(final(self).elements@, from, reach(old(self).elements@.len(), sink_till)),
            settled(
                old(self).elements@,
                final(self).elements@,
                reach(old(self).elements@.len(), sink_till),
            ),
        decreases old(self).elements@.len() - current_index, 0int,
    {
        let ghost before = self.elements@;
        let ghost upto = reach(before.len(), sink_till);
        proof {
            lemma_total(before[child_index as int], before[current_index as int]);
            lemma_settled_same(before, upto);
        }
        if greater(&self.elements[child_index], &self.elements[current_index]) {
            proof {
                lemma_swapped(before, current_index as int, child_index as int);
            }
            swap(&mut self.elements, current_index, child_index);
            proof {
                let after = self.elements@;
                let top = current_index as int;
                let hole = child_index as int;
                assert forall|child: int|
                    1 <= child < upto && from <= parent_of(child) && parent_of(child)
                        != hole implies at_most(
                    #[trigger] after[child],
                    after[parent_of(child)],
                ) by {
                    if child == hole {
                    } else if parent_of(child) == top {
                        lemma_total(before[child], before[hole]);
                        assert(at_most(before[child], before[hole]) || at_most(
                            before[child],
                            before[top],
                        ));
                    } else if child == top {
                        assert(at_most(before[hole], before[parent_of(top)]));
                    } else {
                        assert(at_most(before[child], before[parent_of(child)]));
                    }
                }
                assert forall|child: int|
                    1 <= child < upto && parent_of(child) == hole implies at_most(
                    #[trigger] after[child],
                    after[parent_of(hole)],
                ) by {
                    assert(at_most(before[child], before[hole]));
                }
                lemma_settled_swapped(before, upto, top, hole);
            }
            let ghost swapped_items = self.elements@;
            self.sink_till(child_index, sink_till, Ghost(from));
            proof {
                lemma_settled_twice(before, swapped_items, self.elements@, upto);
            }
        } else {
            proof {
                assert forall|child: int|
                    1 <= child < upto && from <= parent_of(child) implies at_most(
                    #[trigger] before[child],
                    before[parent_of(child)],
                ) by {
                    if parent_of(child) == current_index {
                        assert(at_most(before[child], before[child_index as int]) || at_most(
                            before[child],
                            before[current_index as int],
                        ));
                    }
                }
            }
        }
    }

    /// The index of the first of the two elements below `index`.
    fn left_child_index_for(index: usize) -> (left: usize)
        requires
            index <= (usize::MAX - 2) / 2,
        ensures
            left == index * 2 + 1,
    {
        (index * 2) + 1
    }

    /// The index of the second of the two elements below `index`.
    fn right_child_index_for(index: usize) -> (right: usize)
        requires
            index <= (usize::MAX - 2) / 2,
        ensures
            right == index * 2 + 2,
    {
        (index * 2) + 2
    }
}

/// How many elements count for a sink: all, or those before the bound.
pub open spec fn reach(length: nat, till: Option<usize>) -> int {
    match till {
        Some(bound) => bound as int,
        None => length as int,
    }
}

/// `after` holds in its first `upto` places the elements that `before` holds
/// there, each as often, and is `before` behind them.
pub open spec fn settled<T>(before: Seq<T>, after: Seq<T>, upto: int) -> bool {
    &&& after.len() == before.len()
    &&& 0 <= upto <= before.len()
    &&& after.take(upto).to_multiset() == before.take(upto).to_multiset()
    &&& forall|k: int| upto <= k < before.len() ==> #[trigger] after[k] == before[k]
    &&& after.to_multiset() == before.to_multiset()
}

/// A sequence is settled as it is.

proof fn lemma_settled_same<T>(items: Seq<T>, upto: int)
    requires
        0 <= upto <= items.len(),
    ensures
        settled(items, items, upto),
{
}

/// What is settled twice is settled.

proof fn lemma_settled_twice<T>(before: Seq<T>, between: Seq<T>, after: Seq<T>, upto: int)
    requires
        settled(before, between, upto),
        settled(between, after, upto),
    ensures
        settled(before, after, upto),
{
}

/// An exchange among the first `upto` elements leaves the sequence settled.

proof fn lemma_settled_swapped<T>(items: Seq<T>, upto: int, a: int, b: int)
    requires
        0 <= a < upto <= items.len(),
        0 <= b < upto,
    ensures
        settled(items, swapped(items, a, b), upto),
{
    lemma_swapped(items, a, b);
    lemma_swapped(items.take(upto), a, b);
    assert(swapped(items, a, b).take(upto) =~= swapped(items.take(upto), a, b));
}

/// Every one of the first `upto` elements after a sink was among them
/// before.
proof fn lemma_region_member<T>(before: Seq<T>, after: Seq<T>, upto: int, k: int) -> (source: int)
    requires
        settled(before, after, upto),
        0 <= k < upto,
    ensures
        0 <= source < upto,
        before[source] == after[k],
{
    let front_before = before.take(upto);
    let front_after = after.take(upto);
    assert(front_after[k] == after[k]);
    assert(front_after.contains(after[k]));
    vstd::seq_lib::to_multiset_contains(front_after, after[k]);
    vstd::seq_lib::to_multiset_contains(front_before, after[k]);
    choose|at: int| 0 <= at < front_before.len() && front_before[at] == after[k]
}

impl<T: Ord> Default for SimpleBinaryHeap<T> {
    fn default() -> (heap: Self)
        ensures
            heap.wf(),
            heap.items() == Seq::<T>::empty(),
    {
        Self::new()
    }
}

} // verus!
