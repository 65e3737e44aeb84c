//! Total orders as the sorting routines and the ordered collections need
//! them, and sequences in ascending order.

use core::cmp::Ordering;
use vstd::prelude::*;
use vstd::std_specs::cmp::{OrdSpec, PartialOrdSpec};

verus! {

/// `a` is not greater than `b`.
pub open spec fn at_most<T: Ord>(a: T, b: T) -> bool {
    a.cmp_spec(&b) != Ordering::Greater
}

/// `a` and `b` compare as equal.
pub open spec fn same_rank<T: Ord>(a: T, b: T) -> bool {
    a.cmp_spec(&b) == Ordering::Equal
}

/// How one value stands to another.
#[derive(Clone, Copy, Debug, PartialEq, Eq)]
pub enum Rank {
    Less,
    Equal,
    Greater,
}

/// How `a` stands to `b`.
pub open spec fn rank<T: Ord>(a: T, b: T) -> Rank {
    match a.cmp_spec(&b) {
        Ordering::Less => Rank::Less,
        Ordering::Equal => Rank::Equal,
        Ordering::Greater => Rank::Greater,
    }
}

/// The comparisons of `T` do in code what their specifications say, and
/// these describe a total order: of two values one is less exactly if the
/// other is greater, one equals the other exactly if the other equals it, and
/// "not greater" is transitive.
pub open spec fn total_order<T: Ord>() -> bool {
    &&& T::obeys_cmp_spec()
    &&& T::obeys_partial_cmp_spec()
    &&& forall|a: T, b: T| #[trigger] a.partial_cmp_spec(&b) == Some(a.cmp_spec(&b))
    &&& forall|a: T, b: T|
        #[trigger] a.cmp_spec(&b) == Ordering::Less <==> b.cmp_spec(&a) == Ordering::Greater
    &&& forall|a: T, b: T, c: T|
        #[trigger] at_most(a, b) && #[trigger] at_most(b, c) ==> at_most(a, c)
}

/// In a total order every value is not greater than itself, and of two
/// values one is not greater than the other.
pub proof fn lemma_total<T: Ord>(a: T, b: T)
    requires
        total_order::<T>(),
    ensures
        at_most(a, a),
        at_most(a, b) || at_most(b, a),
        same_rank(a, b) <==> at_most(a, b) && at_most(b, a),
        same_rank(a, b) <==> same_rank(b, a),
        rank(a, b) == Rank::Less <==> !at_most(b, a),
        rank(a, b) == Rank::Equal <==> same_rank(a, b),
        rank(a, b) == Rank::Greater <==> !at_most(a, b),
{
    assert(a.cmp_spec(&a) == Ordering::Less <==> a.cmp_spec(&a) == Ordering::Greater);
    assert(a.cmp_spec(&b) == Ordering::Less <==> b.cmp_spec(&a) == Ordering::Greater);
    assert(b.cmp_spec(&a) == Ordering::Less <==> a.cmp_spec(&b) == Ordering::Greater);
}

/// The integers of every width are totally ordered.
pub proof fn lemma_integers_total()
    ensures
        total_order::<u8>(),
        total_order::<u16>(),
        total_order::<u32>(),
        total_order::<u64>(),
        total_order::<usize>(),
        total_order::<i8>(),
        total_order::<i16>(),
        total_order::<i32>(),
        total_order::<i64>(),
        total_order::<isize>(),
{
}

/// The sequence ascends: no element is greater than a later one.
pub open spec fn sorted<T: Ord>(items: Seq<T>) -> bool {
    forall|i: int, j: int|
        0 <= i <= j < items.len() ==> at_most(#[trigger] items[i], #[trigger] items[j])
}

/// Tells how `a` stands to `b`.
pub(crate) fn compare<T: Ord>(a: &T, b: &T) -> (answer: Rank)
    requires
        total_order::<T>(),
    ensures
        answer == rank(*a, *b),
{
    match a.cmp(b) {
        Ordering::Less => Rank::Less,
        Ordering::Equal => Rank::Equal,
        Ordering::Greater => Rank::Greater,
    }
}

/// Tells whether `a` is less than `b`.
pub(crate) fn less<T: Ord>(a: &T, b: &T) -> (answer: bool)
    requires
        total_order::<T>(),
    ensures
        answer == !at_most(*b, *a),
{
    a.lt(b)
}

/// Tells whether `a` is greater than `b`.
pub(crate) fn greater<T: Ord>(a: &T, b: &T) -> (answer: bool)
    requires
        total_order::<T>(),
    ensures
        answer == !at_most(*a, *b),
{
    a.gt(b)
}

/// Tells whether `a` is not greater than `b`.
pub(crate) fn not_greater<T: Ord>(a: &T, b: &T) -> (answer: bool)
    requires
        total_order::<T>(),
    ensures
        answer == at_most(*a, *b),
{
    a.le(b)
}

} // verus!
