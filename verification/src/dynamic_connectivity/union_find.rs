//! The operations that every union-find variant offers, with the contract
//! that makes the variants interchangeable.

use vstd::prelude::*;
use vstd::string::*;

use crate::decimal::{decimal, push_decimal};
use crate::dynamic_connectivity::partition::Partition;
use crate::{already_exist_text, both_missing_text, missing_text, AlgoError};

verus! {

/// What `union` and `connected` have to say against their operands among
/// `count` elements: nothing where both are elements, else the text that
/// names each operand that is not.
pub open spec fn operand_fault(count: nat, first: usize, second: usize) -> Option<Seq<char>> {
    if first >= count && second >= count {
        Some(both_missing_text("first object"@, first as nat, "second object"@, second as nat))
    } else if first >= count {
        Some(missing_text("first object"@, first as nat))
    } else if second >= count {
        Some(missing_text("second object"@, second as nat))
    } else {
        None
    }
}

/// The result is the error of the kind "missing element" with this text.
pub open spec fn reports_missing<T>(result: Result<T, AlgoError>, text: Seq<char>) -> bool {
    result matches Err(error) && error is MissingElement && error.message() == text
}

/// The result is the error of the kind "already exists" for this element.
pub open spec fn reports_existing<T>(result: Result<T, AlgoError>, object: usize) -> bool {
    result matches Err(error) && error is ElementAlreadyExist && error.message()
        == already_exist_text("object"@, object as nat)
}

/// Checks both operands against the number of elements, before anything is
/// changed.
pub(crate) fn check_operands(count: usize, first: usize, second: usize) -> (result: Result<
    (),
    AlgoError,
>)
    ensures
        match operand_fault(count as nat, first, second) {
            Some(text) => reports_missing(result, text),
            None => result is Ok,
        },
{
    if first >= count && second >= count {
        Err(AlgoError::missing_elements("first object", first, "second object", second))
    } else if first >= count {
        Err(AlgoError::missing_element("first object", first))
    } else if second >= count {
        Err(AlgoError::missing_element("second object", second))
    } else {
        Ok(())
    }
}

/// How one slot is shown: its index, a colon, its value, a comma and a
/// space.
pub open spec fn entry(index: nat, value: usize) -> Seq<char> {
    decimal(index) + ":"@ + decimal(value as nat) + ", "@
}

/// The first `upto` slots as shown, in ascending order of their indices.
pub open spec fn rendered(slots: Seq<usize>, upto: nat) -> Seq<char>
    decreases upto,
{
    if upto == 0 {
        Seq::empty()
    } else {
        rendered(slots, (upto - 1) as nat) + entry((upto - 1) as nat, slots[upto - 1])
    }
}

/// Shows the slots of a structure for a person to read.
pub(crate) fn render(slots: &Vec<usize>) -> (text: String)
    ensures
        text@ == rendered(slots@, slots@.len()),
{
    let mut text = String::new();
    let mut index: usize = 0;
    while index < slots.len()
        invariant
            index <= slots@.len(),
            text@ == rendered(slots@, index as nat),
        decreases slots@.len() - index,
    {
        let ghost before = text@;
        push_decimal(&mut text, index);
        text.append(":");
        push_decimal(&mut text, slots[index]);
        text.append(", ");
        assert(text@ =~= before + entry(index as nat, slots@[index as int]));
        index = index + 1;
    }
    text
}

/// A structure whose view is a partition of the elements `0 .. count`.
pub trait Connectivity: View<V = Partition> + Sized {
    /// The invariant of the representation. Every constructor establishes
    /// it and every operation keeps it.
    spec fn wf(&self) -> bool;

    /// The view of a well-formed structure is a well-formed partition.
    proof fn lemma_view(&self)
        requires
            self.wf(),
        ensures
            self@.wf(),
    ;
}

/// A structure that keeps the elements `0 .. count` in components, merges
/// components, and tells whether two elements lie in one.
pub trait UnionFind: Connectivity {
    /// The array that the structure keeps, one slot for each element.
    spec fn slots(&self) -> Seq<usize>;

    /// How many more elements the bookkeeping has room for.
    spec fn room(&self) -> nat;

    /// Registers `object` as a new element in a component of its own, where
    /// it is the next identifier; turns it down, and changes nothing, where
    /// it is an element already.
    fn add(&mut self, object: usize) -> (result: Result<(), AlgoError>)
        requires
            old(self).wf(),
            old(self).room() > 0,
            object <= old(self)@.count,
        ensures
            final(self).wf(),
            object < old(self)@.count ==> reports_existing(result, object) && *final(self) == *old(
                self,
            ),
            object == old(self)@.count ==> {
                &&& result is Ok
                &&& final(self)@ == old(self)@.extend()
                &&& final(self).slots() == old(self).slots().push(object)
                &&& final(self).room() == old(self).room() - 1
            },
    ;

    /// Merges the components of `first` and `second`; turns operands that
    /// are not elements down, and then changes nothing.
    fn union(&mut self, first: &usize, second: &usize) -> (result: Result<(), AlgoError>)
        requires
            old(self).wf(),
        ensures
            final(self).wf(),
            match operand_fault(old(self)@.count, *first, *second) {
                Some(text) => reports_missing(result, text) && *final(self) == *old(self),
                None => {
                    &&& result is Ok
                    &&& final(self)@ == old(self)@.merge(*first as int, *second as int)
                    &&& final(self)@.joined(*first as int, *second as int)
                    &&& final(self).room() == old(self).room()
                },
            },
    ;

    /// Tells whether `first` and `second` lie in one component; turns
    /// operands that are not elements down.
    fn connected(&self, first: &usize, second: &usize) -> (result: Result<bool, AlgoError>)
        requires
            self.wf(),
        ensures
            match operand_fault(self@.count, *first, *second) {
                Some(text) => reports_missing(result, text),
                None => result matches Ok(answer) && answer == self@.joined(
                    *first as int,
                    *second as int,
                ),
            },
    ;

    /// Shows the slots for a person to read: for each index in ascending
    /// order the index, a colon, the slot's value, a comma and a space.
    fn to_string(&self) -> (text: String)
        ensures
            text@ == rendered(self.slots(), self.slots().len()),
    ;
}

} // verus!
