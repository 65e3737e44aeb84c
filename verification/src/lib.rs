//! Textbook algorithms with machine-checked contracts: a family of union-find
//! structures, and the small collections and sorting routines around them.

use vstd::prelude::*;
use vstd::string::*;

pub mod collection;
pub mod decimal;
pub mod dynamic_connectivity;
pub mod order;
pub mod sort;

use crate::decimal::{decimal, push_decimal};

verus! {

/// Adds two machine words.
pub fn add(left: usize, right: usize) -> (sum: usize)
    requires
        left + right <= usize::MAX,
    ensures
        sum == left + right,
{
    left + right
}

/// Why an operation was turned down. Callers branch on the variant; the text
/// inside is for people.
#[derive(Debug)]
pub enum AlgoError {
    /// An operand does not name a known element.
    MissingElement(String),
    /// The element to register is already known.
    ElementAlreadyExist(String),
}

/// The sentence that reports one element as unknown.
pub open spec fn missing_text(name: Seq<char>, value: nat) -> Seq<char> {
    name + " with value "@ + decimal(value) + " doesn't exist"@
}

/// The two-line text that reports both elements as unknown.
pub open spec fn both_missing_text(
    first_name: Seq<char>,
    first_value: nat,
    second_name: Seq<char>,
    second_value: nat,
) -> Seq<char> {
    missing_text(first_name, first_value) + " \n "@ + missing_text(second_name, second_value)
}

/// The sentence that reports an element as already known.
pub open spec fn already_exist_text(name: Seq<char>, value: nat) -> Seq<char> {
    name + " with value "@ + decimal(value) + " already exist"@
}

impl AlgoError {
    /// The human-readable text carried by the error, whatever its kind.
    pub open spec fn message(&self) -> Seq<char> {
        match self {
            AlgoError::MissingElement(text) => text@,
            AlgoError::ElementAlreadyExist(text) => text@,
        }
    }

    /// The error that reports the element `element_value`, named

    /// `element_name`, as unknown.

    pub(crate) fn missing_element(element_name: &str, element_value: usize) -> (error: AlgoError)
        ensures
            error is MissingElement,
            error.message() == missing_text(element_name@, element_value as nat),
    {
        let mut text = String::new();
        text.append(element_name);
        text.append(" with value ");
        push_decimal(&mut text, element_value);
        text.append(" doesn't exist");
        assert(text@ =~= missing_text(element_name@, element_value as nat));
        AlgoError::MissingElement(text)
    }

    /// The error that reports two elements as unknown, each by its name and

    /// its value.

    pub(crate) fn missing_elements(
        first_element_name: &str,
        first_element_value: usize,
        second_element_name: &str,
        second_element_value: usize,
    ) -> (error: AlgoError)
        ensures
            error is MissingElement,
            error.message() == both_missing_text(
                first_element_name@,
                first_element_value as nat,
                second_element_name@,
                second_element_value as nat,
            ),
    {
        let mut text = String::new();
        text.append(first_element_name);
        text.append(" with value ");
        push_decimal(&mut text, first_element_value);
        text.append(" doesn't exist");
        text.append(" \n ");
        text.append(second_element_name);
        text.append(" with value ");
        push_decimal(&mut text, second_element_value);
        text.append(" doesn't exist");
        assert(text@ =~= both_missing_text(
            first_element_name@,
            first_element_value as nat,
            second_element_name@,
            second_element_value as nat,
        ));
        AlgoError::MissingElement(text)
    }

    /// The error that reports the element `element_value`, named

    /// `element_name`, as already known.

    pub(crate) fn element_already_exist(element_name: &str, element_value: usize) -> (error:
        AlgoError)
        ensures
            error is ElementAlreadyExist,
            error.message() == already_exist_text(element_name@, element_value as nat),
    {
        let mut text = String::new();
        text.append(element_name);
        text.append(" with value ");
        push_decimal(&mut text, element_value);
        text.append(" already exist");
        assert(text@ =~= already_exist_text(element_name@, element_value as nat));
        AlgoError::ElementAlreadyExist(text)
    }

    /// A copy of the text carried by the error.
    pub fn to_readable_string(&self) -> (text: String)
        ensures
            text@ == self.message(),
    {
        match self {
            AlgoError::MissingElement(value) => value.clone(),
            AlgoError::ElementAlreadyExist(value) => value.clone(),
        }
    }
}

} // verus!
