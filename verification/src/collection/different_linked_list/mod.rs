//! Other ways to build a linked list.

pub mod first_attempt_linked_list;
