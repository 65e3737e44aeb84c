//! A list that grows at its tail and is read from its head.

use vstd::prelude::*;
use vstd::string::*;

use crate::collection::Collection;
use crate::decimal::{decimal, push_decimal};

verus! {

/// A list that takes elements at its tail and counts them.
pub struct LinkedList<T> {
    nodes: Vec<T>,
    size: usize,
}

impl<T> LinkedList<T> {
    /// The elements from the head to the tail.
    pub closed spec fn view(&self) -> Seq<T> {
        self.nodes@
    }

    /// The number of elements that the list has on record.
    pub closed spec fn recorded(&self) -> nat {
        self.size as nat
    }

    /// The list without elements.
    pub fn new() -> (list: LinkedList<T>)
        ensures
            list.wf(),
            list.view() == Seq::<T>::empty(),
    {
        LinkedList { nodes: Vec::new(), size: 0 }
    }

    /// Puts `value` behind the tail.
    pub fn push(&mut self, value: T)
        requires
            old(self).wf(),
            old(self).count() < usize::MAX,
        ensures
            final(self).wf(),
            final(self).view() == old(self).view().push(value),
    {
        self.nodes.push(value);
        self.size = self.size + 1;
    }
}

/// How the elements from `from` onwards are shown: each with the words
/// "value" before and "-> next" behind it, the last one with "->; next ->
/// None" behind it.
pub open spec fn chain_text(items: Seq<String>, from: int) -> Seq<char>
    decreases items.len() - from,
{
    if from + 1 >= items.len() {
        "value "@ + items[from]@ + " ->; next -> None"@
    } else {
        "value "@ + items[from]@ + " -> next  "@ + chain_text(items, from + 1)
    }
}

/// How a list is shown: the word "Empty", or the size and the chain of its
/// elements from the head.
pub open spec fn list_text(items: Seq<String>) -> Seq<char> {
    if items.len() == 0 {
        "Empty"@
    } else {
        "Size: "@ + decimal(items.len()) + " \n head "@ + chain_text(items, 0)
    }
}

impl LinkedList<String> {
    /// Shows the list for a person to read.
    pub fn to_string(&self) -> (text: String)
        requires
            self.wf(),
        ensures
            text@ == list_text(self.view()),
    {
        let mut text = String::new();
        if self.size == 0 {
            text.append("Empty");
            assert(text@ =~= "Empty"@);
            return text;
        }
        let ghost items = self.nodes@;
        let length = self.nodes.len();
        // the chain behind each element closes the text, so it is built from
        // the tail to the head
        let mut tail = String::new();
        let mut index: usize = length;
        while index > 0
            invariant
                length == items.len(),
                items == self.nodes@,
                index <= length,
                length > 0,
                index < length ==> tail@ == chain_text(items, index as int),
                index == length ==> tail@ == Seq::<char>::empty(),
            decreases index,
        {
            index = index - 1;
            let mut link = String::new();
            link.append("value ");
            link.append(self.nodes[index].as_str());
            if index + 1 >= length {
                link.append(" ->; next -> None");
                assert(link@ =~= chain_text(items, index as int));
            } else {
                link.append(" -> next  ");
                link.append(tail.as_str());
                assert(link@ =~= chain_text(items, index as int));
            }
            tail = link;
        }
        text.append("Size: ");
        push_decimal(&mut text, self.size);
        text.append(" \n head ");
        text.append(tail.as_str());
        assert(text@ =~= list_text(items));
        text
    }
}

impl<T> Collection for LinkedList<T> {
    open spec fn wf(&self) -> bool {
        self.recorded() == self.view().len()
    }

    open spec fn count(&self) -> nat {
        self.view().len()
    }

    fn is_empty(&self) -> (empty: bool) {
        self.size == 0
    }

    fn size(&self) -> (size: usize) {
        self.size
    }
}

} // verus!
