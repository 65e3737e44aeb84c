//! A symbol table in two vectors: the keys in strictly ascending order, and
//! beside each key its value. Keys are found by binary search.

use vstd::prelude::*;

use crate::collection::keys::{
    ascending, keys_with, lemma_keys_with, lemma_place, place, present, values_with,
};
use crate::order::{at_most, compare, lemma_total, same_rank, total_order, Rank};

verus! {

/// Keys with a value each, found by binary search among the keys.
pub struct SymbolTable<Key: Ord, Value> {
    keys: Vec<Key>,
    values: Vec<Value>,
}

impl<Key: Ord, Value> SymbolTable<Key, Value> {
    /// The keys, in ascending order.
    pub closed spec fn key_seq(&self) -> Seq<Key> {
        self.keys@
    }

    /// The values, each at the index of its key.
    pub closed spec fn value_seq(&self) -> Seq<Value> {
        self.values@
    }

    /// The invariant of the representation: a value for every key, and the
    /// keys in strictly ascending order.
    pub open spec fn wf(&self) -> bool {
        &&& self.key_seq().len() == self.value_seq().len()
        &&& ascending(self.key_seq())
    }

    /// The table without keys.
    pub fn new() -> (table: SymbolTable<Key, Value>)
        ensures
            table.wf(),
            table.key_seq() == Seq::<Key>::empty(),
            table.value_seq() == Seq::<Value>::empty(),
    {
        SymbolTable { keys: Vec::new(), values: Vec::new() }
    }

    /// The keys, in ascending order.
    pub fn keys(&self) -> (keys: &Vec<Key>)
        ensures
            keys@ == self.key_seq(),
    {
        &self.keys
    }

    /// The values, each at the index of its key.
    pub fn values(&self) -> (values: &Vec<Value>)
        ensures
            values@ == self.value_seq(),
    {
        &self.values
    }

    /// Gives `key` the value `value`: in place of the value that it had, or
    /// as a new key where it belongs.
    pub fn put(&mut self, key: Key, value: Value)
        requires
            total_order::<Key>(),
            old(self).wf(),
        ensures
            final(self).wf(),
            final(self).key_seq() == keys_with(old(self).key_seq(), key),
            final(self).value_seq() == values_with(
                old(self).key_seq(),
                old(self).value_seq(),
                key,
                value,
            ),
    {
        proof {
            lemma_keys_with(self.keys@, key);
        }
        if self.keys.len() == 0 {
            self.keys.push(key);
            self.values.push(value);
            proof {
                assert(self.keys@ =~= old(self).keys@.insert(0, key));
                assert(self.values@ =~= old(self).values@.insert(0, value));
            }
            return ;
        }
        let (current_index, needed_index) = self.index(&key);
        if let Some(current_index) = current_index {
            self.values.set(current_index, value);
        } else {
            self.keys.insert(needed_index, key);
            self.values.insert(needed_index, value);
        }
    }

    /// The value of `key`, where the table, which has at least one key,
    /// holds it.
    pub fn get(&self, key: Key) -> (value: Option<&Value>)
        requires
            total_order::<Key>(),
            self.wf(),
            self.key_seq().len() > 0,
        ensures
            present(self.key_seq(), key) ==> value == Some(
                &self.value_seq()[place(self.key_seq(), key)],
            ),
            !present(self.key_seq(), key) ==> value is None,
    {
        let (current_index, _) = self.index(&key);
        if let Some(current_index) = current_index {
            Some(&self.values[current_index])
        } else {
            None
        }
    }

    /// The index of `key` where the table holds it, and in either case the
    /// index where it belongs.
    fn index(&self, key: &Key) -> (found: (Option<usize>, usize))
        requires
            total_order::<Key>(),
            self.wf(),
            self.key_seq().len() > 0,
        ensures
            found.1 == place(self.key_seq(), *key),
            found.0 == if present(self.key_seq(), *key) {
                Some(found.1)
            } else {
                None
            },
            forall|k: int| 0 <= k < found.1 ==> !at_most(*key, #[trigger] self.key_seq()[k]),
            forall|k: int|
                found.1 <= k < self.key_seq().len() ==> at_most(*key, #[trigger] self.key_seq()[k]),
            found.0 is None ==> forall|k: int|
                0 <= k < self.key_seq().len() ==> !same_rank(#[trigger] self.key_seq()[k], *key),
    {
        let mut low: usize = 0;
        let mut high: usize = self.keys.len();
        loop
            invariant_except_break
                low < high,
            invariant
                total_order::<Key>(),
                ascending(self.keys@),
                low <= high <= self.keys@.len(),
                forall|k: int| 0 <= k < low ==> !at_most(*key, #[trigger] self.keys@[k]),
                forall|k: int|
                    high <= k < self.keys@.len() ==> !at_most(#[trigger] self.keys@[k], *key),
            ensures
                low == high,
            decreases high - low,
        {
            // the index halfway between the two bounds, found without
            // adding them up
            let mid = low + (high - low) / 2;
            let mid_value = &self.keys[mid];
            proof {
                lemma_total(*mid_value, *key);
            }
            match compare(mid_value, key) {
                Rank::Less => {
                    proof {
                        assert forall|k: int| 0 <= k < mid + 1 implies !at_most(
                            *key,
                            #[trigger] self.keys@[k],
                        ) by {
                            if k < mid {
                                assert(!at_most(self.keys@[mid as int], self.keys@[k]));
                                lemma_total(self.keys@[k], *key);
                            }
                        }
                    }
                    low = mid + 1;
                },
                Rank::Equal => {
                    proof {
                        assert forall|k: int| 0 <= k < mid implies !at_most(
                            *key,
                            #[trigger] self.keys@[k],
                        ) by {
                            assert(!at_most(self.keys@[mid as int], self.keys@[k]));
                        }
                        assert forall|k: int| mid <= k < self.keys@.len() implies at_most(
                            *key,
                            #[trigger] self.keys@[k],
                        ) by {
                            if k > mid {
                                assert(!at_most(self.keys@[k], self.keys@[mid as int]));
                                lemma_total(self.keys@[k], self.keys@[mid as int]);
                            }
                        }
                        lemma_place(self.keys@, *key, mid as int);
                    }
                    return (Some(mid), mid);
                },
                Rank::Greater => {
                    proof {
                        assert forall|k: int| mid <= k < self.keys@.len() implies !at_most(
                            #[trigger] self.keys@[k],
                            *key,
                        ) by {
                            if k > mid {
                                assert(!at_most(self.keys@[k], self.keys@[mid as int]));
                                lemma_total(self.keys@[k], *key);
                            }
                        }
                    }
                    high = mid;
                },
            }
            if low >= high {
                break ;
            }
        }
        proof {
            assert forall|k: int| low <= k < self.keys@.len() implies at_most(
                *key,
                #[trigger] self.keys@[k],
            ) by {
                lemma_total(self.keys@[k], *key);
            }
            lemma_place(self.keys@, *key, low as int);
            assert forall|k: int| 0 <= k < self.keys@.len() implies !same_rank(
                #[trigger] self.keys@[k],
                *key,
            ) by {
                lemma_total(self.keys@[k], *key);
            }
        }
        (None, low)
    }
}

impl<Key: Ord, Value> Default for SymbolTable<Key, Value> {
    fn default() -> (table: Self)
        ensures
            table.wf(),
            table.key_seq() == Seq::<Key>::empty(),
            table.value_seq() == Seq::<Value>::empty(),
    {
        Self::new()
    }
}

} // verus!
