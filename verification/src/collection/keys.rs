//! Keys in strictly ascending order, and the place of a key among them:
//! what the symbol table and the search tree have in common.

use vstd::prelude::*;

use crate::order::{at_most, lemma_total, same_rank, total_order};

verus! {

/// Every key is less than every later key.
pub open spec fn ascending<Key: Ord>(keys: Seq<Key>) -> bool {
    forall|i: int, j: int|
        0 <= i < j < keys.len() ==> !at_most(#[trigger] keys[j], #[trigger] keys[i])
}

/// Where `key` belongs among the keys: behind the last key that is less.
pub open spec fn place<Key: Ord>(keys: Seq<Key>, key: Key) -> int
    decreases keys.len(),
{
    if keys.len() == 0 {
        0
    } else if !at_most(key, keys.last()) {
        keys.len() as int
    } else {
        place(keys.drop_last(), key)
    }
}

/// Whether one of the keys equals `key`; among ascending keys it then stands
/// where `key` belongs.
pub open spec fn present<Key: Ord>(keys: Seq<Key>, key: Key) -> bool {
    place(keys, key) < keys.len() && same_rank(keys[place(keys, key)], key)
}

/// The place of a key among ascending keys is where the keys that are less
/// end.
pub proof fn lemma_place<Key: Ord>(keys: Seq<Key>, key: Key, at: int)
    requires
        total_order::<Key>(),
        ascending(keys),
        0 <= at <= keys.len(),
        forall|k: int| 0 <= k < at ==> !at_most(key, #[trigger] keys[k]),
        forall|k: int| at <= k < keys.len() ==> at_most(key, #[trigger] keys[k]),
    ensures
        place(keys, key) == at,
    decreases keys.len(),
{
    if keys.len() > 0 {
        if at_most(key, keys.last()) {
            let shorter = keys.drop_last();
            assert forall|i: int, j: int| 0 <= i < j < shorter.len() implies !at_most(
                #[trigger] shorter[j],
                #[trigger] shorter[i],
            ) by {
                assert(!at_most(keys[j], keys[i]));
            }
            assert forall|k: int| 0 <= k < at implies !at_most(key, #[trigger] shorter[k]) by {
                assert(!at_most(key, keys[k]));
            }
            assert forall|k: int| at <= k < shorter.len() implies at_most(
                key,
                #[trigger] shorter[k],
            ) by {
                assert(at_most(key, keys[k]));
            }
            lemma_place(shorter, key, at);
        }
    }
}

/// Among ascending keys the place of a key parts the keys that are less
/// from those that are not.
pub proof fn lemma_place_parts<Key: Ord>(keys: Seq<Key>, key: Key)
    requires
        total_order::<Key>(),
        ascending(keys),
    ensures
        0 <= place(keys, key) <= keys.len(),
        forall|k: int| 0 <= k < place(keys, key) ==> !at_most(key, #[trigger] keys[k]),
        forall|k: int| place(keys, key) <= k < keys.len() ==> at_most(key, #[trigger] keys[k]),
    decreases keys.len(),
{
    if keys.len() > 0 {
        let shorter = keys.drop_last();
        assert forall|i: int, j: int| 0 <= i < j < shorter.len() implies !at_most(
            #[trigger] shorter[j],
            #[trigger] shorter[i],
        ) by {
            assert(!at_most(keys[j], keys[i]));
        }
        if !at_most(key, keys.last()) {
            assert forall|k: int| 0 <= k < keys.len() implies !at_most(key, #[trigger] keys[k]) by {
                if k < keys.len() - 1 {
                    assert(!at_most(keys.last(), keys[k]));
                    lemma_total(keys[k], keys.last());
                    lemma_total(key, keys[k]);
                }
            }
        } else {
            lemma_place_parts(shorter, key);
            assert forall|k: int| 0 <= k < place(keys, key) implies !at_most(
                key,
                #[trigger] keys[k],
            ) by {
                assert(!at_most(key, shorter[k]));
            }
            assert forall|k: int| place(keys, key) <= k < keys.len() implies at_most(
                key,
                #[trigger] keys[k],
            ) by {
                if k < keys.len() - 1 {
                    assert(at_most(key, shorter[k]));
                }
            }
        }
    }
}

/// Keys that ascend around a key in their middle: ascending keys, then a
/// key that is greater than all of them, then ascending keys that are all
/// greater than it.
pub open spec fn around<Key: Ord>(before: Seq<Key>, middle: Key, after: Seq<Key>) -> Seq<Key> {
    (before + seq![middle]) + after
}

/// The parts of ascending keys ascend, and lie on their side of the key in
/// the middle.
pub proof fn lemma_around_parts<Key: Ord>(before: Seq<Key>, middle: Key, after: Seq<Key>)
    requires
        ascending(around(before, middle, after)),
    ensures
        ascending(before),
        ascending(after),
        forall|k: int| 0 <= k < before.len() ==> !at_most(middle, #[trigger] before[k]),
        forall|k: int| 0 <= k < after.len() ==> !at_most(#[trigger] after[k], middle),
{
    let all = around(before, middle, after);
    let at = before.len() as int;
    assert(all[at] == middle);
    assert forall|i: int, j: int| 0 <= i < j < before.len() implies !at_most(
        #[trigger] before[j],
        #[trigger] before[i],
    ) by {
        assert(!at_most(all[j], all[i]));
    }
    assert forall|i: int, j: int| 0 <= i < j < after.len() implies !at_most(
        #[trigger] after[j],
        #[trigger] after[i],
    ) by {
        assert(!at_most(all[at + 1 + j], all[at + 1 + i]));
    }
    assert forall|k: int| 0 <= k < before.len() implies !at_most(middle, #[trigger] before[k]) by {
        assert(!at_most(all[at], all[k]));
    }
    assert forall|k: int| 0 <= k < after.len() implies !at_most(#[trigger] after[k], middle) by {
        assert(!at_most(all[at + 1 + k], all[at]));
    }
}

/// The place of a key among keys that ascend around a key in their middle:
/// among those before the middle where it is less than the middle, at the
/// middle where it equals it, and among those after the middle where it is
/// greater.
pub proof fn lemma_place_around<Key: Ord>(
    before: Seq<Key>,
    middle: Key,
    after: Seq<Key>,
    key: Key,
)
    requires
        total_order::<Key>(),
        ascending(around(before, middle, after)),
    ensures
        !at_most(middle, key) ==> {
            &&& place(around(before, middle, after), key) == place(before, key)
            &&& present(around(before, middle, after), key) == present(before, key)
        },
        same_rank(key, middle) ==> {
            &&& place(around(before, middle, after), key) == before.len()
            &&& present(around(before, middle, after), key)
        },
        !at_most(key, middle) ==> {
            &&& place(around(before, middle, after), key) == before.len() + 1 + place(after, key)
            &&& present(around(before, middle, after), key) == present(after, key)
        },
{
    let all = around(before, middle, after);
    let at = before.len() as int;
    lemma_around_parts(before, middle, after);
    lemma_total(key, middle);
    assert(all[at] == middle);
    if !at_most(middle, key) {
        lemma_place_parts(before, key);
        let p = place(before, key);
        assert forall|k: int| 0 <= k < p implies !at_most(key, #[trigger] all[k]) by {
            assert(!at_most(key, before[k]));
        }
        assert forall|k: int| p <= k < all.len() implies at_most(key, #[trigger] all[k]) by {
            if k < at {
                assert(at_most(key, before[k]));
            } else if k > at {
                assert(!at_most(after[k - at - 1], middle));
                lemma_total(after[k - at - 1], middle);
                lemma_total(key, all[k]);
            }
        }
        lemma_place(all, key, p);
        if p < at {
            assert(all[p] == before[p]);
        } else {
            lemma_total(middle, key);
        }
    } else if same_rank(key, middle) {
        assert forall|k: int| 0 <= k < at implies !at_most(key, #[trigger] all[k]) by {
            assert(!at_most(middle, before[k]));
            lemma_total(key, before[k]);
        }
        assert forall|k: int| at <= k < all.len() implies at_most(key, #[trigger] all[k]) by {
            if k > at {
                assert(!at_most(after[k - at - 1], middle));
                lemma_total(after[k - at - 1], middle);
            }
        }
        lemma_place(all, key, at);
        lemma_total(middle, key);
    } else {
        lemma_place_parts(after, key);
        let p = place(after, key);
        assert forall|k: int| 0 <= k < at + 1 + p implies !at_most(key, #[trigger] all[k]) by {
            if k < at {
                assert(!at_most(middle, before[k]));
                lemma_total(key, before[k]);
                lemma_total(middle, before[k]);
            } else if k > at {
                assert(!at_most(key, after[k - at - 1]));
            }
        }
        assert forall|k: int| at + 1 + p <= k < all.len() implies at_most(
            key,
            #[trigger] all[k],
        ) by {
            assert(at_most(key, after[k - at - 1]));
        }
        lemma_place(all, key, at + 1 + p);
        if p < after.len() {
            assert(all[at + 1 + p] == after[p]);
        }
    }
}

/// The keys after `key` is put: as they are where it is among them, and
/// with `key` at its place where it is not.
pub open spec fn keys_with<Key: Ord>(keys: Seq<Key>, key: Key) -> Seq<Key> {
    if present(keys, key) {
        keys
    } else {
        keys.insert(place(keys, key), key)
    }
}

/// The values after `value` is put for `key`: in place of the value of
/// `key`, or as one more value at the place of `key`.
pub open spec fn values_with<Key: Ord, Value>(
    keys: Seq<Key>,
    values: Seq<Value>,
    key: Key,
    value: Value,
) -> Seq<Value> {
    if present(keys, key) {
        values.update(place(keys, key), value)
    } else {
        values.insert(place(keys, key), value)
    }
}

/// The keys after `key` is taken out.
pub open spec fn keys_without<Key: Ord>(keys: Seq<Key>, key: Key) -> Seq<Key> {
    if present(keys, key) {
        keys.remove(place(keys, key))
    } else {
        keys
    }
}

/// The values after `key` is taken out with its value.
pub open spec fn values_without<Key: Ord, Value>(
    keys: Seq<Key>,
    values: Seq<Value>,
    key: Key,
) -> Seq<Value> {
    if present(keys, key) {
        values.remove(place(keys, key))
    } else {
        values
    }
}

/// Ascending keys ascend after a key is put.
pub proof fn lemma_keys_with<Key: Ord>(keys: Seq<Key>, key: Key)
    requires
        total_order::<Key>(),
        ascending(keys),
    ensures
        ascending(keys_with(keys, key)),
{
    if !present(keys, key) {
        lemma_place_parts(keys, key);
        let at = place(keys, key);
        let after = keys.insert(at, key);
        assert forall|i: int, j: int| 0 <= i < j < after.len() implies !at_most(
            #[trigger] after[j],
            #[trigger] after[i],
        ) by {
            lemma_total(after[i], after[j]);
            if i == at {
                assert(at_most(key, keys[j - 1]));
                lemma_total(keys[j - 1], key);
                if j - 1 == at {
                } else {
                    assert(!at_most(keys[j - 1], keys[at]));
                    assert(at_most(key, keys[at]));
                }
            } else if j == at {
                assert(!at_most(key, keys[i]));
            } else {
                let from = if i < at {
                    i
                } else {
                    i - 1
                };
                let to = if j < at {
                    j
                } else {
                    j - 1
                };
                assert(!at_most(keys[to], keys[from]));
            }
        }
    }
}

/// Ascending keys ascend after a key is taken out.
pub proof fn lemma_keys_without<Key: Ord>(keys: Seq<Key>, key: Key)
    requires
        total_order::<Key>(),
        ascending(keys),
    ensures
        ascending(keys_without(keys, key)),
{
    if present(keys, key) {
        lemma_place_parts(keys, key);
        let at = place(keys, key);
        let fewer = keys.remove(at);
        assert forall|i: int, j: int| 0 <= i < j < fewer.len() implies !at_most(
            #[trigger] fewer[j],
            #[trigger] fewer[i],
        ) by {
            let from = if i < at {
                i
            } else {
                i + 1
            };
            let to = if j < at {
                j
            } else {
                j + 1
            };
            assert(!at_most(keys[to], keys[from]));
        }
    }
}

/// Putting a key that is less than the key in the middle puts it among the
/// keys before the middle.
pub proof fn lemma_with_before<Key: Ord, Value>(
    before: Seq<Key>,
    middle: Key,
    after: Seq<Key>,
    values_before: Seq<Value>,
    value_in_middle: Value,
    values_after: Seq<Value>,
    key: Key,
    value: Value,
)
    requires
        total_order::<Key>(),
        ascending(around(before, middle, after)),
        values_before.len() == before.len(),
        !at_most(middle, key),
    ensures
        keys_with(around(before, middle, after), key) == around(
            keys_with(before, key),
            middle,
            after,
        ),
        values_with(
            around(before, middle, after),
            (values_before + seq![value_in_middle]) + values_after,
            key,
            value,
        ) == (values_with(before, values_before, key, value) + seq![value_in_middle])
            + values_after,
{
    lemma_place_around(before, middle, after, key);
    lemma_around_parts(before, middle, after);
    lemma_place_parts(before, key);
    let at = place(before, key);
    let all_values = (values_before + seq![value_in_middle]) + values_after;
    if present(before, key) {
        assert(all_values.update(at, value) =~= (values_before.update(at, value)
            + seq![value_in_middle]) + values_after);
    } else {
        assert(around(before, middle, after).insert(at, key) =~= around(
            before.insert(at, key),
            middle,
            after,
        ));
        assert(all_values.insert(at, value) =~= (values_before.insert(at, value)
            + seq![value_in_middle]) + values_after);
    }
}

/// Putting a key that is greater than the key in the middle puts it among
/// the keys after the middle.
pub proof fn lemma_with_after<Key: Ord, Value>(
    before: Seq<Key>,
    middle: Key,
    after: Seq<Key>,
    values_before: Seq<Value>,
    value_in_middle: Value,
    values_after: Seq<Value>,
    key: Key,
    value: Value,
)
    requires
        total_order::<Key>(),
        ascending(around(before, middle, after)),
        values_before.len() == before.len(),
        values_after.len() == after.len(),
        !at_most(key, middle),
    ensures
        keys_with(around(before, middle, after), key) == around(
            before,
            middle,
            keys_with(after, key),
        ),
        values_with(
            around(before, middle, after),
            (values_before + seq![value_in_middle]) + values_after,
            key,
            value,
        ) == (values_before + seq![value_in_middle]) + values_with(
            after,
            values_after,
            key,
            value,
        ),
{
    lemma_place_around(before, middle, after, key);
    lemma_around_parts(before, middle, after);
    lemma_place_parts(after, key);
    let at = place(after, key);
    let whole = before.len() + 1 + at;
    let all_values = (values_before + seq![value_in_middle]) + values_after;
    if present(after, key) {
        assert(all_values.update(whole, value) =~= (values_before + seq![value_in_middle])
            + values_after.update(at, value));
    } else {
        assert(around(before, middle, after).insert(whole, key) =~= around(
            before,
            middle,
            after.insert(at, key),
        ));
        assert(all_values.insert(whole, value) =~= (values_before + seq![value_in_middle])
            + values_after.insert(at, value));
    }
}

/// Putting a key that equals the key in the middle leaves the keys as they
/// are and puts the value in the middle.
pub proof fn lemma_with_middle<Key: Ord, Value>(
    before: Seq<Key>,
    middle: Key,
    after: Seq<Key>,
    values_before: Seq<Value>,
    value_in_middle: Value,
    values_after: Seq<Value>,
    key: Key,
    value: Value,
)
    requires
        total_order::<Key>(),
        ascending(around(before, middle, after)),
        values_before.len() == before.len(),
        same_rank(key, middle),
    ensures
        keys_with(around(before, middle, after), key) == around(before, middle, after),
        values_with(
            around(before, middle, after),
            (values_before + seq![value_in_middle]) + values_after,
            key,
            value,
        ) == (values_before + seq![value]) + values_after,
{
    lemma_place_around(before, middle, after, key);
    let all_values = (values_before + seq![value_in_middle]) + values_after;
    assert(all_values.update(before.len() as int, value) =~= (values_before + seq![value])
        + values_after);
}

/// Taking out a key that is less than the key in the middle takes it out
/// of the keys before the middle.
pub proof fn lemma_without_before<Key: Ord, Value>(
    before: Seq<Key>,
    middle: Key,
    after: Seq<Key>,
    values_before: Seq<Value>,
    value_in_middle: Value,
    values_after: Seq<Value>,
    key: Key,
)
    requires
        total_order::<Key>(),
        ascending(around(before, middle, after)),
        values_before.len() == before.len(),
        !at_most(middle, key),
    ensures
        present(around(before, middle, after), key) == present(before, key),
        keys_without(around(before, middle, after), key) == around(
            keys_without(before, key),
            middle,
            after,
        ),
        values_without(
            around(before, middle, after),
            (values_before + seq![value_in_middle]) + values_after,
            key,
        ) == (values_without(before, values_before, key) + seq![value_in_middle]) + values_after,
{
    lemma_place_around(before, middle, after, key);
    lemma_around_parts(before, middle, after);
    lemma_place_parts(before, key);
    let at = place(before, key);
    let all_values = (values_before + seq![value_in_middle]) + values_after;
    if present(before, key) {
        assert(around(before, middle, after).remove(at) =~= around(
            before.remove(at),
            middle,
            after,
        ));
        assert(all_values.remove(at) =~= (values_before.remove(at) + seq![value_in_middle])
            + values_after);
    }
}

/// Taking out a key that is greater than the key in the middle takes it
/// out of the keys after the middle.
pub proof fn lemma_without_after<Key: Ord, Value>(
    before: Seq<Key>,
    middle: Key,
    after: Seq<Key>,
    values_before: Seq<Value>,
    value_in_middle: Value,
    values_after: Seq<Value>,
    key: Key,
)
    requires
        total_order::<Key>(),
        ascending(around(before, middle, after)),
        values_before.len() == before.len(),
        values_after.len() == after.len(),
        !at_most(key, middle),
    ensures
        present(around(before, middle, after), key) == present(after, key),
        keys_without(around(before, middle, after), key) == around(
            before,
            middle,
            keys_without(after, key),
        ),
        values_without(
            around(before, middle, after),
            (values_before + seq![value_in_middle]) + values_after,
            key,
        ) == (values_before + seq![value_in_middle]) + values_without(after, values_after, key),
{
    lemma_place_around(before, middle, after, key);
    lemma_around_parts(before, middle, after);
    lemma_place_parts(after, key);
    let at = place(after, key);
    let whole = before.len() + 1 + at;
    let all_values = (values_before + seq![value_in_middle]) + values_after;
    if present(after, key) {
        assert(around(before, middle, after).remove(whole) =~= around(
            before,
            middle,
            after.remove(at),
        ));
        assert(all_values.remove(whole) =~= (values_before + seq![value_in_middle])
            + values_after.remove(at));
    }
}

/// Taking out a key that equals the key in the middle takes the middle
/// out.
pub proof fn lemma_without_middle<Key: Ord, Value>(
    before: Seq<Key>,
    middle: Key,
    after: Seq<Key>,
    values_before: Seq<Value>,
    value_in_middle: Value,
    values_after: Seq<Value>,
    key: Key,
)
    requires
        total_order::<Key>(),
        ascending(around(before, middle, after)),
        values_before.len() == before.len(),
        same_rank(key, middle),
    ensures
        present(around(before, middle, after), key),
        keys_without(around(before, middle, after), key) == before + after,
        values_without(
            around(before, middle, after),
            (values_before + seq![value_in_middle]) + values_after,
            key,
        ) == values_before + values_after,
{
    lemma_place_around(before, middle, after, key);
    let at = before.len() as int;
    let all_values = (values_before + seq![value_in_middle]) + values_after;
    assert(around(before, middle, after).remove(at) =~= before + after);
    assert(all_values.remove(at) =~= values_before + values_after);
}

} // verus!
