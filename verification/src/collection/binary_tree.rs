//! A binary search tree: every node holds a key and a value, the keys
//! under its left side are less than its key and those under its right side
//! are greater. Read from left to right the keys ascend.

use vstd::prelude::*;

use crate::collection::keys::{
    around, ascending, keys_with, keys_without, lemma_around_parts, lemma_keys_with,
    lemma_keys_without, lemma_place_around, lemma_place_parts, lemma_with_after,
    lemma_with_before, lemma_with_middle, lemma_without_after, lemma_without_before,
    lemma_without_middle, place, present, values_with, values_without,
};
use crate::order::{at_most, compare, lemma_total, total_order, Rank};

verus! {

/// A key with its value, and the trees of the keys that are less and of
/// those that are greater.
pub struct Node<K: Ord, V> {
    key: K,
    value: V,
    left: Option<Box<Node<K, V>>>,
    right: Option<Box<Node<K, V>>>,
}

/// The keys under a link, from left to right.
pub closed spec fn keys_under<K: Ord, V>(link: Option<Box<Node<K, V>>>) -> Seq<K>
    decreases link,
{
    match link {
        None => Seq::empty(),
        Some(node) => around(keys_under(node.left), node.key, keys_under(node.right)),
    }
}

/// The values under a link, each where its key is.
pub closed spec fn values_under<K: Ord, V>(link: Option<Box<Node<K, V>>>) -> Seq<V>
    decreases link,
{
    match link {
        None => Seq::empty(),
        Some(node) => (values_under(node.left) + seq![node.value]) + values_under(node.right),
    }
}

/// There are as many values under a link as keys.
pub proof fn lemma_as_many_values<K: Ord, V>(link: Option<Box<Node<K, V>>>)
    ensures
        values_under(link).len() == keys_under(link).len(),
    decreases link,
{
    match link {
        None => {},
        Some(node) => {
            lemma_as_many_values(node.left);
            lemma_as_many_values(node.right);
        },
    }
}

impl<K: Ord, V> Node<K, V> {
    /// The key of the node.
    pub closed spec fn key_spec(&self) -> K {
        self.key
    }

    /// The value of the node.
    pub closed spec fn value_spec(&self) -> V {
        self.value
    }

    /// The keys under the left side of the node.
    pub closed spec fn left_keys(&self) -> Seq<K> {
        keys_under(self.left)
    }

    /// The keys under the right side of the node.
    pub closed spec fn right_keys(&self) -> Seq<K> {
        keys_under(self.right)
    }

    /// The keys of the node and under it, from left to right.
    pub open spec fn keys(&self) -> Seq<K> {
        around(self.left_keys(), self.key_spec(), self.right_keys())
    }

    /// The node of `key` and `value` with nothing under it.

    fn new(key: K, value: V) -> (node: Node<K, V>)
        ensures
            node.key == key,
            node.value == value,
            node.left is None,
            node.right is None,
    {
        Node { key, value, left: None, right: None }
    }

    /// The key of the node.
    pub fn key(&self) -> (key: &K)
        ensures
            *key == self.key_spec(),
    {
        &self.key
    }

    /// The value of the node.
    pub fn value(&self) -> (value: &V)
        ensures
            *value == self.value_spec(),
    {
        &self.value
    }

    /// The node at the left side, where there is one.
    pub fn left(&self) -> (child: Option<&Node<K, V>>)
        ensures
            child is None <==> self.left_keys().len() == 0,
            child matches Some(node) ==> node.keys() == self.left_keys(),
    {
        match &self.left {
            None => None,
            Some(node) => {
                assert(keys_under(self.left) == node.keys());
                Some(&**node)
            },
        }
    }

    /// The node at the right side, where there is one.
    pub fn right(&self) -> (child: Option<&Node<K, V>>)
        ensures
            child is None <==> self.right_keys().len() == 0,
            child matches Some(node) ==> node.keys() == self.right_keys(),
    {
        match &self.right {
            None => None,
            Some(node) => {
                assert(keys_under(self.right) == node.keys());
                Some(&**node)
            },
        }
    }
}

/// Keys with a value each, in a tree that is searched from its top.
pub struct BinarySearchTree<K: Ord, V> {
    root: Option<Box<Node<K, V>>>,
    length: usize,
}

impl<K: Ord, V> BinarySearchTree<K, V> {
    /// The keys, in ascending order.
    pub closed spec fn key_seq(&self) -> Seq<K> {
        keys_under(self.root)
    }

    /// The values, each at the index of its key.
    pub closed spec fn value_seq(&self) -> Seq<V> {
        values_under(self.root)
    }

    /// How often a value was put, whether for a new key or for an old
    /// one.
    pub closed spec fn puts(&self) -> nat {
        self.length as nat
    }

    /// The invariant of the representation: the keys ascend.
    pub open spec fn wf(&self) -> bool {
        ascending(self.key_seq())
    }

    /// A value for every key.
    pub proof fn lemma_as_many_values(&self)
        ensures
            self.value_seq().len() == self.key_seq().len(),
    {
        lemma_as_many_values(self.root);
    }

    /// The tree without keys.
    pub fn new() -> (tree: Self)
        ensures
            tree.wf(),
            tree.key_seq() == Seq::<K>::empty(),
            tree.value_seq() == Seq::<V>::empty(),
            tree.puts() == 0,
    {
        Self { root: None, length: 0 }
    }

    /// How often a value was put.
    pub fn length(&self) -> (length: usize)
        ensures
            length == self.puts(),
    {
        self.length
    }

    /// The node at the top of the tree, where there is one.
    pub fn root(&self) -> (top: Option<&Node<K, V>>)
        ensures
            top is None <==> self.key_seq().len() == 0,
            top matches Some(node) ==> node.keys() == self.key_seq(),
    {
        match &self.root {
            None => None,
            Some(node) => {
                assert(keys_under(self.root) == node.keys());
                Some(&**node)
            },
        }
    }

    /// The value of `key`, where the tree holds it.
    pub fn get(&self, key: K) -> (value: Option<&V>)
        requires
            total_order::<K>(),
            self.wf(),
        ensures
            present(self.key_seq(), key) ==> value == Some(
                &self.value_seq()[place(self.key_seq(), key)],
            ),
            !present(self.key_seq(), key) ==> value is None,
    {
        let mut current = &self.root;
        let ghost all_keys = keys_under(self.root);
        let ghost all_values = values_under(self.root);
        let ghost mut offset: int = 0;
        proof {
            lemma_as_many_values(self.root);
        }
        loop
            invariant
                total_order::<K>(),
                all_keys == self.key_seq(),
                all_values == self.value_seq(),
                ascending(keys_under(*current)),
                0 <= offset,
                offset + keys_under(*current).len() <= all_keys.len(),
                all_values.len() == all_keys.len(),
                place(all_keys, key) == offset + place(keys_under(*current), key),
                present(all_keys, key) == present(keys_under(*current), key),
                forall|j: int|
                    0 <= j < values_under(*current).len() ==> all_values[offset + j]
                        == #[trigger] values_under(*current)[j],
            decreases *current,
        {
            proof {
                lemma_as_many_values(*current);
            }
            match current {
                None => {
                    assert(keys_under(*current) =~= Seq::<K>::empty());
                    return None;
                },
                Some(node) => {
                    proof {
                        lemma_around_parts(keys_under(node.left), node.key, keys_under(node.right));
                        lemma_place_around(
                            keys_under(node.left),
                            node.key,
                            keys_under(node.right),
                            key,
                        );
                        lemma_total(key, node.key);
                        lemma_as_many_values(node.left);
                        lemma_as_many_values(node.right);
                    }
                    let ghost under = values_under(*current);
                    let ghost to_the_left = keys_under(node.left).len() as int;
                    match compare(&key, &node.key) {
                        Rank::Less => {
                            proof {
                                assert forall|j: int|
                                    0 <= j < values_under(node.left).len() implies all_values[offset
                                        + j] == #[trigger] values_under(node.left)[j] by {
                                    assert(under[j] == values_under(node.left)[j]);
                                }
                            }
                            current = &node.left;
                        },
                        Rank::Equal => {
                            proof {
                                assert(under[to_the_left] == node.value);
                                assert(all_values[offset + to_the_left] == under[to_the_left]);
                            }
                            return Some(&node.value);
                        },
                        Rank::Greater => {
                            proof {
                                let skipped = offset + to_the_left + 1;
                                let right_values = values_under(node.right);
                                assert forall|j: int|
                                    0 <= j < right_values.len() implies all_values[skipped + j]
                                        == #[trigger] right_values[j] by {
                                    assert(under[to_the_left + 1 + j] == right_values[j]);
                                }
                                offset = offset + to_the_left + 1;
                            }
                            current = &node.right;
                        },
                    }
                },
            }
        }
    }

    /// Gives `key` the value `value`: in place of the value that it had, or
    /// as a new key where it belongs.
    pub fn put(&mut self, key: K, value: V)
        requires
            total_order::<K>(),
            old(self).wf(),
            old(self).puts() < usize::MAX,
        ensures
            final(self).wf(),
            final(self).puts() == old(self).puts() + 1,
            final(self).key_seq() == keys_with(old(self).key_seq(), key),
            final(self).value_seq() == values_with(
                old(self).key_seq(),
                old(self).value_seq(),
                key,
                value,
            ),
    {
        let root = self.root.take();
        self.root = Self::upsert(root, key, value);
        self.length = self.length + 1;
    }

    /// The value of the least key, where there is a key.
    pub fn min(&self) -> (value: Option<&V>)
        ensures
            self.value_seq().len() == 0 ==> value is None,
            self.value_seq().len() > 0 ==> value == Some(&self.value_seq().first()),
    {
        match &self.root {
            None => None,
            Some(root_link) => {
                let current = Self::find_min(root_link);
                Some(&current.value)
            },
        }
    }

    /// The value of the greatest key, where there is a key.
    pub fn max(&self) -> (value: Option<&V>)
        ensures
            self.value_seq().len() == 0 ==> value is None,
            self.value_seq().len() > 0 ==> value == Some(&self.value_seq().last()),
    {
        match &self.root {
            None => None,
            Some(root_link) => {
                let mut current: &Node<K, V> = root_link;
                let ghost all = values_under(self.root);
                proof {
                    lemma_as_many_values(current.right);
                }
                while current.right.is_some()
                    invariant
                        all.len() > 0,
                        all.last() == ((values_under(current.left) + seq![current.value])
                            + values_under(current.right)).last(),
                    ensures
                        current.right is None,
                    decreases current.right,
                {
                    match &current.right {
                        None => {
                            break ;
                        },
                        Some(link) => {
                            proof {
                                lemma_as_many_values(link.right);
                            }
                            current = link;
                        },
                    }
                }
                Some(&current.value)
            },
        }
    }

    /// Takes the least key and its value out, where there is a key.
    pub fn delete_min(&mut self)
        requires
            old(self).wf(),
        ensures
            final(self).wf(),
            final(self).puts() == old(self).puts(),
            old(self).key_seq().len() == 0 ==> final(self).key_seq() == old(self).key_seq()
                && final(self).value_seq() == old(self).value_seq(),
            old(self).key_seq().len() > 0 ==> final(self).key_seq() == old(
                self,
            ).key_seq().drop_first() && final(self).value_seq() == old(
                self,
            ).value_seq().drop_first(),
    {
        match self.root.take() {
            None => {
                //do nothing
            },
            Some(root) => {
                let result = Self::_delete_min(root);
                self.root = result.new_link;
                proof {
                    let before = old(self).key_seq();
                    let after = before.drop_first();
                    assert forall|i: int, j: int| 0 <= i < j < after.len() implies !at_most(
                        #[trigger] after[j],
                        #[trigger] after[i],
                    ) by {
                        assert(!at_most(before[j + 1], before[i + 1]));
                    }
                }
            },
        }
    }

    /// Takes `key` and its value out, where the tree holds it.
    pub fn delete(&mut self, key: K)
        requires
            total_order::<K>(),
            old(self).wf(),
        ensures
            final(self).wf(),
            final(self).puts() == old(self).puts(),
            final(self).key_seq() == keys_without(old(self).key_seq(), key),
            final(self).value_seq() == values_without(
                old(self).key_seq(),
                old(self).value_seq(),
                key,
            ),
    {
        match self.root.take() {
            None => {
                //do nothing
            },
            Some(root) => {
                let (new_link, _) = Self::_delete(root, key);
                self.root = new_link;
            },
        }
    }

    /// The node with the least key under `root_link`.
    fn find_min(root_link: &Node<K, V>) -> (least: &Node<K, V>)
        ensures
            least.value == ((values_under(root_link.left) + seq![root_link.value]) + values_under(
                root_link.right,
            )).first(),
            least.key == around(
                keys_under(root_link.left),
                root_link.key,
                keys_under(root_link.right),
            ).first(),
    {
        let mut current = root_link;
        let ghost values = (values_under(root_link.left) + seq![root_link.value]) + values_under(
            root_link.right,
        );
        let ghost keys = around(
            keys_under(root_link.left),
            root_link.key,
            keys_under(root_link.right),
        );
        while current.left.is_some()
            invariant
                values.first() == ((values_under(current.left) + seq![current.value])
                    + values_under(current.right)).first(),
                keys.first() == around(
                    keys_under(current.left),
                    current.key,
                    keys_under(current.right),
                ).first(),
            ensures
                current.left is None,
            decreases current.left,
        {
            match &current.left {
                None => {
                    break ;
                },
                Some(link) => {
                    proof {
                        lemma_as_many_values(link.left);
                    }
                    current = link;
                },
            }
        }
        current
    }

    /// Takes `key` out of the tree under `root`: gives the tree that stays
    /// and, where the tree held the key, the key and the value taken out.
    fn _delete(root: Box<Node<K, V>>, key: K) -> (result: (
        Option<Box<Node<K, V>>>,
        Option<(K, V)>,
    ))
        requires
            total_order::<K>(),
            ascending(keys_under(Some(root))),
        ensures
            ascending(keys_under(result.0)),
            result.1 is Some == present(keys_under(Some(root)), key),
            result.1 matches Some(taken) ==> {
                &&& taken.0 == keys_under(Some(root))[place(keys_under(Some(root)), key)]
                &&& taken.1 == values_under(Some(root))[place(keys_under(Some(root)), key)]
            },
            keys_under(result.0) == keys_without(keys_under(Some(root)), key),
            values_under(result.0) == values_without(
                keys_under(Some(root)),
                values_under(Some(root)),
                key,
            ),
        decreases root,
    {
        let mut root = root;
        let ghost left_keys = keys_under(root.left);
        let ghost right_keys = keys_under(root.right);
        let ghost left_values = values_under(root.left);
        let ghost right_values = values_under(root.right);
        let ghost top_key = root.key;
        let ghost top_value = root.value;
        proof {
            lemma_around_parts(left_keys, top_key, right_keys);
            lemma_total(key, top_key);
            lemma_as_many_values(root.left);
            lemma_as_many_values(root.right);
            lemma_keys_without(around(left_keys, top_key, right_keys), key);
            lemma_place_around(left_keys, top_key, right_keys, key);
            lemma_place_parts(left_keys, key);
            lemma_place_parts(right_keys, key);
        }
        match compare(&key, &root.key) {
            Rank::Less => {
                proof {
                    lemma_without_before(
                        left_keys,
                        top_key,
                        right_keys,
                        left_values,
                        top_value,
                        right_values,
                        key,
                    );
                }
                match root.left.take() {
                    None => (Some(root), None),
                    Some(left) => {
                        let (new_left, deleted) = Self::_delete(left, key);
                        root.left = new_left;
                        (Some(root), deleted)
                    },
                }
            },
            Rank::Greater => {
                proof {
                    lemma_without_after(
                        left_keys,
                        top_key,
                        right_keys,
                        left_values,
                        top_value,
                        right_values,
                        key,
                    );
                }
                match root.right.take() {
                    None => (Some(root), None),
                    Some(right) => {
                        let (new_right, deleted) = Self::_delete(right, key);
                        root.right = new_right;
                        (Some(root), deleted)
                    },
                }
            },
            Rank::Equal => {
                proof {
                    lemma_without_middle(
                        left_keys,
                        top_key,
                        right_keys,
                        left_values,
                        top_value,
                        right_values,
                        key,
                    );
                }
                let Node { key: deleted_key, value: deleted_value, left, right } = *root;
                let deleted = Some((deleted_key, deleted_value));
                match (left, right) {
                    (Some(left), Some(right)) => {
                        // the least key of the right side takes the place
                        // of the key that goes
                        let least = Self::_delete_min(right);
                        proof {
                            assert(left_keys + right_keys =~= around(
                                left_keys,
                                least.deleted_key,
                                right_keys.drop_first(),
                            ));
                            assert(left_values + right_values =~= (left_values
                                + seq![least.deleted_value]) + right_values.drop_first());
                        }
                        let stays = Node {
                            key: least.deleted_key,
                            value: least.deleted_value,
                            left: Some(left),
                            right: least.new_link,
                        };
                        (Some(Box::new(stays)), deleted)
                    },
                    (None, Some(right)) => {
                        proof {
                            assert(left_keys + right_keys =~= right_keys);
                            assert(left_values + right_values =~= right_values);
                        }
                        (Some(right), deleted)
                    },
                    (Some(left), None) => {
                        proof {
                            assert(left_keys + right_keys =~= left_keys);
                            assert(left_values + right_values =~= left_values);
                        }
                        (Some(left), deleted)
                    },
                    (None, None) => {
                        proof {
                            assert(left_keys + right_keys =~= Seq::<K>::empty());
                            assert(left_values + right_values =~= Seq::<V>::empty());
                        }
                        (None, deleted)
                    },
                }
            },
        }
    }

    /// Takes the least key out of the tree under `root`.
    fn _delete_min(root: Box<Node<K, V>>) -> (result: DeleteResult<K, V>)
        ensures
            keys_under(result.new_link) == keys_under(Some(root)).drop_first(),
            values_under(result.new_link) == values_under(Some(root)).drop_first(),
            result.deleted_key == keys_under(Some(root)).first(),
            result.deleted_value == values_under(Some(root)).first(),
        decreases root,
    {
        let mut root = root;
        let ghost left_keys = keys_under(root.left);
        let ghost right_keys = keys_under(root.right);
        let ghost left_values = values_under(root.left);
        let ghost right_values = values_under(root.right);
        let ghost top_key = root.key;
        let ghost top_value = root.value;
        proof {
            lemma_as_many_values(root.left);
        }
        match root.left.take() {
            None => {
                let Node { key, value, left: _, right } = *root;
                proof {
                    assert(around(left_keys, top_key, right_keys).drop_first() =~= right_keys);
                    assert(((left_values + seq![top_value]) + right_values).drop_first()
                        =~= right_values);
                }
                DeleteResult { new_link: right, deleted_key: key, deleted_value: value }
            },
            Some(left) => {
                let result = Self::_delete_min(left);
                proof {
                    assert(around(left_keys, top_key, right_keys).drop_first() =~= around(
                        left_keys.drop_first(),
                        top_key,
                        right_keys,
                    ));
                    assert(((left_values + seq![top_value]) + right_values).drop_first() =~= (
                    left_values.drop_first() + seq![top_value]) + right_values);
                }
                root.left = result.new_link;
                DeleteResult {
                    new_link: Some(root),
                    deleted_key: result.deleted_key,
                    deleted_value: result.deleted_value,
                }
            },
        }
    }

    /// Takes every key out.
    pub fn clean(&mut self)
        ensures
            final(self).wf(),
            final(self).key_seq() == Seq::<K>::empty(),
            final(self).value_seq() == Seq::<V>::empty(),
            final(self).puts() == old(self).puts(),
    {
        Self::remove_tree(self.root.take())
    }

    /// Gives the nodes under `root` back, those under the left side first.
    fn remove_tree(root: Option<Box<Node<K, V>>>)
        decreases root,
    {
        if root.is_none() {
            return ;
        }
        let node_to_drop = root.expect("some value");
        let Node { key: _, value: _, left: left_node, right: right_node } = *node_to_drop;
        Self::remove_tree(left_node);
        Self::remove_tree(right_node);
    }

    /// The tree under `node_link` with `value` for `key`.
    fn upsert(node_link: Option<Box<Node<K, V>>>, key: K, value: V) -> (link: Option<
        Box<Node<K, V>>,
    >)
        requires
            total_order::<K>(),
            ascending(keys_under(node_link)),
        ensures
            ascending(keys_under(link)),
            keys_under(link) == keys_with(keys_under(node_link), key),
            values_under(link) == values_with(
                keys_under(node_link),
                values_under(node_link),
                key,
                value,
            ),
        decreases node_link,
    {
        proof {
            lemma_keys_with(keys_under(node_link), key);
        }
        match node_link {
            None => {
                let new_node = Node::new(key, value);
                proof {
                    assert(around(Seq::<K>::empty(), key, Seq::<K>::empty()) =~= Seq::<
                        K,
                    >::empty().insert(0, key));
                    assert((Seq::<V>::empty() + seq![value]) + Seq::<V>::empty() =~= Seq::<
                        V,
                    >::empty().insert(0, value));
                }
                Some(Box::new(new_node))
            },
            Some(node) => {
                let mut node = node;
                let ghost left_keys = keys_under(node.left);
                let ghost right_keys = keys_under(node.right);
                let ghost left_values = values_under(node.left);
                let ghost right_values = values_under(node.right);
                let ghost top_key = node.key;
                let ghost top_value = node.value;
                proof {
                    lemma_around_parts(left_keys, top_key, right_keys);
                    lemma_total(key, top_key);
                    lemma_as_many_values(node.left);
                    lemma_as_many_values(node.right);
                }
                match compare(&key, &node.key) {
                    Rank::Less => {
                        proof {
                            lemma_with_before(
                                left_keys,
                                top_key,
                                right_keys,
                                left_values,
                                top_value,
                                right_values,
                                key,
                                value,
                            );
                        }
                        let left = node.left.take();
                        node.left = Self::upsert(left, key, value);
                    },
                    Rank::Equal => {
                        proof {
                            lemma_with_middle(
                                left_keys,
                                top_key,
                                right_keys,
                                left_values,
                                top_value,
                                right_values,
                                key,
                                value,
                            );
                        }
                        node.value = value;
                    },
                    Rank::Greater => {
                        proof {
                            lemma_with_after(
                                left_keys,
                                top_key,
                                right_keys,
                                left_values,
                                top_value,
                                right_values,
                                key,
                                value,
                            );
                        }
                        let right = node.right.take();
                        node.right = Self::upsert(right, key, value);
                    },
                };
                Some(node)
            },
        }
    }
}

/// What comes of taking a key out of a tree: the tree that stays, and the
/// key and the value that went.
struct DeleteResult<K: Ord, V> {
    new_link: Option<Box<Node<K, V>>>,
    deleted_key: K,
    deleted_value: V,
}

impl<K: Ord, V> Default for BinarySearchTree<K, V> {
    fn default() -> (tree: Self)
        ensures
            tree.wf(),
            tree.key_seq() == Seq::<K>::empty(),
            tree.value_seq() == Seq::<V>::empty(),
            tree.puts() == 0,
    {
        Self::new()
    }
}

} // verus!
