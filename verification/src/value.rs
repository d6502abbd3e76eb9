//! Configuration values and the ordered map that holds a node's children.

use vstd::prelude::*;
use crate::model::{
    Entries, Node, has_key, key_index, keys, lemma_key_index, lemma_put_well_formed, lookup, put,
    well_formed,
};
use crate::text::{lemma_first_index_unique, same_text};

verus! {

/// A node of a configuration tree.
#[derive(PartialEq, Debug)]
pub enum Value {
    /// A leaf: the raw text of a value, newlines included.
    String(String),
    /// An inner node: its children by key.
    Object(OrderedMap),
}

/// A map from string keys to values that keeps its entries in the order in
/// which their keys were first inserted. A key is looked up by a scan of the
/// entries in that order.
#[derive(PartialEq, Debug)]
pub struct OrderedMap {
    entries: Vec<(String, Value)>,
}

/// The node that a value stands for.
pub open spec fn node_of(value: Value) -> Node
    decreases value,
{
    match value {
        Value::String(s) => Node::Text(s@),
        Value::Object(m) => Node::Tree(entries_of(m)),
    }
}

/// The keys of a map with the nodes that their values stand for, in the
/// map's order.
pub closed spec fn entries_of(map: OrderedMap) -> Entries
    decreases map,
{
    Seq::new(
        map.entries@.len(),
        |i: int|
            if 0 <= i < map.entries@.len() {
                (map.entries@[i].0@, node_of(map.entries@[i].1))
            } else {
                (Seq::empty(), Node::Text(Seq::empty()))
            },
    )
}

impl View for Value {
    type V = Node;

    open spec fn view(&self) -> Node {
        node_of(*self)
    }
}

impl View for OrderedMap {
    type V = Entries;

    open spec fn view(&self) -> Entries {
        entries_of(*self)
    }
}

impl OrderedMap {
    /// No key occurs twice, here and in every map below.
    pub open spec fn well_formed(&self) -> bool {
        well_formed(Node::Tree(self@))
    }

    /// A map without entries.
    pub fn new() -> (m: OrderedMap)
        ensures
            m@ == Entries::empty(),
            m.well_formed(),
    {
        let m = OrderedMap { entries: Vec::new() };
        assert(m@ =~= Entries::empty());
        m
    }

    /// The number of entries.
    pub fn len(&self) -> (n: usize)
        ensures
            n == self@.len(),
    {
        self.entries.len()
    }

    /// Whether the map has no entries.
    pub fn is_empty(&self) -> (b: bool)
        ensures
            b == (self@.len() == 0),
    {
        self.entries.len() == 0
    }

    /// The entry at `index` in the order of first insertion.
    pub fn get_index(&self, index: usize) -> (r: Option<(&String, &Value)>)
        ensures
            match r {
                Some((key, value)) => index < self@.len() && self@[index as int] == (key@, value@),
                None => index >= self@.len(),
            },
    {
        if index < self.entries.len() {
            let entry = &self.entries[index];
            Some((&entry.0, &entry.1))
        } else {
            None
        }
    }

    /// Index of the entry with `key`.
    fn position(&self, key: &str) -> (r: Option<usize>)
        ensures
            match r {
                Some(i) => has_key(self@, key@) && i == key_index(self@, key@),
                None => !has_key(self@, key@),
            },
    {
        let n = self.entries.len();
        let mut i: usize = 0;
        while i < n
            invariant
                i <= n,
                n == self.entries@.len(),
                forall|j: int| 0 <= j < i ==> self@[j].0 != key@,
            decreases n - i,
        {
            if same_text(self.entries[i].0.as_str(), key) {
                proof {
                    lemma_first_index_unique(keys(self@), key@, i as int);
                }
                return Some(i);
            }
            i = i + 1;
        }
        proof {
            lemma_first_index_unique(keys(self@), key@, n as int);
        }
        None
    }

    /// Whether an entry with `key` exists.
    pub fn contains_key(&self, key: &str) -> (b: bool)
        ensures
            b == has_key(self@, key@),
    {
        self.position(key).is_some()
    }

    /// The value stored under `key`.
    pub fn get(&self, key: &str) -> (r: Option<&Value>)
        ensures
            match r {
                Some(v) => lookup(self@, key@) == Some(v@),
                None => lookup(self@, key@) is None,
            },
    {
        match self.position(key) {
            Some(i) => Some(&self.entries[i].1),
            None => None,
        }
    }

    /// Sets `key` to `value`. An entry that exists keeps its place in the
    /// order and hands its former value back; a new key goes to the end.
    pub fn insert(&mut self, key: String, value: Value) -> (former: Option<Value>)
        ensures
            final(self)@ == put(old(self)@, key@, value@),
            match former {
                Some(v) => lookup(old(self)@, key@) == Some(v@),
                None => lookup(old(self)@, key@) is None,
            },
            old(self).well_formed() && value.well_formed() ==> final(self).well_formed(),
    {
        proof {
            lemma_key_index(self@, key@);
            if self.well_formed() && value.well_formed() {
                lemma_put_well_formed(self@, key@, value@);
            }
        }
        match self.position(key.as_str()) {
            Some(i) => {
                let mut former = value;
                std::mem::swap(&mut self.entries[i].1, &mut former);
                proof {
                    assert(self@ =~= put(old(self)@, key@, value@));
                }
                Some(former)
            },
            None => {
                self.entries.push((key, value));
                proof {
                    assert(self@ =~= put(old(self)@, key@, value@));
                }
                None
            },
        }
    }

    /// A handle to the value stored under `key`. What is written through the
    /// handle is what the map holds under `key` afterwards.
    pub fn get_mut(&mut self, key: &str) -> (r: Option<&mut Value>)
        ensures
            match r {
                Some(v) => {
                    &&& lookup(old(self)@, key@) == Some(v@)
                    &&& final(self)@ == put(old(self)@, key@, final(v)@)
                    &&& old(self).well_formed() ==> v.well_formed()
                    &&& old(self).well_formed() && final(v).well_formed()
                        ==> final(self).well_formed()
                },
                None => lookup(old(self)@, key@) is None && final(self)@ == old(self)@,
            },
    {
        proof {
            lemma_key_index(self@, key@);
            if self.well_formed() {
                assert forall|node: Node| #[trigger] well_formed(node) implies well_formed(
                    Node::Tree(put(self@, key@, node)),
                ) by {
                    lemma_put_well_formed(self@, key@, node);
                }
            }
        }
        match self.position(key) {
            Some(i) => Some(self.slot(i)),
            None => None,
        }
    }

    /// A handle to the value stored under `key`, which is first set to
    /// `default` where the key is new. What is written through the handle is
    /// what the map holds under `key` afterwards.
    pub fn get_or_insert(&mut self, key: String, default: Value) -> (r: &mut Value)
        ensures
            r@ == match lookup(old(self)@, key@) {
                Some(node) => node,
                None => default@,
            },
            final(self)@ == put(old(self)@, key@, final(r)@),
            old(self).well_formed() && default.well_formed() ==> r.well_formed(),
            old(self).well_formed() && final(r).well_formed() ==> final(self).well_formed(),
    {
        proof {
            lemma_key_index(self@, key@);
            if self.well_formed() {
                assert forall|node: Node| #[trigger] well_formed(node) implies well_formed(
                    Node::Tree(put(self@, key@, node)),
                ) by {
                    lemma_put_well_formed(self@, key@, node);
                }
            }
        }
        let i = match self.position(key.as_str()) {
            Some(i) => i,
            None => {
                self.push_entry(key, default);
                self.entries.len() - 1
            },
        };
        self.slot(i)
    }

    /// Adds an entry at the end.
    fn push_entry(&mut self, key: String, value: Value)
        ensures
            final(self)@ == old(self)@.push((key@, value@)),
            final(self).entries@.len() == final(self)@.len(),
    {
        self.entries.push((key, value));
        assert(self@ =~= old(self)@.push((key@, value@)));
    }

    /// A handle to the value of the entry at `index`.
    fn slot(&mut self, index: usize) -> (r: &mut Value)
        requires
            index < old(self)@.len(),
        ensures
            r@ == old(self)@[index as int].1,
            final(self)@ == old(self)@.update(
                index as int,
                (old(self)@[index as int].0, final(r)@),
            ),
    {
        let entry = &mut self.entries[index];
        &mut entry.1
    }
}

impl Value {
    /// In every map of the value, no key occurs twice.
    pub open spec fn well_formed(&self) -> bool {
        well_formed(self@)
    }

    /// Whether the value is an inner node.
    pub fn is_object(&self) -> (b: bool)
        ensures
            b == (self@ is Tree),
    {
        self.as_object().is_some()
    }

    /// The children of an inner node; nothing for a leaf.
    pub fn as_object(&self) -> (r: Option<&OrderedMap>)
        ensures
            match r {
                Some(m) => self@ == Node::Tree(m@),
                None => self@ is Text,
            },
    {
        match self {
            Value::Object(map) => Some(map),
            _ => None,
        }
    }

    /// A handle to the children of an inner node; nothing for a leaf. What is
    /// written through the handle becomes the node's children.
    pub fn as_object_mut(&mut self) -> (r: Option<&mut OrderedMap>)
        ensures
            match r {
                Some(m) => old(self)@ == Node::Tree(m@) && final(self)@ == Node::Tree(final(m)@),
                None => old(self)@ is Text && final(self)@ == old(self)@,
            },
    {
        match self {
            Value::Object(map) => Some(map),
            _ => None,
        }
    }
}

/// A copy of the entries, each value copied with all that is below it.
fn copy_entries(entries: &Vec<(String, Value)>) -> (r: Vec<(String, Value)>)
    ensures
        r@.len() == entries@.len(),
        forall|i: int|
            0 <= i < r@.len() ==> r@[i].0@ == entries@[i].0@ && node_of(r@[i].1) == node_of(
                entries@[i].1,
            ),
    decreases entries,
{
    let mut r: Vec<(String, Value)> = Vec::new();
    let n = entries.len();
    let mut i: usize = 0;
    while i < n
        invariant
            i <= n,
            n == entries@.len(),
            r@.len() == i,
            forall|j: int|
                0 <= j < i ==> r@[j].0@ == entries@[j].0@ && node_of(r@[j].1) == node_of(
                    entries@[j].1,
                ),
        decreases n - i,
    {
        let key = entries[i].0.clone();
        let value = copy_value(&entries[i].1);
        r.push((key, value));
        i = i + 1;
    }
    r
}

/// A copy of the value with all that is below it.
fn copy_value(value: &Value) -> (r: Value)
    ensures
        r@ == value@,
    decreases value,
{
    match value {
        Value::String(s) => Value::String(s.clone()),
        Value::Object(map) => {
            let copy = OrderedMap { entries: copy_entries(&map.entries) };
            assert(copy@ =~= map@);
            Value::Object(copy)
        },
    }
}

impl Clone for OrderedMap {
    fn clone(&self) -> (r: Self)
        ensures
            r@ == self@,
    {
        let copy = OrderedMap { entries: copy_entries(&self.entries) };
        assert(copy@ =~= self@);
        copy
    }
}

impl Clone for Value {
    fn clone(&self) -> (r: Self)
        ensures
            r@ == self@,
    {
        copy_value(self)
    }
}

} // verus!
