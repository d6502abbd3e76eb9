//! The mathematical model of a configuration tree.

use vstd::prelude::*;
use crate::text::{first_index, lemma_first_index, lemma_first_index_unique};

verus! {

/// What a value stands for: a leaf of text, or an inner node whose children
/// are listed with their keys in the order in which they were first inserted.
pub enum Node {
    Text(Seq<char>),
    Tree(Seq<(Seq<char>, Node)>),
}

/// The children of an inner node: keys with their nodes, in the order in
/// which the keys were first inserted.
pub type Entries = Seq<(Seq<char>, Node)>;

/// The keys of a list of entries, in order.
pub open spec fn keys(entries: Entries) -> Seq<Seq<char>> {
    entries.map_values(|e: (Seq<char>, Node)| e.0)
}

/// The index of the entry with `key`, or `entries.len()` where there is none.
pub open spec fn key_index(entries: Entries, key: Seq<char>) -> int {
    first_index(keys(entries), key) as int
}

/// Whether an entry with `key` exists.
pub open spec fn has_key(entries: Entries, key: Seq<char>) -> bool {
    key_index(entries, key) < entries.len()
}

/// The node stored under `key`, if any.
pub open spec fn lookup(entries: Entries, key: Seq<char>) -> Option<Node> {
    if has_key(entries, key) {
        Some(entries[key_index(entries, key)].1)
    } else {
        None
    }
}

/// The entries after `key` is set to `node`: an existing entry keeps its
/// place and gets the new node, a new key goes to the end.
pub open spec fn put(entries: Entries, key: Seq<char>, node: Node) -> Entries {
    if has_key(entries, key) {
        entries.update(key_index(entries, key), (key, node))
    } else {
        entries.push((key, node))
    }
}

/// No key occurs twice.
pub open spec fn distinct_keys(entries: Entries) -> bool {
    forall|i: int, j: int|
        0 <= i < entries.len() && 0 <= j < entries.len() && i != j ==> entries[i].0
            != entries[j].0
}

/// The keys of every inner node, at any depth, are distinct.
pub open spec fn well_formed(node: Node) -> bool
    decreases node,
{
    match node {
        Node::Text(_) => true,
        Node::Tree(entries) => {
            &&& distinct_keys(entries)
            &&& forall|i: int| 0 <= i < entries.len() ==> well_formed(#[trigger] entries[i].1)
        },
    }
}

/// What `key_index` finds: the first entry with the key, if there is one.
pub proof fn lemma_key_index(entries: Entries, key: Seq<char>)
    ensures
        0 <= key_index(entries, key) <= entries.len(),
        has_key(entries, key) ==> entries[key_index(entries, key)].0 == key,
        forall|j: int| 0 <= j < key_index(entries, key) ==> entries[j].0 != key,
{
    lemma_first_index(keys(entries), key);
    assert forall|j: int| 0 <= j < key_index(entries, key) implies entries[j].0 != key by {
        assert(keys(entries)[j] == entries[j].0);
    }
}

/// After `put`, the key holds the node that was put.
pub proof fn lemma_lookup_put_same(entries: Entries, key: Seq<char>, node: Node)
    ensures
        lookup(put(entries, key, node), key) == Some(node),
{
    lemma_key_index(entries, key);
    let after = put(entries, key, node);
    let at = key_index(entries, key);
    assert(keys(after)[at] == key);
    assert forall|j: int| 0 <= j < at implies keys(after)[j] != key by {
        assert(after[j] == entries[j]);
    }
    lemma_first_index_unique(keys(after), key, at);
}

/// `put` leaves every other key with what it held.
pub proof fn lemma_lookup_put_other(
    entries: Entries,
    key: Seq<char>,
    node: Node,
    other: Seq<char>,
)
    requires
        other != key,
    ensures
        lookup(put(entries, key, node), other) == lookup(entries, other),
{
    lemma_key_index(entries, key);
    lemma_key_index(entries, other);
    let after = put(entries, key, node);
    let at = key_index(entries, other);
    lemma_key_index(after, other);
    let found = key_index(after, other);
    assert forall|j: int| 0 <= j < entries.len() implies after[j].0 == entries[j].0 by {}
    if at < entries.len() {
        assert(after[at] == entries[at]);
        if found < at {
            assert(after[found].0 == entries[found].0);
        }
    } else if found < after.len() {
        if found < entries.len() {
            assert(after[found].0 == entries[found].0);
        }
    }
}

/// `put` keeps the keys in the order of their first insertion: the keys that
/// were there stay where they are, and a new key follows them.
pub proof fn lemma_put_keys(entries: Entries, key: Seq<char>, node: Node)
    ensures
        keys(put(entries, key, node)) == if has_key(entries, key) {
            keys(entries)
        } else {
            keys(entries).push(key)
        },
{
    lemma_key_index(entries, key);
    assert(keys(put(entries, key, node)) =~= if has_key(entries, key) {
        keys(entries)
    } else {
        keys(entries).push(key)
    });
}

/// Of two writes to one key the later one counts.
pub proof fn lemma_put_twice(
    entries: Entries,
    key: Seq<char>,
    first: Node,
    second: Node,
)
    ensures
        put(put(entries, key, first), key, second) == put(entries, key, second),
{
    lemma_key_index(entries, key);
    lemma_lookup_put_same(entries, key, first);
    let once = put(entries, key, first);
    lemma_key_index(once, key);
    let at = key_index(entries, key);
    assert(keys(once)[at] == key);
    assert forall|j: int| 0 <= j < at implies keys(once)[j] != key by {
        assert(once[j] == entries[j]);
    }
    lemma_first_index_unique(keys(once), key, at);
    assert(put(once, key, second) =~= put(entries, key, second));
}

/// `put` keeps the keys distinct.
pub proof fn lemma_put_distinct(entries: Entries, key: Seq<char>, node: Node)
    requires
        distinct_keys(entries),
    ensures
        distinct_keys(put(entries, key, node)),
{
    lemma_key_index(entries, key);
}

/// `put` of a well-formed node into a well-formed tree gives a well-formed tree.
pub proof fn lemma_put_well_formed(entries: Entries, key: Seq<char>, node: Node)
    requires
        well_formed(Node::Tree(entries)),
        well_formed(node),
    ensures
        well_formed(Node::Tree(put(entries, key, node))),
{
    lemma_put_distinct(entries, key, node);
    lemma_key_index(entries, key);
    let after = put(entries, key, node);
    assert forall|i: int| 0 <= i < after.len() implies well_formed(#[trigger] after[i].1) by {
        if i < entries.len() && i != key_index(entries, key) {
            assert(after[i].1 == entries[i].1);
        }
    }
}

/// A key that is new goes to the end, is found there, and a later `put` of
/// the same key changes that last entry only.
pub proof fn lemma_new_key(entries: Entries, key: Seq<char>, node: Node)
    requires
        !has_key(entries, key),
    ensures
        put(entries, key, node) == entries.push((key, node)),
        has_key(entries.push((key, node)), key),
        lookup(entries.push((key, node)), key) == Some(node),
        forall|other: Node| #[trigger]
            put(entries.push((key, node)), key, other) == entries.push((key, other)),
{
    lemma_key_index(entries, key);
    let grown = entries.push((key, node));
    assert(keys(grown)[entries.len() as int] == key);
    assert forall|j: int| 0 <= j < entries.len() implies keys(grown)[j] != key by {
        assert(grown[j] == entries[j]);
    }
    lemma_first_index_unique(keys(grown), key, entries.len() as int);
    assert forall|other: Node| #[trigger]
        put(grown, key, other) == entries.push((key, other)) by {
        assert(put(grown, key, other) =~= entries.push((key, other)));
    }
}

} // verus!
