//! The shape of the trees that a parse produces.
//!
//! However many segments a key path has, its value ends up at most three
//! levels below the root: under the first segment, then under the middle
//! segments joined into one key, then under the last segment.

use vstd::prelude::*;
use crate::model::{
    Entries, Node, distinct_keys, has_key, key_index, lemma_key_index, lemma_put_distinct, put,
    well_formed,
};
use crate::records::{children, parsed, path_merged, record_merged, records_merged};
use crate::text::{
    first_index, free_of, join_with, lemma_first_index, lemma_split_nonempty, lemma_split_pieces,
    plain, split_on,
};

verus! {

/// An entry that holds a value under the last segment of a key path.
pub open spec fn leaf_entry(entry: (Seq<char>, Node)) -> bool {
    &&& plain(entry.0)
    &&& free_of(entry.0, '.')
    &&& entry.1 matches Node::Text(value) && free_of(value, '\0')
}

/// The entries of a node at the third level: values only, under the last
/// segments of their key paths.
pub open spec fn third_level(entries: Entries) -> bool {
    &&& entries.len() > 0
    &&& distinct_keys(entries)
    &&& forall|i: int| 0 <= i < entries.len() ==> leaf_entry(#[trigger] entries[i])
}

/// An entry at the second level: a value under the second of two segments,
/// or a node under the joined middle segments of a longer path.
pub open spec fn second_entry(entry: (Seq<char>, Node)) -> bool {
    &&& plain(entry.0)
    &&& match entry.1 {
        Node::Text(value) => free_of(entry.0, '.') && free_of(value, '\0'),
        Node::Tree(below) => third_level(below),
    }
}

/// The entries of a node at the second level.
pub open spec fn second_level(entries: Entries) -> bool {
    &&& entries.len() > 0
    &&& distinct_keys(entries)
    &&& forall|i: int| 0 <= i < entries.len() ==> second_entry(#[trigger] entries[i])
}

/// An entry of the root: under a first segment, a value with a key that is
/// not empty, or a node of the second level.
pub open spec fn root_entry(entry: (Seq<char>, Node)) -> bool {
    &&& plain(entry.0)
    &&& free_of(entry.0, '.')
    &&& match entry.1 {
        Node::Text(value) => entry.0.len() > 0 && free_of(value, '\0'),
        Node::Tree(below) => second_level(below),
    }
}

/// The entries of a root as a parse builds it: distinct keys at every level,
/// at most three levels, no inner node without entries, and dots only in the
/// keys of inner nodes at the second level.
pub open spec fn canonical(root: Entries) -> bool {
    &&& distinct_keys(root)
    &&& forall|i: int| 0 <= i < root.len() ==> root_entry(#[trigger] root[i])
}

/// What holds of all entries and of the one that is put holds of all entries
/// afterwards.
pub proof fn lemma_put_all(
    entries: Entries,
    key: Seq<char>,
    node: Node,
    holds: spec_fn((Seq<char>, Node)) -> bool,
)
    requires
        forall|i: int| 0 <= i < entries.len() ==> holds(#[trigger] entries[i]),
        holds((key, node)),
    ensures
        put(entries, key, node).len() > 0,
        forall|i: int|
            0 <= i < put(entries, key, node).len() ==> holds(#[trigger] put(entries, key, node)[i]),
{
    lemma_key_index(entries, key);
    let after = put(entries, key, node);
    assert forall|i: int| 0 <= i < after.len() implies holds(#[trigger] after[i]) by {
        if i < entries.len() && i != key_index(entries, key) {
            assert(after[i] == entries[i]);
        }
    }
}

/// In a canonical tree the keys of every inner node are distinct.
pub proof fn lemma_canonical_well_formed(root: Entries)
    requires
        canonical(root),
    ensures
        well_formed(Node::Tree(root)),
{
    assert forall|i: int| 0 <= i < root.len() implies well_formed(#[trigger] root[i].1) by {
        assert(root_entry(root[i]));
        if let Node::Tree(second) = root[i].1 {
            assert forall|j: int| 0 <= j < second.len() implies well_formed(
                #[trigger] second[j].1,
            ) by {
                assert(second_entry(second[j]));
                if let Node::Tree(third) = second[j].1 {
                    assert forall|k: int| 0 <= k < third.len() implies well_formed(
                        #[trigger] third[k].1,
                    ) by {
                        assert(leaf_entry(third[k]));
                    }
                }
            }
        }
    }
}

/// Joining plain pieces with dots gives plain text.
pub proof fn lemma_join_plain(parts: Seq<Seq<char>>)
    requires
        forall|i: int| 0 <= i < parts.len() ==> plain(#[trigger] parts[i]),
    ensures
        plain(join_with(parts, '.')),
    decreases parts.len(),
{
    if parts.len() == 1 {
        assert(plain(parts[0]));
    } else if parts.len() > 1 {
        let init = parts.drop_last();
        assert forall|i: int| 0 <= i < init.len() implies plain(#[trigger] init[i]) by {
            assert(init[i] == parts[i]);
        }
        lemma_join_plain(init);
        assert(plain(parts.last()));
    }
}

/// The entries below a key of a canonical root are none or those of a node of
/// the second level.
pub proof fn lemma_children_of_root(root: Entries, key: Seq<char>)
    requires
        canonical(root),
    ensures
        children(root, key) matches Some(second) ==> second.len() == 0 || second_level(second),
{
    lemma_key_index(root, key);
    if has_key(root, key) {
        assert(root_entry(root[key_index(root, key)]));
    }
}

/// The entries below a key of a node of the second level are none or those
/// of a node of the third level.
pub proof fn lemma_children_of_second(second: Entries, key: Seq<char>)
    requires
        second.len() == 0 || second_level(second),
    ensures
        children(second, key) matches Some(third) ==> third.len() == 0 || third_level(third),
{
    lemma_key_index(second, key);
    if has_key(second, key) {
        assert(second_entry(second[key_index(second, key)]));
    }
}

/// Storing a value under a key path of plain segments keeps the root
/// canonical.
pub proof fn lemma_path_merged_canonical(
    root: Entries,
    segments: Seq<Seq<char>>,
    value: Seq<char>,
)
    requires
        canonical(root),
        forall|i: int|
            0 <= i < segments.len() ==> plain(#[trigger] segments[i]) && free_of(segments[i], '.'),
        segments.len() == 1 ==> segments[0].len() > 0,
        free_of(value, '\0'),
    ensures
        path_merged(root, segments, value) matches Some(after) ==> canonical(after),
{
    let n = segments.len() as int;
    let leaf = Node::Text(value);
    if n == 1 {
        assert(plain(segments[0]));
        lemma_put_distinct(root, segments[0], leaf);
        lemma_put_all(root, segments[0], leaf, |e: (Seq<char>, Node)| root_entry(e));
    } else if n >= 2 {
        assert(plain(segments[0]));
        assert(plain(segments[n - 1]));
        lemma_children_of_root(root, segments[0]);
        if let Some(second) = children(root, segments[0]) {
            if n == 2 {
                let grown = put(second, segments[1], leaf);
                lemma_put_distinct(second, segments[1], leaf);
                lemma_put_all(second, segments[1], leaf, |e: (Seq<char>, Node)| second_entry(e));
                lemma_put_distinct(root, segments[0], Node::Tree(grown));
                lemma_put_all(
                    root,
                    segments[0],
                    Node::Tree(grown),
                    |e: (Seq<char>, Node)| root_entry(e),
                );
            } else {
                let between = segments.subrange(1, n - 1);
                let middle = join_with(between, '.');
                assert forall|i: int| 0 <= i < between.len() implies plain(
                    #[trigger] between[i],
                ) by {
                    assert(between[i] == segments[i + 1]);
                }
                lemma_join_plain(between);
                lemma_children_of_second(second, middle);
                if let Some(third) = children(second, middle) {
                    let lowest = put(third, segments[n - 1], leaf);
                    lemma_put_distinct(third, segments[n - 1], leaf);
                    lemma_put_all(
                        third,
                        segments[n - 1],
                        leaf,
                        |e: (Seq<char>, Node)| leaf_entry(e),
                    );
                    let grown = put(second, middle, Node::Tree(lowest));
                    lemma_put_distinct(second, middle, Node::Tree(lowest));
                    lemma_put_all(
                        second,
                        middle,
                        Node::Tree(lowest),
                        |e: (Seq<char>, Node)| second_entry(e),
                    );
                    lemma_put_distinct(root, segments[0], Node::Tree(grown));
                    lemma_put_all(
                        root,
                        segments[0],
                        Node::Tree(grown),
                        |e: (Seq<char>, Node)| root_entry(e),
                    );
                }
            }
        }
    }
}

/// Merging a record that holds no NUL character keeps the root canonical.
pub proof fn lemma_record_merged_canonical(root: Entries, record: Seq<char>)
    requires
        canonical(root),
        free_of(record, '\0'),
    ensures
        record_merged(root, record) matches Some(after) ==> canonical(after),
{
    lemma_first_index(record, '\n');
    let newline = first_index(record, '\n') as int;
    if 0 < newline < record.len() {
        let path = record.subrange(0, newline);
        let value = record.subrange(newline + 1, record.len() as int);
        let segments = split_on(path, '.');
        lemma_split_pieces(path, '.');
        lemma_split_nonempty(path, '.');
        lemma_first_index(path, '.');
        assert forall|i: int| 0 <= i < segments.len() implies plain(#[trigger] segments[i])
            && free_of(segments[i], '.') by {
            assert forall|j: int| 0 <= j < segments[i].len() implies segments[i][j] != '\0'
                && segments[i][j] != '\n' && segments[i][j] != '.' by {
                let c = segments[i][j];
                assert(path.contains(c));
                let k = choose|k: int| 0 <= k < path.len() && path[k] == c;
                assert(record[k] == c);
            }
        }
        if segments.len() == 1 {
            let dot = first_index(path, '.') as int;
            if dot < path.len() {
                lemma_split_nonempty(path.subrange(dot + 1, path.len() as int), '.');
            }
            assert(segments[0] == path);
        }
        lemma_path_merged_canonical(root, segments, value);
    }
}

/// Merging records that hold no NUL character keeps the root canonical.
pub proof fn lemma_records_merged_canonical(
    root: Entries,
    records: Seq<Seq<char>>,
)
    requires
        canonical(root),
        forall|i: int| 0 <= i < records.len() ==> free_of(#[trigger] records[i], '\0'),
    ensures
        records_merged(root, records) matches Some(after) ==> canonical(after),
    decreases records.len(),
{
    if records.len() > 0 {
        assert(free_of(records[0], '\0'));
        lemma_record_merged_canonical(root, records[0]);
        if let Some(next) = record_merged(root, records[0]) {
            let rest = records.drop_first();
            assert forall|i: int| 0 <= i < rest.len() implies free_of(#[trigger] rest[i], '\0') by {
                assert(rest[i] == records[i + 1]);
            }
            lemma_records_merged_canonical(next, rest);
        }
    }
}

/// Every tree that comes out of a parse is canonical.
pub proof fn lemma_parsed_canonical(text: Seq<char>)
    ensures
        parsed(text) matches Some(root) ==> canonical(root),
{
    let records = split_on(text, '\0');
    lemma_split_pieces(text, '\0');
    lemma_records_merged_canonical(Seq::empty(), records);
}

} // verus!
