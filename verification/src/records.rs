//! What a dump of `key.path\nvalue` records means: the tree that it describes.

use vstd::prelude::*;
use crate::model::{
    Entries, Node, has_key, key_index, lemma_key_index, lemma_lookup_put_same, lemma_put_twice,
    lemma_put_well_formed, lookup, put, well_formed,
};
use crate::text::{
    first_index, free_of, join_with, lemma_first_index_unique, lemma_split_pieces, split_on,
};

verus! {

/// The children found under `key`: those of the inner node that stands
/// there, none where the key is new. Where text stands there, the key has no
/// children and cannot get any.
pub open spec fn children(entries: Entries, key: Seq<char>) -> Option<Entries> {
    match lookup(entries, key) {
        None => Some(Seq::empty()),
        Some(Node::Tree(below)) => Some(below),
        Some(Node::Text(_)) => None,
    }
}

/// The root's entries after `value` is stored under the key path `segments`.
///
/// A single segment names an entry of the root. With two segments the first
/// names an inner node of the root and the second the leaf in it. With more,
/// the segments between the first and the last are joined with `.` into one
/// key at the second level, and the last names the leaf at the third. The
/// result is `None` where the path is empty or runs through text.
pub open spec fn path_merged(
    root: Entries,
    segments: Seq<Seq<char>>,
    value: Seq<char>,
) -> Option<Entries> {
    let n = segments.len() as int;
    if n == 0 {
        None
    } else if n == 1 {
        Some(put(root, segments[0], Node::Text(value)))
    } else {
        match children(root, segments[0]) {
            None => None,
            Some(second) => if n == 2 {
                Some(
                    put(
                        root,
                        segments[0],
                        Node::Tree(put(second, segments[1], Node::Text(value))),
                    ),
                )
            } else {
                let middle = join_with(segments.subrange(1, n - 1), '.');
                match children(second, middle) {
                    None => None,
                    Some(third) => Some(
                        put(
                            root,
                            segments[0],
                            Node::Tree(
                                put(
                                    second,
                                    middle,
                                    Node::Tree(put(third, segments[n - 1], Node::Text(value))),
                                ),
                            ),
                        ),
                    ),
                }
            },
        }
    }
}

/// The root's entries after one record is merged into them. An empty record
/// and a record with an empty key path change nothing; a record without a
/// newline is malformed. The first newline ends the key path, and all that
/// follows it is the value.
pub open spec fn record_merged(root: Entries, record: Seq<char>) -> Option<Entries> {
    let newline = first_index(record, '\n') as int;
    if record.len() == 0 {
        Some(root)
    } else if newline >= record.len() {
        None
    } else if newline == 0 {
        Some(root)
    } else {
        path_merged(
            root,
            split_on(record.subrange(0, newline), '.'),
            record.subrange(newline + 1, record.len() as int),
        )
    }
}

/// The root's entries after the records are merged into them one after the
/// other; `None` as soon as one of them fails.
pub open spec fn records_merged(root: Entries, records: Seq<Seq<char>>) -> Option<Entries>
    decreases records.len(),
{
    if records.len() == 0 {
        Some(root)
    } else {
        match record_merged(root, records[0]) {
            None => None,
            Some(next) => records_merged(next, records.drop_first()),
        }
    }
}

/// The entries of the tree that `text` describes: its records, which NUL
/// characters separate, merged into an empty root in their order.
pub open spec fn parsed(text: Seq<char>) -> Option<Entries> {
    records_merged(Seq::empty(), split_on(text, '\0'))
}

/// Children that are found in a well-formed tree are well-formed.
pub proof fn lemma_children_well_formed(entries: Entries, key: Seq<char>)
    requires
        well_formed(Node::Tree(entries)),
    ensures
        children(entries, key) matches Some(below) ==> well_formed(Node::Tree(below)),
{
    lemma_key_index(entries, key);
    if has_key(entries, key) {
        assert(well_formed(entries[key_index(entries, key)].1));
    }
}

/// Storing a value under a key path keeps a tree well-formed.
pub proof fn lemma_path_merged_well_formed(
    root: Entries,
    segments: Seq<Seq<char>>,
    value: Seq<char>,
)
    requires
        well_formed(Node::Tree(root)),
    ensures
        path_merged(root, segments, value) matches Some(after) ==> well_formed(Node::Tree(after)),
{
    let n = segments.len() as int;
    let leaf = Node::Text(value);
    if n == 1 {
        lemma_put_well_formed(root, segments[0], leaf);
    } else if n >= 2 {
        lemma_children_well_formed(root, segments[0]);
        if let Some(second) = children(root, segments[0]) {
            if n == 2 {
                lemma_put_well_formed(second, segments[1], leaf);
                lemma_put_well_formed(root, segments[0], Node::Tree(put(second, segments[1], leaf)));
            } else {
                let middle = join_with(segments.subrange(1, n - 1), '.');
                lemma_children_well_formed(second, middle);
                if let Some(third) = children(second, middle) {
                    let lowest = Node::Tree(put(third, segments[n - 1], leaf));
                    lemma_put_well_formed(third, segments[n - 1], leaf);
                    lemma_put_well_formed(second, middle, lowest);
                    lemma_put_well_formed(root, segments[0], Node::Tree(put(second, middle, lowest)));
                }
            }
        }
    }
}

/// Merging records keeps a tree well-formed.
pub proof fn lemma_records_merged_well_formed(
    root: Entries,
    records: Seq<Seq<char>>,
)
    requires
        well_formed(Node::Tree(root)),
    ensures
        records_merged(root, records) matches Some(after) ==> well_formed(Node::Tree(after)),
    decreases records.len(),
{
    if records.len() > 0 {
        let record = records[0];
        let newline = first_index(record, '\n') as int;
        lemma_path_merged_well_formed(
            root,
            split_on(record.subrange(0, newline), '.'),
            record.subrange(newline + 1, record.len() as int),
        );
        if let Some(next) = record_merged(root, record) {
            lemma_records_merged_well_formed(next, records.drop_first());
        }
    }
}

/// In every tree that comes out of a parse, the keys of each inner node are
/// distinct.
pub proof fn lemma_parsed_well_formed(text: Seq<char>)
    ensures
        parsed(text) matches Some(tree) ==> well_formed(Node::Tree(tree)),
{
    lemma_records_merged_well_formed(Seq::empty(), split_on(text, '\0'));
}

/// Records that are empty or begin with a newline leave the tree as it is.
pub proof fn lemma_blank_records(root: Entries, records: Seq<Seq<char>>)
    requires
        forall|i: int| 0 <= i < records.len() ==> records[i].len() == 0 || records[i][0] == '\n',
    ensures
        records_merged(root, records) == Some(root),
    decreases records.len(),
{
    if records.len() > 0 {
        let rest = records.drop_first();
        assert forall|i: int| 0 <= i < rest.len() implies rest[i].len() == 0 || rest[i][0]
            == '\n' by {
            assert(rest[i] == records[i + 1]);
        }
        lemma_blank_records(root, rest);
    }
}

/// A text of nothing but NUL characters and newlines, the empty text among
/// them, parses to the empty tree.
pub proof fn lemma_blank_text_is_empty_tree(text: Seq<char>)
    requires
        forall|i: int| 0 <= i < text.len() ==> text[i] == '\0' || text[i] == '\n',
    ensures
        parsed(text) == Some(Entries::empty()),
{
    let records = split_on(text, '\0');
    lemma_split_pieces(text, '\0');
    assert forall|i: int| 0 <= i < records.len() implies records[i].len() == 0 || records[i][0]
        == '\n' by {
        if records[i].len() > 0 {
            let c = records[i][0];
            assert(c != '\0' && text.contains(c));
        }
    }
    lemma_blank_records(Seq::empty(), records);
}

/// A text that is not empty and holds neither a NUL character nor a newline
/// is one record without a value: it is malformed.
pub proof fn lemma_no_newline_is_malformed(text: Seq<char>)
    requires
        text.len() > 0,
        free_of(text, '\0'),
        free_of(text, '\n'),
    ensures
        parsed(text) is None,
{
    lemma_first_index_unique(text, '\0', text.len() as int);
    lemma_first_index_unique(text, '\n', text.len() as int);
    assert(split_on(text, '\0') =~= seq![text]);
}

/// Of two values stored under one key path the later one counts: the tree
/// is as if only the later one had been stored.
pub proof fn lemma_later_value_wins(
    root: Entries,
    segments: Seq<Seq<char>>,
    earlier: Seq<char>,
    later: Seq<char>,
)
    ensures
        path_merged(root, segments, earlier) matches Some(once) ==> path_merged(
            once,
            segments,
            later,
        ) == path_merged(root, segments, later),
{
    let n = segments.len() as int;
    if n == 1 {
        lemma_put_twice(root, segments[0], Node::Text(earlier), Node::Text(later));
    } else if n >= 2 {
        if let Some(second) = children(root, segments[0]) {
            if n == 2 {
                let grown = put(second, segments[1], Node::Text(earlier));
                lemma_lookup_put_same(root, segments[0], Node::Tree(grown));
                lemma_put_twice(second, segments[1], Node::Text(earlier), Node::Text(later));
                lemma_put_twice(
                    root,
                    segments[0],
                    Node::Tree(grown),
                    Node::Tree(put(second, segments[1], Node::Text(later))),
                );
            } else {
                let middle = join_with(segments.subrange(1, n - 1), '.');
                if let Some(third) = children(second, middle) {
                    let lowest = put(third, segments[n - 1], Node::Text(earlier));
                    let grown = put(second, middle, Node::Tree(lowest));
                    let lowest_later = put(third, segments[n - 1], Node::Text(later));
                    lemma_lookup_put_same(root, segments[0], Node::Tree(grown));
                    lemma_lookup_put_same(second, middle, Node::Tree(lowest));
                    lemma_put_twice(third, segments[n - 1], Node::Text(earlier), Node::Text(later));
                    lemma_put_twice(second, middle, Node::Tree(lowest), Node::Tree(lowest_later));
                    lemma_put_twice(
                        root,
                        segments[0],
                        Node::Tree(grown),
                        Node::Tree(put(second, middle, Node::Tree(lowest_later))),
                    );
                }
            }
        }
    }
}

/// Merging one batch of records after another is merging them all in one go.
pub proof fn lemma_records_merged_concat(
    root: Entries,
    first: Seq<Seq<char>>,
    second: Seq<Seq<char>>,
)
    ensures
        records_merged(root, first + second) == match records_merged(root, first) {
            None => None,
            Some(next) => records_merged(next, second),
        },
    decreases first.len(),
{
    if first.len() == 0 {
        assert(first + second =~= second);
    } else {
        assert((first + second)[0] == first[0]);
        assert((first + second).drop_first() =~= first.drop_first() + second);
        if let Some(next) = record_merged(root, first[0]) {
            lemma_records_merged_concat(next, first.drop_first(), second);
        }
    }
}

} // verus!
