//! The text that describes a tree, and reading it back.

use vstd::prelude::*;
use crate::model::{
    Entries, Node, distinct_keys, has_key, key_index, lemma_key_index, lemma_new_key,
};
use crate::records::{
    lemma_records_merged_concat, parsed, path_merged, record_merged, records_merged,
};
use crate::shape::{canonical, leaf_entry, lemma_parsed_canonical, root_entry, second_entry};
use crate::text::{
    free_of, join_with, lemma_first_index_unique, lemma_join_split, lemma_split_concat,
    lemma_split_nonempty, lemma_split_whole, plain, split_on,
};

verus! {

/// The records that describe the entries, in their order: one for each
/// value, made of its key path, a newline and the value. The key path is
/// `prefix` followed by the keys from the entry down to the value, with dots
/// between them.
pub open spec fn records_of(prefix: Seq<char>, entries: Entries) -> Seq<Seq<char>>
    decreases entries,
{
    if entries.len() == 0 {
        Seq::empty()
    } else {
        let path = prefix + entries.last().0;
        records_of(prefix, entries.drop_last()) + match entries.last().1 {
            Node::Text(value) => seq![path + seq!['\n'] + value],
            Node::Tree(below) => records_of(path + seq!['.'], below),
        }
    }
}

/// The records in one text, each followed by a NUL character.
pub open spec fn text_of(records: Seq<Seq<char>>) -> Seq<char>
    decreases records.len(),
{
    if records.len() == 0 {
        Seq::empty()
    } else {
        records[0] + seq!['\0'] + text_of(records.drop_first())
    }
}

/// The text that describes the tree with the entries `root`.
pub open spec fn rendered(root: Entries) -> Seq<char> {
    text_of(records_of(Seq::empty(), root))
}

/// Records without NUL characters are what their text splits into, together
/// with the empty piece after the last NUL character.
pub proof fn lemma_split_text_of(records: Seq<Seq<char>>)
    requires
        forall|i: int| 0 <= i < records.len() ==> free_of(#[trigger] records[i], '\0'),
    ensures
        split_on(text_of(records), '\0') == records.push(Seq::empty()),
    decreases records.len(),
{
    if records.len() == 0 {
        lemma_split_whole(Seq::empty(), '\0');
        assert(split_on(text_of(records), '\0') =~= records.push(Seq::empty()));
    } else {
        let rest = records.drop_first();
        assert forall|i: int| 0 <= i < rest.len() implies free_of(#[trigger] rest[i], '\0') by {
            assert(rest[i] == records[i + 1]);
        }
        lemma_split_text_of(rest);
        assert(free_of(records[0], '\0'));
        lemma_split_whole(records[0], '\0');
        lemma_split_concat(records[0], text_of(rest), '\0');
        assert(seq![records[0]] + rest.push(Seq::empty()) =~= records.push(Seq::empty()));
    }
}

/// Merging a single record.
proof fn lemma_records_merged_one(root: Entries, record: Seq<char>)
    ensures
        records_merged(root, seq![record]) == record_merged(root, record),
{
    assert(seq![record].drop_first() =~= Seq::<Seq<char>>::empty());
    reveal_with_fuel(records_merged, 2);
}

/// A record made of a key path, a newline and a value stores the value under
/// the segments of the path.
proof fn lemma_record_of_path(root: Entries, path: Seq<char>, value: Seq<char>)
    requires
        path.len() > 0,
        free_of(path, '\n'),
    ensures
        record_merged(root, path + seq!['\n'] + value) == path_merged(
            root,
            split_on(path, '.'),
            value,
        ),
{
    let record = path + seq!['\n'] + value;
    lemma_first_index_unique(record, '\n', path.len() as int);
    assert(record.subrange(0, path.len() as int) =~= path);
    assert(record.subrange(path.len() as int + 1, record.len() as int) =~= value);
}

/// The segments of two keys with a dot between them.
proof fn lemma_path_of_two(first: Seq<char>, second: Seq<char>)
    requires
        free_of(first, '.'),
        free_of(second, '.'),
    ensures
        split_on(first + seq!['.'] + second, '.') == seq![first, second],
{
    lemma_split_concat(first, second, '.');
    lemma_split_whole(first, '.');
    lemma_split_whole(second, '.');
    assert(seq![first] + seq![second] =~= seq![first, second]);
}

/// The segments of three keys with dots between them, of which the middle
/// one may hold dots itself: the middle segments joined are the middle key.
proof fn lemma_path_of_three(first: Seq<char>, middle: Seq<char>, last: Seq<char>)
    requires
        free_of(first, '.'),
        free_of(last, '.'),
    ensures
        ({
            let segments = split_on(first + seq!['.'] + middle + seq!['.'] + last, '.');
            let n = segments.len() as int;
            &&& n >= 3
            &&& segments[0] == first
            &&& segments[n - 1] == last
            &&& join_with(segments.subrange(1, n - 1), '.') == middle
        }),
{
    let segments = split_on(first + seq!['.'] + middle + seq!['.'] + last, '.');
    lemma_split_concat(first + seq!['.'] + middle, last, '.');
    lemma_split_concat(first, middle, '.');
    lemma_split_whole(first, '.');
    lemma_split_whole(last, '.');
    lemma_split_nonempty(middle, '.');
    lemma_join_split(middle, '.');
    assert(segments =~= seq![first] + split_on(middle, '.') + seq![last]);
    assert(segments.subrange(1, segments.len() - 1) =~= split_on(middle, '.'));
}

/// The key of the last entry does not occur before it.
proof fn lemma_last_key_is_new(entries: Entries)
    requires
        entries.len() > 0,
        distinct_keys(entries),
    ensures
        !has_key(entries.drop_last(), entries.last().0),
        distinct_keys(entries.drop_last()),
        entries.drop_last().push(entries.last()) == entries,
{
    let init = entries.drop_last();
    lemma_key_index(init, entries.last().0);
    if has_key(init, entries.last().0) {
        let at = key_index(init, entries.last().0);
        assert(init[at] == entries[at]);
    }
    assert forall|i: int, j: int|
        0 <= i < init.len() && 0 <= j < init.len() && i != j implies init[i].0 != init[j].0 by {
        assert(init[i] == entries[i] && init[j] == entries[j]);
    }
    assert(init.push(entries.last()) =~= entries);
}

/// Merging the records of the values below a key of the second level, into a
/// root whose last entry is being built under `first`.
proof fn lemma_third_level_records(
    root: Entries,
    first: Seq<char>,
    second: Entries,
    middle: Seq<char>,
    third: Entries,
)
    requires
        !has_key(root, first),
        !has_key(second, middle),
        plain(first),
        free_of(first, '.'),
        plain(middle),
        distinct_keys(third),
        forall|i: int| 0 <= i < third.len() ==> leaf_entry(#[trigger] third[i]),
    ensures
        ({
            let prefix = first + seq!['.'] + middle + seq!['.'];
            let before = if second.len() == 0 {
                root
            } else {
                root.push((first, Node::Tree(second)))
            };
            let after = if third.len() == 0 {
                before
            } else {
                root.push((first, Node::Tree(second.push((middle, Node::Tree(third))))))
            };
            &&& records_merged(before, records_of(prefix, third)) == Some(after)
            &&& forall|i: int|
                0 <= i < records_of(prefix, third).len() ==> free_of(
                    #[trigger] records_of(prefix, third)[i],
                    '\0',
                )
        }),
    decreases third.len(),
{
    let prefix = first + seq!['.'] + middle + seq!['.'];
    let before = if second.len() == 0 {
        root
    } else {
        root.push((first, Node::Tree(second)))
    };
    if third.len() > 0 {
        let init = third.drop_last();
        let key = third.last().0;
        assert(leaf_entry(third.last()));
        let value = third.last().1->Text_0;
        let leaf = Node::Text(value);
        lemma_last_key_is_new(third);
        assert forall|i: int| 0 <= i < init.len() implies leaf_entry(#[trigger] init[i]) by {
            assert(init[i] == third[i]);
        }
        lemma_third_level_records(root, first, second, middle, init);
        let middle_state = if init.len() == 0 {
            before
        } else {
            root.push((first, Node::Tree(second.push((middle, Node::Tree(init))))))
        };
        let after = root.push((first, Node::Tree(second.push((middle, Node::Tree(third))))));
        let record = prefix + key + seq!['\n'] + value;
        let earlier = records_of(prefix, init);
        assert(records_of(prefix, third) == earlier + seq![record]);
        lemma_records_merged_concat(before, earlier, seq![record]);
        lemma_records_merged_one(middle_state, record);
        lemma_record_of_path(middle_state, prefix + key, value);
        lemma_path_of_three(first, middle, key);
        assert(prefix + key =~= first + seq!['.'] + middle + seq!['.'] + key);
        let empty = Entries::empty();
        lemma_key_index(empty, key);
        lemma_key_index(empty, middle);
        if init.len() == 0 {
            assert(third =~= empty.push((key, leaf)));
            lemma_new_key(empty, key, leaf);
            if second.len() == 0 {
                assert(second =~= empty);
                lemma_new_key(empty, middle, Node::Tree(third));
                lemma_new_key(root, first, Node::Tree(second.push((middle, Node::Tree(third)))));
            } else {
                lemma_new_key(root, first, Node::Tree(second));
                lemma_new_key(second, middle, Node::Tree(third));
            }
        } else {
            lemma_new_key(root, first, Node::Tree(second.push((middle, Node::Tree(init)))));
            lemma_new_key(second, middle, Node::Tree(init));
            lemma_new_key(init, key, leaf);
        }
        assert(path_merged(middle_state, split_on(prefix + key, '.'), value) == Some(after));
        assert forall|i: int| 0 <= i < records_of(prefix, third).len() implies free_of(
            #[trigger] records_of(prefix, third)[i],
            '\0',
        ) by {
            if i >= earlier.len() {
                assert(records_of(prefix, third)[i] == record);
            } else {
                assert(records_of(prefix, third)[i] == earlier[i]);
            }
        }
    }
}

/// Merging the records of the entries below a key of the root, into a root
/// that does not hold the key yet.
proof fn lemma_second_level_records(
    root: Entries,
    first: Seq<char>,
    second: Entries,
)
    requires
        !has_key(root, first),
        plain(first),
        free_of(first, '.'),
        distinct_keys(second),
        forall|i: int| 0 <= i < second.len() ==> second_entry(#[trigger] second[i]),
    ensures
        ({
            let prefix = first + seq!['.'];
            let after = if second.len() == 0 {
                root
            } else {
                root.push((first, Node::Tree(second)))
            };
            &&& records_merged(root, records_of(prefix, second)) == Some(after)
            &&& forall|i: int|
                0 <= i < records_of(prefix, second).len() ==> free_of(
                    #[trigger] records_of(prefix, second)[i],
                    '\0',
                )
        }),
    decreases second.len(),
{
    let prefix = first + seq!['.'];
    if second.len() > 0 {
        let init = second.drop_last();
        let key = second.last().0;
        assert(second_entry(second.last()));
        lemma_last_key_is_new(second);
        assert forall|i: int| 0 <= i < init.len() implies second_entry(#[trigger] init[i]) by {
            assert(init[i] == second[i]);
        }
        lemma_second_level_records(root, first, init);
        let middle_state = if init.len() == 0 {
            root
        } else {
            root.push((first, Node::Tree(init)))
        };
        let after = root.push((first, Node::Tree(second)));
        let earlier = records_of(prefix, init);
        let empty = Entries::empty();
        match second.last().1 {
            Node::Text(value) => {
                let leaf = Node::Text(value);
                let record = prefix + key + seq!['\n'] + value;
                assert(records_of(prefix, second) == earlier + seq![record]);
                lemma_records_merged_concat(root, earlier, seq![record]);
                lemma_records_merged_one(middle_state, record);
                lemma_record_of_path(middle_state, prefix + key, value);
                lemma_path_of_two(first, key);
                assert(prefix + key =~= first + seq!['.'] + key);
                lemma_key_index(empty, key);
                if init.len() == 0 {
                    assert(second =~= empty.push((key, leaf)));
                    lemma_new_key(empty, key, leaf);
                    lemma_new_key(root, first, Node::Tree(second));
                } else {
                    lemma_new_key(root, first, Node::Tree(init));
                    lemma_new_key(init, key, leaf);
                }
                assert(path_merged(middle_state, seq![first, key], value) == Some(after));
                assert forall|i: int| 0 <= i < records_of(prefix, second).len() implies free_of(
                    #[trigger] records_of(prefix, second)[i],
                    '\0',
                ) by {
                    if i >= earlier.len() {
                        assert(records_of(prefix, second)[i] == record);
                    } else {
                        assert(records_of(prefix, second)[i] == earlier[i]);
                    }
                }
            },
            Node::Tree(third) => {
                let below = records_of(prefix + key + seq!['.'], third);
                assert(records_of(prefix, second) == earlier + below);
                lemma_third_level_records(root, first, init, key, third);
                lemma_records_merged_concat(root, earlier, below);
                assert forall|i: int| 0 <= i < records_of(prefix, second).len() implies free_of(
                    #[trigger] records_of(prefix, second)[i],
                    '\0',
                ) by {
                    if i >= earlier.len() {
                        assert(records_of(prefix, second)[i] == below[i - earlier.len()]);
                    } else {
                        assert(records_of(prefix, second)[i] == earlier[i]);
                    }
                }
            },
        }
    }
}

/// Merging the records of a canonical root into an empty root gives the root.
proof fn lemma_root_records(root: Entries)
    requires
        canonical(root),
    ensures
        records_merged(Seq::empty(), records_of(Seq::empty(), root)) == Some(root),
        forall|i: int|
            0 <= i < records_of(Seq::empty(), root).len() ==> free_of(
                #[trigger] records_of(Seq::empty(), root)[i],
                '\0',
            ),
    decreases root.len(),
{
    let nothing = Seq::<char>::empty();
    let empty = Entries::empty();
    if root.len() > 0 {
        let init = root.drop_last();
        let key = root.last().0;
        assert(root_entry(root.last()));
        lemma_last_key_is_new(root);
        assert forall|i: int| 0 <= i < init.len() implies root_entry(#[trigger] init[i]) by {
            assert(init[i] == root[i]);
        }
        lemma_root_records(init);
        let earlier = records_of(nothing, init);
        assert(nothing + key =~= key);
        match root.last().1 {
            Node::Text(value) => {
                let record = key + seq!['\n'] + value;
                assert(records_of(nothing, root) == earlier + seq![record]);
                lemma_records_merged_concat(empty, earlier, seq![record]);
                lemma_records_merged_one(init, record);
                lemma_record_of_path(init, key, value);
                lemma_split_whole(key, '.');
                lemma_new_key(init, key, Node::Text(value));
                assert forall|i: int| 0 <= i < records_of(nothing, root).len() implies free_of(
                    #[trigger] records_of(nothing, root)[i],
                    '\0',
                ) by {
                    if i >= earlier.len() {
                        assert(records_of(nothing, root)[i] == record);
                    } else {
                        assert(records_of(nothing, root)[i] == earlier[i]);
                    }
                }
            },
            Node::Tree(second) => {
                let below = records_of(key + seq!['.'], second);
                assert(records_of(nothing, root) == earlier + below);
                lemma_second_level_records(init, key, second);
                lemma_records_merged_concat(empty, earlier, below);
                assert forall|i: int| 0 <= i < records_of(nothing, root).len() implies free_of(
                    #[trigger] records_of(nothing, root)[i],
                    '\0',
                ) by {
                    if i >= earlier.len() {
                        assert(records_of(nothing, root)[i] == below[i - earlier.len()]);
                    } else {
                        assert(records_of(nothing, root)[i] == earlier[i]);
                    }
                }
            },
        }
    } else {
        assert(root =~= empty);
    }
}

/// Parsing the text that describes a canonical tree gives that tree back.
pub proof fn lemma_parse_rendered(root: Entries)
    requires
        canonical(root),
    ensures
        parsed(rendered(root)) == Some(root),
{
    let records = records_of(Seq::empty(), root);
    lemma_root_records(root);
    lemma_split_text_of(records);
    assert(records.push(Seq::empty()) =~= records + seq![Seq::<char>::empty()]);
    lemma_records_merged_concat(Seq::empty(), records, seq![Seq::<char>::empty()]);
    lemma_records_merged_one(root, Seq::empty());
}

/// Rendering the tree that a parse produced and parsing the rendering gives
/// the same tree again.
pub proof fn lemma_round_trip(text: Seq<char>)
    ensures
        parsed(text) matches Some(root) ==> parsed(rendered(root)) == Some(root),
{
    lemma_parsed_canonical(text);
    if let Some(root) = parsed(text) {
        lemma_parse_rendered(root);
    }
}

} // verus!
