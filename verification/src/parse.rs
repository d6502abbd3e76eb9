//! Folding a dump of `key.path\nvalue` records into a tree.

use vstd::prelude::*;
use vstd::slice::slice_subrange;
use crate::error::ParseError;
use crate::model::{Node, lemma_key_index, well_formed};
use crate::records::{
    lemma_parsed_well_formed, lemma_path_merged_well_formed, parsed, path_merged, record_merged,
    records_merged,
};
use crate::shape::{canonical, lemma_parsed_canonical};
use crate::text::{join, split, split_on, split_once, views};
use crate::value::{OrderedMap, Value};

verus! {

/// Stores `value` under the key path `segments` below `root`.
///
/// One segment names an entry of the root, two name an entry of a node of
/// the root. With more, the segments between the first and the last become
/// one dotted key at the second level. Nodes on the way are created where
/// they are missing. A path without segments, and one that runs through a
/// key that holds text, is malformed and leaves the root as it is.
pub fn merge_path(root: &mut OrderedMap, segments: &[String], value: &str) -> (r: Result<
    (),
    ParseError,
>)
    ensures
        match r {
            Ok(_) => path_merged(old(root)@, views(segments@), value@) == Some(final(root)@),
            Err(e) => {
                &&& e == ParseError::MalformedInput
                &&& path_merged(old(root)@, views(segments@), value@) is None
                &&& final(root)@ == old(root)@
            },
        },
        old(root).well_formed() ==> final(root).well_formed(),
{
    let n = segments.len();
    let ghost segs = views(segments@);
    proof {
        if root.well_formed() {
            lemma_path_merged_well_formed(root@, segs, value@);
        }
    }
    if n == 0 {
        Err(ParseError::MalformedInput)
    } else if n == 1 {
        root.insert(segments[0].clone(), Value::String(value.to_owned()));
        Ok(())
    } else {
        proof {
            lemma_key_index(root@, segs[0]);
        }
        let slot = root.get_or_insert(segments[0].clone(), Value::Object(OrderedMap::new()));
        match slot.as_object_mut() {
            None => {
                proof {
                    assert(root@ =~= old(root)@);
                }
                Err(ParseError::MalformedInput)
            },
            Some(second) => {
                if n == 2 {
                    second.insert(segments[1].clone(), Value::String(value.to_owned()));
                    Ok(())
                } else {
                    let middle = join(slice_subrange(segments, 1, n - 1), '.');
                    proof {
                        assert(views(segments@.subrange(1, n - 1)) =~= segs.subrange(1, n - 1));
                        lemma_key_index(second@, middle@);
                    }
                    let ghost second_before = second@;
                    let inner = second.get_or_insert(middle, Value::Object(OrderedMap::new()));
                    match inner.as_object_mut() {
                        None => {
                            proof {
                                assert(second@ =~= second_before);
                                assert(root@ =~= old(root)@);
                            }
                            Err(ParseError::MalformedInput)
                        },
                        Some(third) => {
                            third.insert(segments[n - 1].clone(), Value::String(value.to_owned()));
                            Ok(())
                        },
                    }
                }
            },
        }
    }
}

/// Merges one record into `root`.
///
/// The first newline of the record ends its key path; what follows is the
/// value, further newlines included. An empty record and a record with an
/// empty key path are skipped. A record without a newline is malformed, and
/// so is one whose path is (see `merge_path`); both leave the root as it is.
pub fn merge_record(root: &mut OrderedMap, record: &str) -> (r: Result<(), ParseError>)
    ensures
        match r {
            Ok(_) => record_merged(old(root)@, record@) == Some(final(root)@),
            Err(e) => {
                &&& e == ParseError::MalformedInput
                &&& record_merged(old(root)@, record@) is None
                &&& final(root)@ == old(root)@
            },
        },
        old(root).well_formed() ==> final(root).well_formed(),
{
    if record.is_empty() {
        return Ok(());
    }
    match split_once(record) {
        None => Err(ParseError::MalformedInput),
        Some((keys, value)) => {
            if keys.is_empty() {
                return Ok(());
            }
            let segments = split(keys, '.');
            merge_path(root, segments.as_slice(), value)
        },
    }
}

/// Parses a dump of records, which NUL characters separate, into the tree it
/// describes.
///
/// The records are merged into an empty root in their order, as
/// `merge_record` does it. The root of the result is always an inner node.
/// The first malformed record fails the whole input.
pub fn parse(text: &str) -> (r: Result<Value, ParseError>)
    ensures
        match r {
            Ok(tree) => {
                &&& tree@ is Tree
                &&& parsed(text@) == Some(tree@->Tree_0)
                &&& canonical(tree@->Tree_0)
                &&& well_formed(tree@)
            },
            Err(e) => e == ParseError::MalformedInput && parsed(text@) is None,
        },
{
    proof {
        lemma_parsed_well_formed(text@);
        lemma_parsed_canonical(text@);
    }
    let records = split(text, '\0');
    let mut root = OrderedMap::new();
    let n = records.len();
    let mut i: usize = 0;
    proof {
        assert(views(records@).subrange(0, n as int) =~= views(records@));
    }
    while i < n
        invariant
            i <= n,
            n == records@.len(),
            views(records@) == split_on(text@, '\0'),
            parsed(text@) == records_merged(root@, views(records@).subrange(i as int, n as int)),
        decreases n - i,
    {
        let ghost rest = views(records@).subrange(i as int, n as int);
        proof {
            assert(rest[0] == records@[i as int]@);
            assert(rest.drop_first() =~= views(records@).subrange(i + 1, n as int));
        }
        match merge_record(&mut root, records[i].as_str()) {
            Ok(_) => {},
            Err(e) => {
                return Err(e);
            },
        }
        i = i + 1;
    }
    Ok(Value::Object(root))
}

impl std::str::FromStr for Value {
    type Err = ParseError;

    /// The tree that `text` describes, as `parse` gives it.
    fn from_str(text: &str) -> (r: Result<Value, ParseError>)
        ensures
            match r {
                Ok(tree) => {
                    &&& tree@ is Tree
                    &&& parsed(text@) == Some(tree@->Tree_0)
                    &&& canonical(tree@->Tree_0)
                    &&& well_formed(tree@)
                },
                Err(e) => e == ParseError::MalformedInput && parsed(text@) is None,
            },
    {
        parse(text)
    }
}

} // verus!
