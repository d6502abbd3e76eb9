//! Parser for NUL-separated `key\nvalue` configuration dumps.
//!
//! The input is a flat stream of records whose dotted key paths are folded
//! into a tree of string-keyed nodes: `section.sub.key` becomes
//! `{section: {sub: {key: value}}}`.

pub mod error;
pub mod model;
pub mod parse;
pub mod records;
pub mod render;
pub mod shape;
pub mod text;
pub mod value;

pub use error::ParseError;
pub use parse::{merge_path, merge_record, parse};
pub use text::{find_char, join, same_text, split, split_once};
pub use value::{OrderedMap, Value};
