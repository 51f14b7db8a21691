//! A structured-text document engine: a tree of text, list and dictionary
//! values annotated with comments, encoded so that untouched regions of a
//! parsed document are written back byte for byte.
//!
//! A program loads a document, changes a few values by path, and writes the
//! document again without disturbing the comments, the blank lines or the
//! indentation of the rest.
//!
//! The modules, from the leaves up:
//!
//! - [`lines`], [`strings`] and [`decimal`]: lines of bytes, strings as
//!   bytes, and numerals.
//! - [`limits`]: the ceilings of the encoding.
//! - [`span`] and [`encoded`]: a span of text as it stands in a document,
//!   what it means, and how it is parsed and written; [`order`] compares
//!   spans.
//! - [`comments`]: comments.
//! - [`tree`], [`values`] and [`encode`]: the value tree and its writing.
//! - [`paths`]: reading and changing a value deep in the tree.
//! - [`maps`]: a dictionary with an index, for large dictionaries.
//! - [`laws`]: what holds of all of it.

pub mod comments;
pub mod decimal;
pub mod encode;
pub mod encoded;
pub mod laws;
pub mod limits;
pub mod lines;
pub mod maps;
pub mod order;
pub mod paths;
pub mod span;
pub mod strings;
pub mod tree;
pub mod values;

pub use crate::comments::Comment;
pub use crate::encoded::Encoded;
pub use crate::limits::{CommentErr, MAX_INDENT, MAX_NEWLINES};
pub use crate::maps::KeyedMap;
pub use crate::paths::{Have, Kind, Path, PathErr, PathStep};
pub use crate::span::Order;
pub use crate::values::{Dict, File, Key, KeyErr, Keyed, List, Text, Value};
