//! An in-memory JSON document engine that is read and rewritten through
//! JSONPath-like expressions.
//!
//! The work is done in three stages:
//! - [`peekable_codepoints`] is a cursor with lookahead over the characters
//!   that UTF-8 bytes encode;
//! - [`json_tag`] reads tokens from the cursor, and [`json_node`] builds the
//!   tree of a document from tokens;
//! - [`json_path`] compiles the text of a path, and [`evaluation`] finds the
//!   nodes that a path selects in a tree, reads them and writes them.
//!
//! [`serialization`] writes a tree as text. Three modules hold no code that
//! runs, only what is proved of the code: [`rewriting`], [`notation`] and
//! [`round_trip`].
//!
//! Getting a value by a path:
//! ```
//! use plainjson::JsonNode;
//!
//! let json = r#"{"a": 123, "b": {"c": "hello"}}"#;
//! let mut json = JsonNode::parse_single_node(json.as_bytes()).unwrap();
//! let c = json.get_str("$.b.c").unwrap();
//! assert_eq!(c, Some(String::from("hello")));
//! ```
//!
//! Setting a value by a path:
//! ```
//! use plainjson::JsonNode;
//!
//! let json = r#"{"a": 123, "b": [3, 2, 1]}"#;
//! let mut json = JsonNode::parse_single_node(json.as_bytes()).unwrap();
//! json.set_bool("$.b[1]", true).unwrap();
//! assert_eq!(json.to_string(), r#"{"a": 123, "b": [3, true, 1]}"#);
//! ```
//!
//! Filters in paths, such as `[?(@.price < 10)]`, are recognized and
//! rejected.

pub mod error;
pub mod evaluation;
pub mod json_node;
pub mod json_path;
pub mod json_tag;
pub mod notation;
pub mod peekable_codepoints;
pub mod rewriting;
pub mod round_trip;
pub mod serialization;
pub mod text;

pub use crate::error::JsonError;
pub use crate::json_node::JsonNode;
pub use crate::json_tag::JsonTag;
