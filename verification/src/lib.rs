//! A small front end for rendering: markup and stylesheet text are parsed into
//! a document tree and a stylesheet, and the two are combined into a pruned,
//! style-annotated render tree.
//!
//! The parsers are recursive descents over the characters of their input.
//! What each of them reads is stated by a grammar: functions from a text
//! and a position to the value read there and the position after it. A
//! parser returns what its grammar reads, or the error that the grammar
//! gives, and nothing else.

pub mod cssom;
pub mod dom;
pub mod error;
pub mod html;
pub mod ordered;
pub mod prelude;
pub mod render_tree;
pub mod text;

pub use cssom::parser::StyleSheetParser;
pub use dom::parser::DocumentObjectParser;
pub use render_tree::RenderObject;
