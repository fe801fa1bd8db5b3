//! Converts a line-based, pipe-separated record format into nested XML.
//!
//! Each line is a row: a tag, then its values, separated by `|`. The
//! grammar (`grammar`) says which tags exist, which fields each row has and
//! which rows nest inside which. `builder` turns the lines into an element
//! tree, salvaging what it can and reporting every row that breaks the
//! grammar; `tree` renders the tree as indented XML.
pub mod builder;
pub mod grammar;
pub mod laws;
pub mod row_laws;
pub mod text;
pub mod tree;

pub use builder::{parse, ParseError, ParseReport, TreeBuilder};
pub use grammar::Spec;
pub use tree::{Node, Tree};
