//! Front end of a pattern-to-automaton compiler: a recursive-descent parser
//! that builds a nullability-annotated syntax tree from a textual pattern,
//! a canonicalizer that rewrites the tree into star-normal form, and a
//! renderer that serializes a tree back to its canonical text.
pub mod canon;
pub mod laws;
pub mod parser;
pub mod render;
pub mod tree;

pub use canon::ss;
pub use canon::ssnf;
pub use parser::ParseError;
pub use parser::Parser;
pub use render::render;

pub use tree::Regex;
pub use tree::Tree;
