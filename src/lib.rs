//! An HTML reader that turns text into a forest of nodes.
//!
//! The text is read by a character cursor, split into tokens, the tokens are
//! repaired so that open and close tags nest, and the repaired tokens are
//! assembled into a forest.
pub mod chars;
pub mod dom;
pub mod parser;
pub mod repair;
pub mod token;
pub mod tree;
