//! A one-line arithmetic language. Text is cut into positioned tokens, the
//! tokens are parsed into an expression tree, and the tree is laid out as
//! the steps that compute its value. Every function has a contract over
//! sequences of characters and tokens, and the laws that connect them are
//! proved beside them.

pub mod chars;
pub mod number;
pub mod tokenize;
pub mod rebuild;
pub mod parse_tree;
pub mod grammar;
pub mod evaluate;
pub mod report;
