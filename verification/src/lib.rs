//! A balanced, ordered, in-memory associative container: a 2-3-4 multiway
//! search tree mapping `u64` keys to values of an arbitrary type, supporting
//! point lookup, insertion-with-replace, deletion, size queries, and ordered
//! traversal.

pub mod either;
pub mod insert;
pub mod laws;
pub mod node;
pub mod remove;
pub mod tree234;

pub use either::Either;
pub use node::{Item, Node};
pub use tree234::{Tree234, Tree234Iterator};
