//! A byte-indexed prefix tree that maps bounded-length keys to values.
//!
//! A [`Key`] is a string of at most [`KEYLEN`] bytes. A [`TrieMap`] routes on
//! each byte of a key in turn, so that both insertion and lookup take a number
//! of steps bounded by the key's length, whatever the number of entries.
//!
//! - [`key`]: keys, their equality and their order.
//! - [`node`]: the nodes of the tree and the step from a node to a child.
//! - [`trie`]: the map, with `put` and `get`.
//! - [`model`]: the map of byte strings to values that a tree stands for.
//! - [`shape`]: which nodes a tree has, and what a walk adds to them.
//! - [`order`]: the order of byte strings.
//! - [`laws`]: what holds of every map.

pub mod key;
pub mod laws;
pub mod model;
pub mod node;
pub mod order;
pub mod shape;
pub mod trie;

pub use key::{Key, KeyError, KEYLEN};
pub use node::Node;
pub use trie::TrieMap;
