//! A static dictionary over byte-string keys, stored as a double array.
//!
//! Keys are sorted byte strings, each with a non-negative value. A build
//! turns them into a flat array of 64-bit units that encodes an automaton: a
//! trie, or, when values are given, a trie whose equal subtrees are stored
//! once. A transition on a byte is one array read and one comparison.
//! Searches read the array only: exact match, all keys that are prefixes of
//! a string, the longest such key, and single transitions from a node.
pub mod unit;
pub mod automaton;
pub mod keys;
pub mod builder;
pub mod codec;
pub mod search;
pub mod input;
pub mod trie;

pub use search::ResultPairType;
pub use trie::{Array, DartsError, DoubleArrayTrie};
