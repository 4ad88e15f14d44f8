//! A map from string keys to string values, kept as a compressed trie: a
//! prefix that several keys share is stored once.
//!
//! The tree is made of branches and leaves. An edge into a leaf ends a key
//! and is labelled with the rest of that key and the terminator `:`; an edge
//! into a branch is labelled with a piece that the keys below it share. A key
//! may therefore not hold the terminator. In no branch do two edges into
//! branches begin with the same character, no label occurs twice in a
//! branch, and no key ends at two places: every operation keeps the tree so,
//! and the tree is therefore a map. Keys are listed in the order of a
//! dictionary, whatever the order in which they were inserted.
//!
//! `trie` holds the mathematical model of the tree, `tree` the executable
//! tree with contracts over the model, `laws` what holds of the model,
//! `text` the prefix arithmetic on strings, and `digest` the Keccak-256
//! digest of a byte string.

use vstd::prelude::*;

pub mod digest;
pub mod laws;
pub mod text;
pub mod tree;
pub mod trie;

pub use digest::hash_bytes;
pub use tree::{InvalidKey, Node, PrefixTree};

verus! {

/// A digest of 32 bytes.
pub type Hash = [u8; 32];

} // verus!
