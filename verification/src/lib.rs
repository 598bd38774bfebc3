//! An in-memory Merkle-Patricia trie engine: builds a trie from key/value
//! byte pairs, computes a cryptographic root fingerprint over its contents,
//! and drains itself key by key in a root-derived order, recording the root
//! after every removal.
use vstd::prelude::*;

pub mod canon;
pub mod codec;
pub mod driver;
pub mod hashing;
pub mod hostfn;
pub mod laws;
pub mod nibble;
pub mod node;
pub mod ops;
pub mod removal;
pub mod store;
pub mod striplaws;
pub mod trie;
pub mod wire;

verus! {

/// The failures the engine can report.
///
/// `NodeNotFound` marks a store lookup for an unknown hash, an internal
/// consistency breach rather than a caller error. `KeyNotFound` marks a
/// removal of an absent key. `DecodeError` marks bytes that are no
/// canonical node encoding.
#[derive(Clone, Copy, Debug, PartialEq, Eq, Structural)]
pub enum TrieError {
    NodeNotFound,
    KeyNotFound,
    DecodeError,
}

} // verus!
