//! Verification core of a cross-chain light client bridge.
//!
//! A relay chain commits the history of its own headers, and of the headers of
//! a bridged secondary ("para") chain, into an append-only Merkle Mountain
//! Range accumulator.  An authority set co-signs periodic commitments to the
//! accumulator root.  A remote verifier ingests those commitments and then
//! answers claims that a key/value pair existed in the secondary chain's state
//! at a historical block, by composing an accumulator proof with two
//! trie-inclusion proofs.

pub mod block_data;
pub mod block_generation;
pub mod encoding;
pub mod ethereum_actor;
pub mod ethereum_view;
pub mod mmr;
pub mod hashing;
pub mod traits;
pub mod trie;
pub mod types;
pub mod utils;
