//! Block-synchronization core for an Ethereum-style peer-to-peer client.
//!
//! The crate has three layers. `rlp` defines the recursive length-prefixed
//! wire grammar as specification functions on byte sequences, together with
//! verified encoding and parsing primitives. `codec` builds the four protocol
//! messages on top of that grammar and proves the encodings round-trip.
//! `chain` and `manager` hold the chain-adapter interface and the
//! synchronization policy that decides which headers the local node still
//! needs, dispatches decoded data into chain storage, and answers peer
//! requests.

pub mod types;

pub mod rlp;

pub mod codec;

pub mod chain;

pub mod manager;
