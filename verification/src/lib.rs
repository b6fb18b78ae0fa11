//! Instruction-execution core of an in-memory ledger: a closed vocabulary of
//! state-mutating commands, a canonical binary encoding for each, and a
//! deterministic application procedure over a world state.

pub mod account;
pub mod asset;
pub mod codec;
pub mod domain;
pub mod isi;
pub mod peer;
pub mod world;
