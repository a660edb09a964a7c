//! The ledger: content hashes, structural deltas, patches, the transaction
//! engine and replay.

pub mod hash;
pub mod json;
pub mod delta;
pub mod patch;
pub mod tx;
pub mod replay;
