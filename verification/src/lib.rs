//! A minimal append-only ledger: blocks of value transfers, linked by
//! SHA-256 digests and sealed by a proof-of-work search.

pub mod balance;
pub mod block;
pub mod blockchain;
mod clock;
pub mod conservation;
pub mod digest;
pub mod encoding;
pub mod integrity;
pub mod transaction;
