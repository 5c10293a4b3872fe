//! A minimal proof-of-work ledger with UTXO-based value transfer.
//!
//! The crate holds the ledger engine: sealing blocks by proof of work, the
//! hash-linked chain, Merkle aggregation of transactions, building, signing and
//! verifying transactions, and the index of unspent outputs.

pub mod errors;
pub mod codec;
pub mod wallet;
pub mod merkle;
pub mod tx;
pub mod transaction;
pub mod block;
pub mod blockchain;
pub mod utxoindex;
pub mod utxoset;
pub mod derivation;

