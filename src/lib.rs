//! A small proof-of-work ledger: the per-node chain replica, the block and
//! transaction records, the nonce search, and the transaction intake server.

pub mod simple_transaction;
pub mod hashing;
pub mod block;
pub mod chain_model;
pub mod blockchain;
pub mod chain_laws;
pub mod mining;
pub mod server;
pub mod worker;
pub mod client;
