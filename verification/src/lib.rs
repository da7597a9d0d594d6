//! Verified core of the actor services of a storage-chain node.
//!
//! Every function in this crate is a decision or a computation on plain values. Clocks,
//! networks, databases and message channels live outside and hand their readings in.

pub mod data_sync;
pub mod data_tx_validation;
pub mod ema;
pub mod epoch;
pub mod hashing;
pub mod mempool;
pub mod ordered_map;
pub mod primitives;
pub mod text;
pub mod transactions;
