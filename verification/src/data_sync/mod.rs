//! Keeping a storage module's assigned partition in step with the network.

pub mod address_set;
pub mod ascending;
pub mod basic_orchestrator;
pub mod chunk_fetcher;
pub mod chunk_orchestrator;
pub mod peer_stats;
