//! Pending transactions and chunks, and the rules by which they come in and go out.

pub mod anchors;
pub mod chunk_data_writer;
pub mod chunk_ingress;
pub mod chunks;
pub mod commitment_txs;
pub mod data_txs;
pub mod errors;
pub mod funding;
pub mod ingress_proofs;
pub mod laws;
pub mod lifecycle;
pub mod lru_caches;
pub mod pledge_provider;
pub mod prevalidated;
pub mod prioritized_commitment;
pub mod priority;
pub mod publish;
pub mod read_guard;
pub mod reorg;
pub mod selection;
pub mod service;
pub mod service_loop;
pub mod state;
pub mod state_queries;
pub mod state_updates;
pub mod status;
pub mod types;
