//! What happens at the beginning of an epoch: which partitions there are, who mines them and which
//! data they hold.

pub mod commitments;
pub mod partitions;
pub mod replay;
pub mod service;
pub mod slots;
pub mod storage_modules;
