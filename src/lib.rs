//! A cloud-backed storage pool engine: the transaction-group lifecycle, the
//! packing of filesystem blocks into data objects, the metadata logs that
//! describe those objects, free-space reclamation and crash resume.

pub mod ids;
pub mod sorted;
pub mod object_block_map;
pub mod data_object;
pub mod logs;
pub mod pool;
pub mod reclaim;
pub mod block_based_log;
pub mod laws;
