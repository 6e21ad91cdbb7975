//! Reclaims space in a versioned object store that archives time-series
//! blocks: classifies listed object versions and delete markers by block,
//! plans the purge of marked versions, and schedules the paced deletions.

pub mod block_id;
pub mod classify;
pub mod execute;
pub mod laws;
pub mod plan;
