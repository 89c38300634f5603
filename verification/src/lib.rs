//! Storage engines of a small messaging stack: an append-only key/value log
//! with compaction, an append-only partition of offset-numbered records, and
//! the in-memory services built on them.

pub mod api;
pub mod brass;
pub mod copper;
pub mod kopper;
pub mod partition;
pub mod stats;
pub mod storage;
pub mod templater;
pub mod topic;
pub mod text;
