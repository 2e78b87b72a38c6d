//! An append-only topic engine.
pub mod append;
pub mod broadcast;
pub mod checkpoint;
pub mod claim_laws;
pub mod config;
pub mod control;
pub mod control_laws;
pub mod deal;
pub mod delete;
pub mod engine;
pub mod engine_laws;
pub mod eviction;
pub mod filters;
pub mod forward;
pub mod forward_laws;
pub mod frame_laws;
pub mod jobs;
pub mod layout_laws;
pub mod lease_laws;
pub mod leases;
pub mod listing;
pub mod lists;
pub mod log_laws;
pub mod materialize;
pub mod names;
pub mod payload;
pub mod publish;
pub mod queue;
pub mod queue_laws;
pub mod read;
pub mod read_laws;
pub mod recovery;
pub mod registry;
pub mod replay;
pub mod replay_laws;
pub mod retention_laws;
pub mod router;
pub mod routing;
pub mod segment_laws;
pub mod segwriter;
pub mod seqs;
pub mod snapshot;
pub mod state;
pub mod tag_index;
pub mod text;
pub mod topic_index;
pub mod topic_laws;
pub mod topic_state;
pub mod types;
pub mod wal;
pub mod walfiles;
pub mod write;
pub mod write_laws;
