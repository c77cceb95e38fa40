//! Deterministic core of the openhuman agent runtime: tool-output compaction,
//! background completion delivery, task-card prompts and dedup rules.

pub mod text;

pub mod compaction;
pub mod background_completions;
pub mod task_board;
pub mod task_dispatcher;
pub mod task_sources;
pub mod orchestration;
pub mod archivist;
pub mod gameplay_review;
pub mod preferences;
