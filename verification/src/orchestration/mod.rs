//! Orchestration front end: DM ingest classification and the decision and
//! session-history tools.

pub mod ingest;
pub mod tools;
