//! Job-level memory profiling: a command's process tree is resolved from a
//! flat process table, successive samples are folded into per-process peak
//! statistics, and the result is filtered and ordered into a report.
//!
//! - `job_tree`: the job of a root pid and the job's share of a table
//! - `types`, `fold_laws`: the accumulator, its fold and what folding keeps
//! - `filter`, `profile`: include/exclude filtering and the finished report
//! - `sampler`: the sampling run as a state machine
//! - `ps`, `procfs`: reading process tables from `ps` output or `/proc` records
//! - `report`, `labels`, `cli`, `text`: text for the report's readers

pub mod job_tree;
pub mod types;
pub mod fold_laws;
pub mod filter;
pub mod profile;
pub mod text;
pub mod report;
pub mod labels;
pub mod cli;
pub mod ps;
pub mod sampler;
pub mod procfs;
