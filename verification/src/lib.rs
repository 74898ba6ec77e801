//! Conflict-safe bulk-rename planning.
//!
//! Given a batch of requested `(source, destination)` renames, this crate
//! validates the batch against a snapshot of the filesystem, classifies the
//! hazards among the operations (free, chained, cyclic), and produces an
//! ordered execution plan of elementary moves that achieves the requested end
//! state without ever overwriting data that another pending move still needs.
//! A small model of the filesystem lets the executor's behaviour, including
//! dry runs and mid-batch aborts, be verified end to end.

pub mod errors;
pub mod executor;
pub mod fs_model;
pub mod graph;
pub mod laws;
pub mod ops;
pub mod path_text;
pub mod planner;
pub mod seqtool;
