//! A walker over compiled contract artifacts.
//!
//! Each artifact carries the syntax tree of its source file. The walker takes
//! the artifacts in order, walks the tree of every source unit once, offers
//! every node to every detector, and gathers what the detectors find by
//! detector, each finding with the short name of its file and the line and
//! column at which it starts. What goes wrong with one artifact is reported
//! beside the findings and does not end the run.

pub mod position;
pub mod tree;
pub mod finding;
pub mod identity;
pub mod dispatch;
pub mod dedup;
pub mod error;
pub mod walker;
pub mod laws;
