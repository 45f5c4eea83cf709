//! Scaffolding logic for new sub-crates of a multi-crate workspace.
//!
//! The crate derives qualified crate names, renders the fixed file
//! templates, plans the scaffolding steps, and patches the marked
//! region of the workspace build manifest.  All of it is pure text
//! logic; running commands and touching the filesystem is left to the
//! caller.

pub mod laws;
pub mod lines;
pub mod markers;
pub mod metadata;
pub mod names;
pub mod order;
pub mod patch;
pub mod plan;
pub mod report;
pub mod scan;
pub mod templates;
