//! Conflict parsing, consensus, and reconciliation engine for three-way merge
//! conflicts.
//!
//! The library locates and structurally parses conflict regions in file text,
//! reconciles candidate resolutions from several model endpoints into a
//! deduplicated, confidence-ranked consensus, and rewrites file contents either
//! by annotating each conflict with the winning resolution or by collapsing the
//! markers into final text. All file, process and network handling lives with
//! the callers; the library works on plain in-memory values.

pub mod apply;
pub mod consensus;
pub mod markers;
pub mod parser;
pub mod scorer;
pub mod strutil;
pub mod types;
pub mod vcs;
