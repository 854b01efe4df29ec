//! Verified core of a photo-backup tool.
//!
//! The library plans a backup run: it decides which source subfolders still
//! need scanning, assigns every file a `YYYY-MM` destination bucket derived
//! from its modification timestamp, parses and renders the marker file that
//! records finished subfolders, and formats byte totals for the final size
//! report. All filesystem work, process spawning and argument handling live
//! outside the library and act only on the plans it returns.

pub mod bucket;
pub mod decimal;
pub mod marker;
pub mod messages;
pub mod plan;
pub mod sizefmt;
pub mod sumsize;
