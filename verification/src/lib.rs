//! Batch renaming of file names by pattern.
//!
//! A pattern such as `{title}.{extension}` mixes literal text with named
//! placeholders. A source pattern is compiled into a matcher that takes a
//! file name apart; the captured values are then put into a destination
//! pattern to give the new name. The library works on names only: listing a
//! directory and renaming files on disk is left to the caller.

pub mod engine;
pub mod error;
pub mod extraction;
pub mod listing;
pub mod matcher;
pub mod pattern;
pub mod planner;
pub mod report;
pub mod text;

pub use error::ErrorKind;
pub use extraction::Extraction;
pub use listing::{get_sorted_files, process_rename, DirectoryEntry};
pub use matcher::{compile, CompiledMatcher};
pub use pattern::{extract_placeholder_names, Pattern, Segment};
pub use planner::{plan, plan_all, reformat_string, rename, PlanEntry};
pub use report::ReportEntry;
