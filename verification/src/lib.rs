//! Deduplication of date-stamped chart tile files.
//!
//! Filenames carry a trailing date, time and extension field, separated by
//! underscores.  Files are grouped by the remaining prefix (the group key),
//! and only the latest-dated file of each group is kept; the others are
//! collected for removal.
//!
//! The `parse` module derives a group key and a calendar date from a path;
//! `dedup` holds the keep and remove sets and decides each file's fate;
//! `laws` proves the run's properties (order independence, tie stability,
//! the keep/remove partition, date dominance); `split` proves the parser's
//! positional field definitions equal to splitting on underscores and
//! re-joining; `order` gives the lexicographic order of the deletion pass.

pub mod date;
pub mod dedup;
pub mod error;
pub mod file;
pub mod laws;
pub mod order;
pub mod parse;
pub mod split;

pub use date::Date;
pub use dedup::{DedupState, ScanOutcome};
pub use error::Error;
pub use file::FoundFile;
