//! The two fatal error kinds of a deduplication run.

use vstd::prelude::*;

verus! {

/// A fatal error: either a filesystem failure or a date token that does
/// not match the basic calendar date format.  Each variant carries the
/// display text of the underlying failure.
#[derive(Debug)]
pub enum Error {
    IOError(String),
    FormatError(String),
}

} // verus!
