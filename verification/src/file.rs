//! A discovered candidate file.

use vstd::prelude::*;
use crate::date::Date;

verus! {

/// A file discovered during the walk: `path` is the group key derived from
/// its filename, `date` the date parsed from its date token, and
/// `full_path` the path it was found under.  Within the keep set, identity
/// is by `path` (the group key) alone.
#[derive(Debug)]
pub struct FoundFile {
    pub path: String,
    pub date: Date,
    pub full_path: String,
}

/// The mathematical image of a `FoundFile`: its group key, date and path.
pub ghost struct FileView {
    pub key: Seq<char>,
    pub date: Date,
    pub path: Seq<char>,
}

impl View for FoundFile {
    type V = FileView;

    open spec fn view(&self) -> FileView {
        FileView { key: self.path@, date: self.date, path: self.full_path@ }
    }
}

} // verus!
