//! Descriptions of file-dialog filters.
//!
//! A [`FileFilter`] names a group of file extensions that a file-picking
//! dialog offers; the dialog itself lives outside this crate.

use vstd::prelude::*;

verus! {

/// A named group of file extensions for a file-picking dialog.
pub struct FileFilter<'f> {
    pub name: &'f str,
    pub extensions: &'f [&'f str],
}

impl FileFilter<'static> {
    /// A filter with the given display name and extension list.
    pub fn new(name: &'static str, extensions: &'static [&'static str]) -> (r: Self)
        ensures
            r.name@ == name@,
            r.extensions == extensions,
    {
        FileFilter { name, extensions }
    }
}

} // verus!
