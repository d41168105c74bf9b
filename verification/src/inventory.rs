//! The inventory's classification of directory-walk results.  The walk
//! itself, and the stat calls that size each file, happen outside the
//! library; here the walkdir entry types are declared and walk results
//! are filtered down to regular files.

use vstd::prelude::*;

verus! {

#[verifier::external_type_specification]
#[verifier::external_body]
pub struct ExDirEntry(walkdir::DirEntry);

#[verifier::external_type_specification]
#[verifier::external_body]
pub struct ExWalkdirError(walkdir::Error);

/// Relies on walkdir's `DirEntry::file_type` (the file type recorded
/// while walking) and std's `FileType::is_file`.  What it returns depends
/// on what was on disk during the walk, so nothing more is claimed of it.
#[verifier::external_body]
fn entry_is_regular(entry: &walkdir::DirEntry) -> bool {
    entry.file_type().is_file()
}

/// Keeps only walk results that name a regular file; errors and
/// non-files (directories, symlinks) are dropped from the inventory.
pub fn is_file(entry: &Result<walkdir::DirEntry, walkdir::Error>) -> (r: bool)
    ensures
        entry is Err ==> !r,
{
    match entry {
        Ok(e) => entry_is_regular(e),
        Err(_) => false,
    }
}

} // verus!
