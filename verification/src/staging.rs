//! Staging commands. These are placeholders: none of them acts yet.

use vstd::prelude::*;

verus! {

/// Adding files to the staging area; nothing is done yet.
pub fn add() {
}

/// Removing files from the staging area; nothing is done yet.
pub fn rm() {
}

/// Recording a commit; nothing is done yet.
pub fn commit() {
}

/// Listing staged files; nothing is done yet.
pub fn ls_files() {
}

} // verus!
