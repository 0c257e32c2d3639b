//! The error type of the documentation tree.
//!
//! No error is recovered locally: every fallible operation hands its error
//! outward, and a failure partway through a render aborts the remaining
//! traversal.

use vstd::prelude::*;

verus! {

/// What can go wrong while opening or rendering a documentation tree.
#[derive(Debug)]
pub enum DocketError {
    /// The source path given to the root scan is not a directory.
    SourcePathNotADirectory(String),
    /// A file's content was needed but could not be read; holds the path.
    Io(String),
}

} // verus!
