//! Case-insensitive line search over the files of a directory tree.
//!
//! The crate holds the rules of the search: which entries of a walk are
//! scanned, which lines of a file count as hits, and in which order the
//! records come out. Reading the file system is left to the caller, who
//! hands in what the walk found as plain values.

pub mod record;
pub mod text;
pub mod matcher;
pub mod walker;
pub mod selection;
