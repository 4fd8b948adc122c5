//! Command-line options, as plain data.
//!
//! The binary front end parses the real command line and converts into this
//! struct; the library only ever sees the resulting plain values.

use vstd::prelude::*;

verus! {

/// Options a user can pass on the command line.
pub struct Opts {
    /// File or directory paths to list.
    pub paths: Vec<String>,

    /// By default it picks the system env EDITOR, otherwise the one given.
    pub editor: Option<String>,

    /// Whether to recurse into directories.
    pub recursive: bool,

    /// Whether to use the absolute path or not.
    pub absolute: bool,

    /// Whether to not fail in case of finding a target with the same
    /// filename; it automatically adjusts it.
    pub automatic_rename: bool,

    /// Whether to ignore hidden files and directories (or not).
    pub ignore_hidden: bool,

    /// Whether to automatically create dirs or not.
    pub mkdir: bool,

    /// Confirm all changes.
    pub yes: bool,

    /// Whether to have terminal output or not. It will fail on error.
    pub quiet: bool,
}

} // verus!
