//! Configuration options steering listing, planning and execution.

use vstd::prelude::*;

use crate::cli::Opts;

verus! {

/// Configuration options.
pub struct Config {
    /// Whether to use the absolute path or not.
    pub absolute: bool,

    /// By default it picks the system env EDITOR, otherwise the one given.
    pub editor: Option<String>,

    /// Whether the command is recursive or not.
    pub recursive: bool,

    /// Whether to not fail in case of finding a target with the same
    /// filename; it automatically adjusts it.
    pub automatic_rename: bool,

    /// Whether to ignore hidden files and directories (or not).
    pub ignore_hidden: bool,

    /// Whether to automatically create dirs or not.
    pub mkdir: bool,

    /// Confirm all changes.
    pub yes: bool,

    /// Whether to have terminal output or not. It will fail on error.
    pub quiet: bool,
}

impl Config {
    /// The default configuration: recursive listing with directory creation,
    /// everything else off.
    pub fn new() -> (r: Self)
        ensures
            !r.automatic_rename,
            !r.absolute,
            r.editor is None,
            !r.ignore_hidden,
            r.recursive,
            r.mkdir,
            !r.yes,
            !r.quiet,
    {
        Self {
            automatic_rename: false,
            absolute: false,
            editor: None,
            ignore_hidden: false,
            recursive: true,
            mkdir: true,
            yes: false,
            quiet: false,
        }
    }

    /// The configuration requested by the given command-line options.
    pub fn from_args(opts: &Opts) -> (r: Self)
        ensures
            r.absolute == opts.absolute,
            r.editor == opts.editor,
            r.recursive == opts.recursive,
            r.automatic_rename == opts.automatic_rename,
            r.ignore_hidden == opts.ignore_hidden,
            r.mkdir == opts.mkdir,
            r.yes == opts.yes,
            r.quiet == opts.quiet,
    {
        Self {
            absolute: opts.absolute,
            editor: clone_opt_string(&opts.editor),
            recursive: opts.recursive,
            automatic_rename: opts.automatic_rename,
            ignore_hidden: opts.ignore_hidden,
            mkdir: opts.mkdir,
            yes: opts.yes,
            quiet: opts.quiet,
        }
    }
}

/// Clones an optional string, keeping its value.
fn clone_opt_string(s: &Option<String>) -> (r: Option<String>)
    ensures
        r == *s,
{
    match s {
        Some(v) => Some(v.clone()),
        None => None,
    }
}

} // verus!
