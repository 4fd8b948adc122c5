//! Batch rename of files driven by editing a text listing of their paths.
//!
//! The library plans rename/move operations from the diff between an
//! original path listing and a user-edited one.  It never touches the
//! filesystem itself: callers hand it a snapshot of the relevant existing
//! paths and apply the planned activities afterwards.

pub mod cli;
pub mod text;
pub mod config;
pub mod errors;
pub mod filehierarchy;
pub mod filelist;
pub mod filesystem;
pub mod listing;
pub mod plan;
