//! Filesystem events as the watchers report them.

use crate::path::FilePath;
use crate::repo_metadata::entry::FileMetadata;
use vstd::prelude::*;

verus! {

/// What was modified.
#[derive(Debug, Clone, Copy, PartialEq, Eq, Structural)]
pub enum ModifyKind {
    /// The name of a file or directory.
    Name,
    /// Anything else.
    Other,
}

/// The kind of an event that a watcher reports.
#[derive(Debug, Clone, Copy, PartialEq, Eq, Structural)]
pub enum EventKind {
    /// Nothing is known of the event.
    Any,
    /// A file was accessed.
    Access,
    /// A file or directory was created.
    Create,
    /// A file or directory was modified.
    Modify(ModifyKind),
    /// A file or directory was removed.
    Remove,
    /// An event of no other kind.
    Other,
}

/// An event that a watcher reports.
#[derive(Debug)]
pub struct WatchEvent {
    pub kind: EventKind,
    pub paths: Vec<FilePath>,
}

/// What a look at the disk shows of a path.
#[derive(Debug, Clone, Copy)]
pub struct DiskState {
    /// Whether the path exists.
    pub exists: bool,
    /// Its metadata, unless reading them failed.
    pub metadata: Option<FileMetadata>,
}

} // verus!
