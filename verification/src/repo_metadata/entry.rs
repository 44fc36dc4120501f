//! Entries of the file tree and the metadata that they are made of.

use crate::path::{FilePath, PathView};
use std::time::SystemTime;
use vstd::prelude::*;

verus! {

/// The time of a modification, carried through unread.
#[verifier::external_type_specification]
#[verifier::external_body]
pub struct ExSystemTime(std::time::SystemTime);

/// What the filesystem tells of a path.
#[derive(Debug, Clone, Copy)]
pub struct FileMetadata {
    /// Whether the path is a directory.
    pub is_dir: bool,
    /// The length that the filesystem reports, in bytes.
    pub len: u64,
    /// Last modification time, where the filesystem keeps one.
    pub modified: Option<SystemTime>,
}

/// Metadata for a single file or directory entry.
#[derive(Debug)]
pub struct FileEntry {
    /// The full path to the file/directory.
    pub path: FilePath,
    /// Whether this is a directory.
    pub is_dir: bool,
    /// File size in bytes (0 for directories).
    pub size: u64,
    /// Last modification time.
    pub modified: Option<SystemTime>,
    /// Whether the entry is marked as dirty (needs refresh).
    pub dirty: bool,
}

/// The contents of an entry.
pub struct EntryView {
    pub path: PathView,
    pub is_dir: bool,
    pub size: u64,
    pub modified: Option<SystemTime>,
    pub dirty: bool,
}

impl View for FileEntry {
    type V = EntryView;

    open spec fn view(&self) -> EntryView {
        EntryView {
            path: self.path@,
            is_dir: self.is_dir,
            size: self.size,
            modified: self.modified,
            dirty: self.dirty,
        }
    }
}

/// The size that an entry shows: directories have none.
pub open spec fn shown_size(metadata: FileMetadata) -> u64 {
    if metadata.is_dir {
        0
    } else {
        metadata.len
    }
}

/// The entry for a path whose metadata was read, or could not be.
pub open spec fn entry_from(path: PathView, metadata: Option<FileMetadata>) -> EntryView {
    match metadata {
        Some(found) => EntryView {
            path,
            is_dir: found.is_dir,
            size: shown_size(found),
            modified: found.modified,
            dirty: false,
        },
        None => EntryView { path, is_dir: false, size: 0, modified: None, dirty: false },
    }
}

/// The entry after another look at the disk: up to date, or else marked as dirty.
pub open spec fn entry_refreshed(entry: EntryView, metadata: Option<FileMetadata>) -> EntryView {
    match metadata {
        Some(found) => entry_from(entry.path, Some(found)),
        None => EntryView { dirty: true, ..entry },
    }
}

impl Clone for FileEntry {
    fn clone(&self) -> (result: Self)
        ensures
            result@ == self@,
    {
        FileEntry {
            path: self.path.clone(),
            is_dir: self.is_dir,
            size: self.size,
            modified: self.modified,
            dirty: self.dirty,
        }
    }
}

impl FileEntry {
    /// Create a new FileEntry for a path from what reading its metadata gave.
    pub fn from_path(path: &FilePath, metadata: Option<FileMetadata>) -> (result: Self)
        ensures
            result@ == entry_from(path@, metadata),
            result.is_dir ==> result.size == 0,
    {
        match metadata {
            Some(found) => FileEntry {
                path: path.clone(),
                is_dir: found.is_dir,
                size: if found.is_dir {
                    0
                } else {
                    found.len
                },
                modified: found.modified,
                dirty: false,
            },
            None => FileEntry {
                path: path.clone(),
                is_dir: false,
                size: 0,
                modified: None,
                dirty: false,
            },
        }
    }

    /// Create a placeholder entry (for when we can't read metadata).
    pub fn placeholder(path: &FilePath, is_dir: bool) -> (result: Self)
        ensures
            result@ == (EntryView { path: path@, is_dir, size: 0, modified: None, dirty: true }),
    {
        FileEntry { path: path.clone(), is_dir, size: 0, modified: None, dirty: true }
    }

    /// Refresh the metadata with what reading it from disk gave.
    pub fn refresh_metadata(&mut self, metadata: Option<FileMetadata>)
        ensures
            final(self)@ == entry_refreshed(old(self)@, metadata),
            (old(self).is_dir ==> old(self).size == 0) ==> (final(self).is_dir ==> final(self).size
                == 0),
            final(self).path@ == old(self).path@,
            metadata matches Some(found) ==> final(self).is_dir == found.is_dir
                && final(self).modified == found.modified && !final(self).dirty
                && final(self).size == (if found.is_dir {
                0
            } else {
                found.len
            }),
            metadata is None ==> final(self).dirty && final(self).is_dir == old(self).is_dir
                && final(self).modified == old(self).modified && final(self).size
                == old(self).size,
    {
        match metadata {
            Some(found) => {
                self.is_dir = found.is_dir;
                self.size = if found.is_dir {
                    0
                } else {
                    found.len
                };
                self.modified = found.modified;
                self.dirty = false;
            },
            None => {
                self.dirty = true;
            },
        }
    }
}

} // verus!
