//! Repository metadata management.
//!
//! - `watcher`: debounced file watching with hybrid native/polling support
//!   - `event`: what watchers report
//!   - `coalesce`: changes, and how those of one path are merged
//!   - `watcher_laws`: what holds of the watchers
//! - `model`: repository metadata model for processing events
//!   - `scan`: recursive scan of a directory, respecting gitignore patterns
//!   - `gitignore`, `glob`: ignore files and their patterns
//!   - `ignore_laws`: what holds of ignore files and their patterns
//!   - `scan_laws`: what holds of a scan
//!   - `model_laws`: what holds of the model
//! - `file_tree_store`: bounded LRU cache for file tree state
//!   - `entry`: the entries
//!   - `entry_list`, `tree_model`: the tree as a mathematical value
//!   - `entry_cache`: the cache that holds the entries
//!   - `tree_laws`: what holds of the tree

pub mod coalesce;
pub mod entry;
pub mod entry_cache;
pub mod entry_list;
pub mod event;
pub mod file_tree_store;
pub mod gitignore;
pub mod glob;
pub mod ignore_laws;
pub mod model;
pub mod model_laws;
pub mod scan;
pub mod scan_laws;
pub mod tree_laws;
pub mod tree_model;
pub mod watcher;
pub mod watcher_laws;

pub use coalesce::{FileChangeEvent, FileChangeKind};
pub use entry::{FileEntry, FileMetadata};
pub use event::{DiskState, EventKind, ModifyKind, WatchEvent};
pub use file_tree_store::{FileTreeEntryState, FileTreeStats};
pub use model::{FileTreeUpdate, RepositoryMetadataModel, RepositoryMetadataModelBuilder};
pub use scan::{DirectoryScan, ListedEntry};
pub use watcher::{
    DebouncedFileWatcher, HybridFileWatcher, PolledEvent, UnwatchStep, WatchStep, WatcherError,
};
