//! File watching for a project explorer.
//!
//! Changes of files travel from the filesystem to the screen in steps, and this crate holds what
//! each step decides:
//!
//! ```text
//! Filesystem change
//!        |
//! DebouncedFileWatcher / HybridFileWatcher  (gather and coalesce events)
//!        |
//! RepositoryMetadataModel::handle_watcher_events
//!        |
//! FileTreeEntryState  (updated in place, bounded by an LRU cache)
//!        |
//! FileTreeUpdate
//!        |
//! ProjectExplorerPane  (dirty paths and redraws)
//! ```
//!
//! The crate does no I/O of its own. Whoever drives it asks the system to watch paths, reads
//! metadata and directories, tells the time, carries updates from one component to the next and
//! invokes the callbacks of the UI; the results of that work come in as plain values.
//!
//! ## Module structure
//!
//! - [`path`]: paths as lists of components
//! - [`path_set`]: sets of paths
//! - [`sequences`]: lemmas on lists
//! - [`text`]: numbers and bytes as text
//! - [`repo_metadata`]: core file watching and state management
//!   - [`repo_metadata::watcher`]: debounced and hybrid file watchers
//!   - [`repo_metadata::model`]: repository metadata model
//!   - [`repo_metadata::scan`]: recursive scan of a directory
//!   - [`repo_metadata::file_tree_store`]: LRU-bounded file tree state
//! - [`ui`]: UI components
//!   - [`ui::project_explorer`]: Project Explorer pane component
//! - [`prelude`]: re-exports for convenience

pub mod path;
pub mod path_set;
pub mod prelude;
pub mod repo_metadata;
pub mod sequences;
pub mod text;
pub mod ui;
