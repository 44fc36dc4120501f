//! Re-exports for convenience.

pub use crate::path::FilePath;
pub use crate::repo_metadata::{
    DebouncedFileWatcher, FileChangeEvent, FileChangeKind, FileEntry, FileTreeEntryState,
    FileTreeUpdate, HybridFileWatcher, RepositoryMetadataModel, RepositoryMetadataModelBuilder,
    WatcherError,
};
pub use crate::ui::{ProjectExplorerPane, ProjectExplorerPaneBuilder, TreeViewHandle};
