//! UI components for displaying the file tree.

pub mod project_explorer;
pub mod view_laws;
pub mod view_model;

pub use project_explorer::{
    Listener, ListenerStep, ProjectExplorerPane, ProjectExplorerPaneBuilder, Received,
    TreeViewHandle, TreeViewState,
};
