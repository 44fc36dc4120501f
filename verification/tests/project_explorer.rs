//! The tree view and the project explorer pane.

use std::cell::RefCell;
use std::rc::Rc;
use tokio::sync::broadcast::error::TryRecvError;
use tokio::sync::broadcast::Receiver;
use warp_file_watcher::path::FilePath;
use warp_file_watcher::repo_metadata::{
    DiskState, FileChangeEvent, FileChangeKind, FileTreeEntryState, FileTreeUpdate,
    RepositoryMetadataModel,
};
use warp_file_watcher::ui::{
    Listener, ProjectExplorerPane, ProjectExplorerPaneBuilder, Received, TreeViewHandle,
    TreeViewState,
};

type OnInvalidate = Box<dyn Fn(&Vec<FilePath>)>;
type OnRedraw = Box<dyn Fn()>;
type Task = Listener<OnInvalidate, OnRedraw>;
type View = TreeViewHandle<OnInvalidate, OnRedraw>;
/// A pane whose listener is known by whether it is finished.
type Pane = ProjectExplorerPane<OnInvalidate, OnRedraw, FileTreeEntryState, bool>;

fn path(text: &str) -> FilePath {
    FilePath::from_unix(text.as_bytes())
}

fn paths(texts: &[&str]) -> Vec<FilePath> {
    texts.iter().map(|text| path(text)).collect()
}

fn update(texts: &[&str], kind: FileChangeKind) -> FileTreeUpdate {
    FileTreeUpdate { paths: paths(texts), kind, is_batch: false }
}

fn listening(pane: &Pane) -> bool {
    pane.is_listening(|finished| *finished)
}

/// Sets up a listener whose task is known by whether it is finished.
fn set_up(pane: &mut Pane, finished: bool) -> Task {
    let mut task = None;
    pane.setup_file_tree_listener(|listener| {
        task = Some(listener);
        finished
    });
    task.unwrap()
}

/// Lets a listener take in all that waits in a channel. Returns whether it is done.
fn listen(pane: &mut Pane, task: &Task, rx: &mut Receiver<FileTreeUpdate>) -> bool {
    loop {
        let received = match rx.try_recv() {
            Ok(update) => Received::Update(update),
            Err(TryRecvError::Lagged(count)) => Received::Lagged(count),
            Err(TryRecvError::Closed) => Received::Closed,
            Err(TryRecvError::Empty) => return false,
        };
        let step = pane.listener_step(task, &received);
        if let (Some(invalidate), Received::Update(update)) = (step.invalidate, &received) {
            invalidate(&update.paths);
        }
        if let Some(redraw) = step.redraw {
            redraw();
        }
        if step.stop {
            return true;
        }
    }
}

/// A pane with a listener that writes down which callbacks are invoked.
fn recording() -> (Pane, Task, Rc<RefCell<Vec<String>>>) {
    let log: Rc<RefCell<Vec<String>>> = Rc::new(RefCell::new(Vec::new()));
    let on_invalidate = log.clone();
    let on_redraw = log.clone();
    let mut pane: Pane = ProjectExplorerPaneBuilder::new(FileTreeEntryState::new(10))
        .on_invalidate(Box::new(move |paths: &Vec<FilePath>| {
            on_invalidate.borrow_mut().push(format!("invalidate {}", paths.len()));
        }) as OnInvalidate)
        .on_redraw(Box::new(move || {
            on_redraw.borrow_mut().push(String::from("redraw"));
        }) as OnRedraw)
        .build();
    let task = set_up(&mut pane, false);
    (pane, task, log)
}

#[test]
fn test_tree_view_invalidate_paths() {
    let mut handle = View::new();
    let paths = vec![path("/test/file1.txt"), path("/test/file2.txt")];

    handle.invalidate_paths(&paths);

    assert!(handle.is_dirty(&path("/test/file1.txt")));
    assert!(handle.is_dirty(&path("/test/file2.txt")));
    // Parent should also be dirty
    assert!(handle.is_dirty(&path("/test")));
}

#[test]
fn test_tree_view_clear_dirty() {
    let mut handle = View::new();
    let paths = vec![path("/test/file.txt")];

    handle.invalidate_paths(&paths);
    assert!(handle.is_dirty(&path("/test/file.txt")));

    handle.clear_dirty();
    assert!(!handle.is_dirty(&path("/test/file.txt")));
}

#[test]
fn test_project_explorer_pane_creation() {
    let file_tree = FileTreeEntryState::new(1000);
    let pane = Pane::new(file_tree);

    assert!(!listening(&pane));
}

#[test]
fn test_listener_receives_updates() {
    let file_tree = FileTreeEntryState::new(1000);
    let (tx, mut rx) = tokio::sync::broadcast::channel::<FileTreeUpdate>(16);

    let mut pane = Pane::new(file_tree);
    let task = set_up(&mut pane, false);
    assert!(listening(&pane));

    // Send an update
    let update = FileTreeUpdate {
        paths: vec![path("/test/new_file.txt")],
        kind: FileChangeKind::Create,
        is_batch: false,
    };
    assert!(tx.send(update).is_ok());

    // Let the listener process it
    assert!(!listen(&mut pane, &task, &mut rx));

    // The path should be dirty
    assert!(pane.tree_view().is_dirty(&path("/test/new_file.txt")));

    // Cleanup
    assert_eq!(pane.stop(), Some(false));
}

#[test]
fn a_view_starts_clean() {
    let state = TreeViewState::default();
    assert!(state.selected.is_none());
    assert!(state.dirty_paths.is_empty());
    assert!(!state.needs_full_redraw);

    for view in [View::new(), View::default()] {
        assert_eq!(view.selected(), None);
        assert!(!view.needs_full_redraw());
        assert!(!view.is_dirty(&path("/")));
    }
}

#[test]
fn a_state_can_be_copied() {
    let mut state = TreeViewState::default();
    state.selected = Some(path("/a"));
    state.dirty_paths.insert(path("/b"));
    state.needs_full_redraw = true;
    let copy = state.clone();
    assert_eq!(copy.selected, Some(path("/a")));
    assert!(copy.dirty_paths.contains(&path("/b")));
    assert_eq!(copy.dirty_paths.len(), 1);
    assert!(copy.needs_full_redraw);
}

#[test]
fn only_paths_and_their_parents_become_dirty() {
    let mut view = View::new();
    view.invalidate_paths(&paths(&["/a/b/c", "/", "x"]));
    assert!(view.is_dirty(&path("/a/b/c")));
    assert!(view.is_dirty(&path("/a/b")));
    assert!(!view.is_dirty(&path("/a")));
    assert!(view.is_dirty(&path("/")));
    assert!(view.is_dirty(&path("x")));
    assert!(view.is_dirty(&path("")));
    assert!(!view.needs_full_redraw());
}

#[test]
fn a_redraw_clears_all_but_the_selection() {
    let mut view = View::new();
    view.set_selected(Some(path("/a")));
    view.invalidate_paths(&paths(&["/a"]));
    assert!(view.request_redraw().is_none());
    assert!(view.needs_full_redraw());
    view.clear_dirty();
    assert!(!view.needs_full_redraw());
    assert!(!view.is_dirty(&path("/a")));
    assert_eq!(view.selected(), Some(path("/a")));
    view.set_selected(None);
    assert_eq!(view.selected(), None);
}

#[test]
fn callbacks_are_handed_out_once_they_are_set() {
    let mut view: TreeViewHandle<u8, char> = TreeViewHandle::new();
    assert!(view.invalidate_paths(&paths(&["/a"])).is_none());
    assert!(view.request_redraw().is_none());
    view.set_invalidate_callback(7);
    view.set_redraw_callback('r');
    assert_eq!(view.invalidate_paths(&paths(&["/a"])), Some(&7));
    assert_eq!(view.request_redraw(), Some(&'r'));
    view.set_invalidate_callback(8);
    assert_eq!(view.invalidate_paths(&paths(&["/a"])), Some(&8));
}

#[test]
fn a_builder_sets_the_callbacks() {
    let pane: ProjectExplorerPane<u8, char, &str, bool> =
        ProjectExplorerPaneBuilder::new("tree").build();
    assert_eq!(pane.file_tree(), &"tree");

    let mut pane: ProjectExplorerPane<u8, char, &str, bool> =
        ProjectExplorerPaneBuilder::new("tree").on_invalidate(3).on_redraw('c').build();
    assert_eq!(pane.file_tree(), &"tree");
    assert!(!pane.is_listening(|finished| *finished));
    assert_eq!(pane.tree_view_mut().invalidate_paths(&vec![]), Some(&3));
    assert_eq!(pane.tree_view_mut().request_redraw(), Some(&'c'));
    assert!(pane.tree_view().needs_full_redraw());
}

#[test]
fn an_update_invalidates_and_redraws() {
    for kind in [
        FileChangeKind::Create,
        FileChangeKind::Remove,
        FileChangeKind::Modify,
        FileChangeKind::Rename,
    ] {
        let (mut pane, task, log) = recording();
        let (tx, mut rx) = tokio::sync::broadcast::channel(16);
        assert!(tx.send(update(&["/p/a", "/p/b"], kind)).is_ok());
        assert!(!listen(&mut pane, &task, &mut rx));
        assert_eq!(*log.borrow(), vec!["invalidate 2", "redraw"]);
        assert!(pane.tree_view().is_dirty(&path("/p/a")));
        assert!(pane.tree_view().is_dirty(&path("/p")));
        assert!(pane.tree_view().needs_full_redraw());
    }
}

#[test]
fn only_structural_changes_redraw_without_paths() {
    for (kind, redraws) in [
        (FileChangeKind::Create, true),
        (FileChangeKind::Remove, true),
        (FileChangeKind::Modify, false),
        (FileChangeKind::Rename, false),
    ] {
        let (mut pane, task, log) = recording();
        let (tx, mut rx) = tokio::sync::broadcast::channel(16);
        assert!(tx.send(update(&[], kind)).is_ok());
        assert!(!listen(&mut pane, &task, &mut rx));
        if redraws {
            assert_eq!(*log.borrow(), vec!["invalidate 0", "redraw"]);
        } else {
            assert_eq!(*log.borrow(), vec!["invalidate 0"]);
        }
        assert_eq!(pane.tree_view().needs_full_redraw(), redraws);
    }
}

#[test]
fn a_listener_that_lags_asks_for_a_redraw() {
    let (mut pane, task, log) = recording();
    pane.tree_view_mut().set_selected(Some(path("/s")));
    let (tx, mut rx) = tokio::sync::broadcast::channel(2);
    for text in ["/a", "/b", "/c"] {
        assert!(tx.send(update(&[text], FileChangeKind::Modify)).is_ok());
    }
    assert!(!listen(&mut pane, &task, &mut rx));
    assert_eq!(
        *log.borrow(),
        vec!["redraw", "invalidate 1", "redraw", "invalidate 1", "redraw"]
    );
    assert!(!pane.tree_view().is_dirty(&path("/a")));
    assert!(pane.tree_view().is_dirty(&path("/b")));
    assert!(pane.tree_view().is_dirty(&path("/c")));
    assert!(pane.tree_view().needs_full_redraw());
    assert_eq!(pane.tree_view().selected(), Some(path("/s")));
}

#[test]
fn a_closed_channel_stops_the_listener() {
    let (mut pane, task, log) = recording();
    let (tx, mut rx) = tokio::sync::broadcast::channel::<FileTreeUpdate>(2);
    drop(tx);
    assert!(listen(&mut pane, &task, &mut rx));
    assert!(log.borrow().is_empty());
    assert!(!pane.tree_view().needs_full_redraw());
}

#[test]
fn a_finished_listener_does_not_listen() {
    let mut pane = Pane::new(FileTreeEntryState::new(10));
    set_up(&mut pane, true);
    assert!(!listening(&pane));
    set_up(&mut pane, false);
    assert!(listening(&pane));
    assert_eq!(pane.stop(), Some(false));
    assert!(!listening(&pane));
    assert_eq!(pane.stop(), None);
}

#[test]
fn a_stopped_pane_takes_nothing_in() {
    let (mut pane, task, log) = recording();
    let (tx, mut rx) = tokio::sync::broadcast::channel(16);
    assert!(tx.send(update(&["/a"], FileChangeKind::Create)).is_ok());
    assert!(!listen(&mut pane, &task, &mut rx));
    assert_eq!(pane.stop(), Some(false));

    assert!(tx.send(update(&["/b"], FileChangeKind::Create)).is_ok());
    assert!(listen(&mut pane, &task, &mut rx));
    assert_eq!(*log.borrow(), vec!["invalidate 1", "redraw"]);
    assert!(pane.tree_view().is_dirty(&path("/a")));
    assert!(!pane.tree_view().is_dirty(&path("/b")));

    // The stopped listener stays so, and a new one listens
    let next = set_up(&mut pane, false);
    assert!(tx.send(update(&["/c"], FileChangeKind::Create)).is_ok());
    let mut other_rx = tx.subscribe();
    assert!(listen(&mut pane, &task, &mut rx));
    assert!(!pane.tree_view().is_dirty(&path("/c")));
    assert!(tx.send(update(&["/d"], FileChangeKind::Create)).is_ok());
    assert!(!listen(&mut pane, &next, &mut other_rx));
    assert!(pane.tree_view().is_dirty(&path("/d")));
}

#[test]
fn a_replaced_listener_goes_on() {
    let (mut pane, first, log) = recording();
    let second = set_up(&mut pane, false);
    assert_eq!(pane.stop(), Some(false));
    assert!(!listening(&pane));
    let (tx, mut rx) = tokio::sync::broadcast::channel(16);
    let mut other_rx = tx.subscribe();
    assert!(tx.send(update(&["/a"], FileChangeKind::Modify)).is_ok());
    assert!(listen(&mut pane, &second, &mut other_rx));
    assert!(log.borrow().is_empty());
    assert!(!pane.tree_view().is_dirty(&path("/a")));
    assert!(!listen(&mut pane, &first, &mut rx));
    assert_eq!(*log.borrow(), vec!["invalidate 1", "redraw"]);
    assert!(pane.tree_view().is_dirty(&path("/a")));
}

#[test]
fn a_listener_keeps_the_callbacks_it_was_set_up_with() {
    let mut pane = Pane::new(FileTreeEntryState::new(10));
    let task = set_up(&mut pane, false);
    let count = Rc::new(RefCell::new(0));
    let counter = count.clone();
    pane.tree_view_mut().set_redraw_callback(Box::new(move || *counter.borrow_mut() += 1));
    let (tx, mut rx) = tokio::sync::broadcast::channel(16);
    assert!(tx.send(update(&["/a"], FileChangeKind::Create)).is_ok());
    assert!(!listen(&mut pane, &task, &mut rx));
    assert!(pane.tree_view().is_dirty(&path("/a")));
    assert!(pane.tree_view().needs_full_redraw());
    assert_eq!(*count.borrow(), 0);

    // A later listener has the callback, and so has the view itself
    let next = set_up(&mut pane, false);
    assert!(tx.send(update(&["/b"], FileChangeKind::Create)).is_ok());
    assert!(!listen(&mut pane, &next, &mut rx));
    assert_eq!(*count.borrow(), 1);
    if let Some(redraw) = pane.tree_view_mut().request_redraw() {
        redraw();
    }
    assert_eq!(*count.borrow(), 2);
}

#[test]
fn every_event_reaches_the_view() {
    let texts = ["/p/a", "/p/b", "/q/c", "/d"];
    let kinds = [
        FileChangeKind::Create,
        FileChangeKind::Modify,
        FileChangeKind::Remove,
        FileChangeKind::Rename,
    ];
    let events: Vec<FileChangeEvent> = texts
        .iter()
        .zip(kinds)
        .map(|(text, kind)| FileChangeEvent { path: path(text), kind, timestamp: 1 })
        .collect();
    let disk: Vec<DiskState> =
        texts.iter().map(|_| DiskState { exists: false, metadata: None }).collect();

    let mut model = RepositoryMetadataModel::new(path("/"), 10, 16);
    let (mut pane, task, _) = recording();
    let (tx, mut rx) = tokio::sync::broadcast::channel(model.buffer_size());
    for update in model.handle_watcher_events(events, &disk) {
        assert!(tx.send(update).is_ok());
    }
    assert!(!listen(&mut pane, &task, &mut rx));
    for text in texts {
        assert!(pane.tree_view().is_dirty(&path(text)), "{}", text);
    }
    assert!(pane.tree_view().is_dirty(&path("/q")));
    assert!(pane.tree_view().needs_full_redraw());
}
