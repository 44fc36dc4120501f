//! The repository model and directory scans.

use warp_file_watcher::path::FilePath;
use warp_file_watcher::repo_metadata::scan::ignores;
use warp_file_watcher::repo_metadata::{
    DirectoryScan, DiskState, FileChangeEvent, FileChangeKind, FileMetadata, FileTreeUpdate,
    ListedEntry, RepositoryMetadataModel, RepositoryMetadataModelBuilder,
};

fn path(text: &str) -> FilePath {
    FilePath::from_unix(text.as_bytes())
}

fn paths(texts: &[&str]) -> Vec<FilePath> {
    texts.iter().map(|text| path(text)).collect()
}

fn change(text: &str, kind: FileChangeKind) -> FileChangeEvent {
    FileChangeEvent { path: path(text), kind, timestamp: 0 }
}

fn file(len: u64) -> DiskState {
    DiskState {
        exists: true,
        metadata: Some(FileMetadata { is_dir: false, len, modified: None }),
    }
}

fn absent() -> DiskState {
    DiskState { exists: false, metadata: None }
}

fn model(max_entries: usize) -> RepositoryMetadataModel {
    RepositoryMetadataModel::new(path("/test"), max_entries, 16)
}

/// Passes updates through a channel like the one that connects a model with the UI.
fn through_channel(updates: Vec<FileTreeUpdate>) -> Vec<FileTreeUpdate> {
    let (tx, mut rx) = tokio::sync::broadcast::channel(16);
    for update in updates {
        assert!(tx.send(update).is_ok());
    }
    let mut received = Vec::new();
    while let Ok(update) = rx.try_recv() {
        received.push(update);
    }
    received
}

fn shown(updates: &[FileTreeUpdate]) -> Vec<(FileChangeKind, Vec<FilePath>, bool)> {
    updates
        .iter()
        .map(|update| (update.kind, update.paths.clone(), update.is_batch))
        .collect()
}

fn paths_in(model: &RepositoryMetadataModel) -> Vec<FilePath> {
    model.file_tree().iter().into_iter().map(|(path, _)| path.clone()).collect()
}

#[test]
fn test_handle_create_event() {
    let mut model = RepositoryMetadataModel::new(path("/test"), 1000, 16);

    let event = FileChangeEvent {
        path: path("/test/new_file.txt"),
        kind: FileChangeKind::Create,
        timestamp: 0,
    };

    let updates = model.handle_watcher_event(event, absent());

    // Check that UI was notified
    let received = through_channel(updates);
    assert!(received.len() > 0);
    let update = &received[0];
    assert_eq!(update.kind, FileChangeKind::Create);
    assert_eq!(update.paths.len(), 1);
}

#[test]
fn test_handle_batch_events() {
    let mut model = RepositoryMetadataModel::new(path("/test"), 1000, 16);

    let events = vec![
        FileChangeEvent {
            path: path("/test/file1.txt"),
            kind: FileChangeKind::Create,
            timestamp: 0,
        },
        FileChangeEvent {
            path: path("/test/file2.txt"),
            kind: FileChangeKind::Create,
            timestamp: 0,
        },
    ];

    let updates = model.handle_watcher_events(events, &vec![absent(), absent()]);

    let received = through_channel(updates);
    assert!(received.len() > 0);
    let update = &received[0];
    assert!(update.is_batch);
    assert_eq!(update.paths.len(), 2);
}

#[test]
fn a_model_knows_what_it_was_made_of() {
    let model = model(1000);
    assert_eq!(model.root_path(), &path("/test"));
    assert_eq!(model.buffer_size(), 16);
    assert_eq!(model.file_tree().capacity(), 1000);
    assert!(model.file_tree().is_empty());
}

#[test]
fn the_ui_can_change_the_tree_of_a_model() {
    let mut model = model(2);
    model.handle_watcher_event(change("/a", FileChangeKind::Create), file(1));
    model.handle_watcher_event(change("/b", FileChangeKind::Create), file(2));
    model.file_tree_mut().expand_dir(&path("/dir"));
    assert!(model.file_tree().is_expanded(&path("/dir")));
    assert_eq!(model.file_tree_mut().get(&path("/a")).unwrap().size, 1);
    model.handle_watcher_event(change("/c", FileChangeKind::Create), file(3));
    assert_eq!(paths_in(&model), paths(&["/c", "/a"]));
    model.handle_watcher_event(change("/dir", FileChangeKind::Remove), absent());
    assert!(!model.file_tree().is_expanded(&path("/dir")));
    model.file_tree_mut().expand_dir(&path("/dir"));
    model.file_tree_mut().collapse_dir(&path("/dir"));
    assert!(!model.file_tree().is_expanded(&path("/dir")));
}

#[test]
fn a_builder_has_defaults() {
    let model = RepositoryMetadataModelBuilder::new(path("/repo")).build();
    assert_eq!(model.root_path(), &path("/repo"));
    assert_eq!(model.file_tree().capacity(), 100_000);
    assert_eq!(model.buffer_size(), 256);

    let model =
        RepositoryMetadataModelBuilder::new(path("/repo")).max_entries(7).buffer_size(3).build();
    assert_eq!(model.root_path(), &path("/repo"));
    assert_eq!(model.file_tree().capacity(), 7);
    assert_eq!(model.buffer_size(), 3);
}

#[test]
fn a_single_event_is_no_batch() {
    for kind in [
        FileChangeKind::Create,
        FileChangeKind::Modify,
        FileChangeKind::Remove,
        FileChangeKind::Rename,
    ] {
        let mut model = model(10);
        let updates = model.handle_watcher_event(change("/test/a", kind), file(3));
        assert_eq!(shown(&updates), vec![(kind, paths(&["/test/a"]), false)]);
        assert_eq!(
            model.file_tree().contains(&path("/test/a")),
            kind != FileChangeKind::Remove
        );
    }
}

#[test]
fn no_events_change_nothing() {
    let mut model = model(10);
    model.handle_watcher_event(change("/test/a", FileChangeKind::Create), file(3));
    let updates = model.handle_watcher_events(vec![], &vec![]);
    assert!(updates.is_empty());
    assert_eq!(paths_in(&model), paths(&["/test/a"]));
    assert_eq!(model.file_tree().stats().total_adds, 1);
}

#[test]
fn events_are_grouped_by_kind() {
    let mut model = model(10);
    let events = vec![
        change("/r", FileChangeKind::Rename),
        change("/a", FileChangeKind::Create),
        change("/m", FileChangeKind::Modify),
        change("/gone", FileChangeKind::Remove),
        change("/b", FileChangeKind::Create),
        change("/a", FileChangeKind::Modify),
    ];
    let disk = vec![file(1), file(2), file(3), absent(), file(4), file(5)];
    let updates = model.handle_watcher_events(events, &disk);
    assert_eq!(
        shown(&updates),
        vec![
            (FileChangeKind::Create, paths(&["/a", "/b"]), true),
            (FileChangeKind::Modify, paths(&["/m", "/a"]), true),
            (FileChangeKind::Remove, paths(&["/gone"]), true),
            (FileChangeKind::Rename, paths(&["/r"]), true),
        ]
    );
    let total: usize = updates.iter().map(|update| update.paths.len()).sum();
    assert_eq!(total, 6);

    assert_eq!(paths_in(&model), paths(&["/r", "/a", "/m", "/b"]));
    assert_eq!(model.file_tree().peek(&path("/a")).unwrap().size, 5);
    assert_eq!(model.file_tree().peek(&path("/b")).unwrap().size, 4);
    assert_eq!(model.file_tree().peek(&path("/r")).unwrap().size, 1);
    assert_eq!(model.file_tree().stats().total_adds, 4);
    assert_eq!(model.file_tree().stats().total_refreshes, 1);
    assert_eq!(model.file_tree().stats().total_removes, 0);
}

#[test]
fn removed_files_do_not_stay_visible() {
    let mut model = model(10);
    model.handle_watcher_events(
        vec![
            change("/d", FileChangeKind::Create),
            change("/d/a", FileChangeKind::Create),
            change("/d/b", FileChangeKind::Create),
        ],
        &vec![file(0), file(1), file(2)],
    );
    let updates = model.handle_watcher_events(
        vec![
            change("/d", FileChangeKind::Remove),
            change("/d/c", FileChangeKind::Create),
            change("/d/b", FileChangeKind::Rename),
        ],
        &vec![absent(), file(3), file(4)],
    );
    assert_eq!(updates.len(), 3);
    assert_eq!(paths_in(&model), paths(&["/d/b"]));
    assert_eq!(model.file_tree().peek(&path("/d/b")).unwrap().size, 4);
}

#[test]
fn a_batch_leaves_a_tree_within_its_bound() {
    let mut model = model(3);
    let events: Vec<FileChangeEvent> =
        (0..8).map(|i| change(&format!("/file{}", i), FileChangeKind::Create)).collect();
    let disk: Vec<DiskState> = (0..8).map(|i| file(i)).collect();
    let updates = model.handle_watcher_events(events, &disk);
    assert_eq!(updates[0].paths.len(), 8);
    assert_eq!(paths_in(&model), paths(&["/file7", "/file6", "/file5"]));
}

#[test]
fn a_refresh_rebuilds_the_tree() {
    let mut model = model(10);
    model.handle_watcher_event(change("/test/old", FileChangeKind::Create), file(1));
    let update = model.refresh(paths(&["/test/a", "/test/b"]), &vec![file(2), file(3)]);
    assert_eq!(
        shown(&[update]),
        vec![(FileChangeKind::Create, paths(&["/test/a", "/test/b"]), true)]
    );
    assert_eq!(paths_in(&model), paths(&["/test/b", "/test/a"]));
    assert_eq!(model.file_tree().peek(&path("/test/a")).unwrap().size, 2);
    assert_eq!(model.file_tree().stats().total_adds, 3);
    assert_eq!(model.file_tree().stats().total_removes, 0);

    let update = model.refresh(vec![], &vec![]);
    assert!(update.is_batch);
    assert!(update.paths.is_empty());
    assert!(model.file_tree().is_empty());
}

#[test]
fn an_update_can_be_copied() {
    let update = FileTreeUpdate {
        paths: paths(&["/a", "/b"]),
        kind: FileChangeKind::Rename,
        is_batch: true,
    };
    assert_eq!(shown(&[update.clone()]), shown(&[update]));
}

#[test]
fn hidden_and_common_build_directories_are_ignored() {
    for text in [
        "/p/.git",
        "/p/.hidden",
        "/p/node_modules",
        "/p/target",
        "/p/__pycache__",
        "target",
        "/p/target/",
        "/p/...",
    ] {
        assert!(ignores(&path(text)), "{}", text);
    }
    for text in [
        "/p/src",
        "/p/targets",
        "/p/node_module",
        "/p/Target",
        "/p/a.b",
        "/.git/config",
        "/",
        "",
        "/p/..",
        ".",
    ] {
        assert!(!ignores(&path(text)), "{}", text);
    }
}

#[test]
fn names_that_are_not_text_are_not_ignored() {
    assert!(!ignores(&FilePath::from_unix(&[b'.', 255])));
    assert!(ignores(&FilePath::from_unix(&[b'.', 0xC3, 0xA9])));
    assert!(!ignores(&FilePath::from_unix(&[b'.', 0xC3])));
}

fn entry(text: &str, is_dir: bool) -> ListedEntry {
    ListedEntry { path: path(text), is_dir }
}

#[test]
fn a_scan_descends_into_what_it_keeps() {
    let mut scan = DirectoryScan::new(path("/p"));
    assert_eq!(scan.next_directory(), Some(path("/p")));
    scan.add_listing(
        path("/p"),
        vec![
            entry("/p/a", true),
            entry("/p/.git", true),
            entry("/p/file", false),
            entry("/p/b", true),
            entry("/p/target", false),
        ],
        None,
    );
    assert_eq!(scan.next_directory(), Some(path("/p/b")));
    scan.add_listing(
        path("/p/b"),
        vec![entry("/p/b/c", true), entry("/p/b/.env", false)],
        None,
    );
    assert_eq!(scan.next_directory(), Some(path("/p/b/c")));
    // A directory that cannot be read has no entries
    scan.add_listing(path("/p/b/c"), vec![], None);
    assert_eq!(scan.next_directory(), Some(path("/p/a")));
    scan.add_listing(path("/p/a"), vec![entry("/p/a/x", false)], None);
    assert_eq!(scan.next_directory(), None);
    assert_eq!(scan.next_directory(), None);
    assert_eq!(
        scan.into_paths(),
        paths(&["/p/a", "/p/file", "/p/b", "/p/b/c", "/p/a/x"])
    );
}

#[test]
fn a_scan_respects_gitignore_patterns() {
    let mut scan = DirectoryScan::new(path("/root"));
    assert_eq!(scan.next_directory(), Some(path("/root")));
    scan.add_listing(
        path("/root"),
        vec![
            entry("/root/.gitignore", false),
            entry("/root/a.log", false),
            entry("/root/a.rs", false),
        ],
        Some(b"*.log".to_vec()),
    );
    assert_eq!(scan.next_directory(), None);
    assert_eq!(scan.into_paths(), paths(&["/root/a.rs"]));
}

#[test]
fn ignore_files_hold_for_what_is_below_their_directories() {
    let mut scan = DirectoryScan::new(path("/r"));
    assert_eq!(scan.next_directory(), Some(path("/r")));
    scan.add_listing(
        path("/r"),
        vec![
            entry("/r/build", true),
            entry("/r/x", true),
            entry("/r/y", true),
            entry("/r/top.log", false),
        ],
        Some(b"# output\nbuild/\n*.log\n".to_vec()),
    );
    assert_eq!(scan.next_directory(), Some(path("/r/y")));
    scan.add_listing(
        path("/r/y"),
        vec![
            entry("/r/y/keep.log", false),
            entry("/r/y/other.log", false),
            entry("/r/y/a.tmp", false),
        ],
        Some(b"!keep.log\n*.tmp\n".to_vec()),
    );
    assert_eq!(scan.next_directory(), Some(path("/r/x")));
    // The file in /r/y says nothing of what is in /r/x
    scan.add_listing(
        path("/r/x"),
        vec![
            entry("/r/x/keep.log", false),
            entry("/r/x/a.tmp", false),
            entry("/r/x/build", false),
        ],
        None,
    );
    assert_eq!(scan.next_directory(), None);
    assert_eq!(
        scan.into_paths(),
        paths(&["/r/x", "/r/y", "/r/y/keep.log", "/r/x/a.tmp", "/r/x/build"])
    );
}

#[test]
fn only_the_order_within_a_kind_matters() {
    let one = vec![
        change("/a", FileChangeKind::Create),
        change("/m", FileChangeKind::Modify),
        change("/b", FileChangeKind::Create),
        change("/a", FileChangeKind::Remove),
    ];
    let two = vec![
        change("/a", FileChangeKind::Remove),
        change("/a", FileChangeKind::Create),
        change("/b", FileChangeKind::Create),
        change("/m", FileChangeKind::Modify),
    ];
    let disk = |events: &Vec<FileChangeEvent>| -> Vec<DiskState> {
        events
            .iter()
            .map(|event| if event.path == path("/m") { file(3) } else { file(1) })
            .collect()
    };
    let mut first = model(10);
    let mut second = model(10);
    let one_disk = disk(&one);
    let two_disk = disk(&two);
    let first_updates = first.handle_watcher_events(one, &one_disk);
    let second_updates = second.handle_watcher_events(two, &two_disk);
    assert_eq!(shown(&first_updates), shown(&second_updates));
    assert_eq!(paths_in(&first), paths_in(&second));
    assert_eq!(paths_in(&first), paths(&["/m", "/b"]));
    assert_eq!(first.file_tree().stats(), second.file_tree().stats());
}
