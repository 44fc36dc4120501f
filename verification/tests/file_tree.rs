//! The file tree.

use std::time::{Duration, SystemTime};
use warp_file_watcher::path::FilePath;
use warp_file_watcher::repo_metadata::{
    DiskState, EventKind, FileEntry, FileMetadata, FileTreeEntryState, FileTreeStats, ModifyKind,
    WatchEvent,
};
use warp_file_watcher::text::append_decimal;

fn path(text: &str) -> FilePath {
    FilePath::from_unix(text.as_bytes())
}

fn file(len: u64) -> Option<FileMetadata> {
    Some(FileMetadata { is_dir: false, len, modified: None })
}

fn dir() -> Option<FileMetadata> {
    Some(FileMetadata { is_dir: true, len: 4096, modified: None })
}

fn present(metadata: Option<FileMetadata>) -> DiskState {
    DiskState { exists: true, metadata }
}

fn absent() -> DiskState {
    DiskState { exists: false, metadata: None }
}

fn paths_in(tree: &FileTreeEntryState) -> Vec<FilePath> {
    tree.iter().into_iter().map(|(path, _)| path.clone()).collect()
}

#[test]
fn test_add_and_get_entry() {
    let mut tree = FileTreeEntryState::new(100);
    let file_path = path("/tmp/watched/test.txt");

    tree.add_entry(&file_path, file(5));

    assert!(tree.contains(&file_path));
    assert_eq!(tree.len(), 1);
}

#[test]
fn test_remove_entry() {
    let mut tree = FileTreeEntryState::new(100);
    let file_path = path("/tmp/watched/test.txt");

    tree.add_entry(&file_path, file(5));
    assert!(tree.contains(&file_path));

    tree.remove_entry(&file_path);
    assert!(!tree.contains(&file_path));
}

#[test]
fn test_lru_eviction() {
    let mut tree = FileTreeEntryState::new(3);

    // Add 4 entries to a tree with capacity 3
    for i in 0..4 {
        let fake = path(&format!("/fake/path{}", i));
        tree.put(FileEntry::placeholder(&fake, false));
    }

    // Should have evicted one entry
    assert_eq!(tree.len(), 3);
}

#[test]
fn test_expand_collapse_dir() {
    let mut tree = FileTreeEntryState::new(100);
    let dir_path = path("/test/dir");

    assert!(!tree.is_expanded(&dir_path));

    tree.expand_dir(&dir_path);
    assert!(tree.is_expanded(&dir_path));

    tree.collapse_dir(&dir_path);
    assert!(!tree.is_expanded(&dir_path));
}

#[test]
fn test_remove_dir_removes_children() {
    let mut tree = FileTreeEntryState::new(100);
    let parent = path("/test/parent");
    let child1 = path("/test/parent/child1.txt");
    let child2 = path("/test/parent/child2.txt");

    // Add entries using placeholder
    tree.put(FileEntry::placeholder(&parent, true));
    tree.put(FileEntry::placeholder(&child1, false));
    tree.put(FileEntry::placeholder(&child2, false));

    assert_eq!(tree.len(), 3);

    tree.remove_entry(&parent);

    // All entries should be removed
    assert_eq!(tree.len(), 0);
}

#[test]
fn an_entry_shows_the_metadata() {
    let modified = SystemTime::UNIX_EPOCH + Duration::from_secs(7);
    let entry = FileEntry::from_path(
        &path("/a"),
        Some(FileMetadata { is_dir: false, len: 12, modified: Some(modified) }),
    );
    assert_eq!(entry.path, path("/a"));
    assert!(!entry.is_dir);
    assert_eq!(entry.size, 12);
    assert_eq!(entry.modified, Some(modified));
    assert!(!entry.dirty);
    assert_eq!(entry.clone().size, 12);
}

#[test]
fn a_directory_has_no_size() {
    let entry = FileEntry::from_path(&path("/a"), dir());
    assert!(entry.is_dir);
    assert_eq!(entry.size, 0);

    let mut entry = FileEntry::from_path(&path("/a"), file(9));
    entry.refresh_metadata(dir());
    assert!(entry.is_dir);
    assert_eq!(entry.size, 0);
}

#[test]
fn an_entry_without_metadata_is_an_empty_file() {
    let entry = FileEntry::from_path(&path("/a"), None);
    assert!(!entry.is_dir);
    assert_eq!(entry.size, 0);
    assert_eq!(entry.modified, None);
    assert!(!entry.dirty);
}

#[test]
fn a_placeholder_is_dirty() {
    let entry = FileEntry::placeholder(&path("/a"), true);
    assert!(entry.is_dir);
    assert_eq!(entry.size, 0);
    assert_eq!(entry.modified, None);
    assert!(entry.dirty);
}

#[test]
fn a_failed_refresh_marks_an_entry_as_dirty() {
    let mut entry = FileEntry::from_path(&path("/a"), file(9));
    entry.refresh_metadata(None);
    assert!(entry.dirty);
    assert_eq!(entry.size, 9);
    entry.refresh_metadata(file(10));
    assert!(!entry.dirty);
    assert_eq!(entry.size, 10);
}

#[test]
fn a_new_tree_is_empty() {
    let tree = FileTreeEntryState::new(100);
    assert!(tree.is_empty());
    assert_eq!(tree.len(), 0);
    assert_eq!(tree.capacity(), 100);
    assert_eq!(tree.stats(), &FileTreeStats::default());
    assert!(tree.expanded_dirs().is_empty());
    assert_eq!(tree.iter().len(), 0);
}

#[test]
fn an_added_entry_is_the_most_recently_used() {
    let mut tree = FileTreeEntryState::new(100);
    tree.add_entry(&path("/a"), file(1));
    tree.add_entry(&path("/b"), file(2));
    assert_eq!(paths_in(&tree), vec![path("/b"), path("/a")]);
    assert_eq!(tree.peek(&path("/a")).unwrap().size, 1);
    assert_eq!(tree.peek(&path("/b")).unwrap().size, 2);
    assert!(tree.peek(&path("/c")).is_none());

    // Adding it again replaces it
    tree.add_entry(&path("/a"), file(3));
    assert_eq!(paths_in(&tree), vec![path("/a"), path("/b")]);
    assert_eq!(tree.peek(&path("/a")).unwrap().size, 3);
    assert_eq!(tree.stats().total_adds, 3);
}

#[test]
fn the_least_recently_used_entry_is_evicted() {
    let mut tree = FileTreeEntryState::new(3);
    tree.add_entry(&path("/a"), file(1));
    tree.add_entry(&path("/b"), file(2));
    tree.add_entry(&path("/c"), file(3));
    assert_eq!(tree.get(&path("/a")).unwrap().size, 1);
    tree.add_entry(&path("/d"), file(4));
    assert_eq!(paths_in(&tree), vec![path("/d"), path("/a"), path("/c")]);
    assert!(!tree.contains(&path("/b")));
    assert_eq!(tree.stats().total_evictions, 1);
    assert_eq!(tree.stats().total_adds, 4);
}

#[test]
fn only_evicted_entries_are_counted_as_evicted() {
    let mut tree = FileTreeEntryState::new(2);
    tree.add_entry(&path("/a"), file(1));
    tree.add_entry(&path("/b"), file(2));
    tree.add_entry(&path("/a"), file(3));
    tree.add_entry(&path("/b"), file(4));
    assert_eq!(tree.stats().total_evictions, 0);
    assert_eq!(tree.len(), 2);
    tree.add_entry(&path("/c"), file(5));
    assert_eq!(tree.stats().total_evictions, 1);
    assert_eq!(tree.len(), 2);
}

#[test]
fn peeking_keeps_the_order_of_use() {
    let mut tree = FileTreeEntryState::new(2);
    tree.add_entry(&path("/a"), file(1));
    tree.add_entry(&path("/b"), file(2));
    assert_eq!(tree.peek(&path("/a")).unwrap().size, 1);
    assert_eq!(paths_in(&tree), vec![path("/b"), path("/a")]);
    assert_eq!(tree.get(&path("/a")).unwrap().size, 1);
    assert_eq!(paths_in(&tree), vec![path("/a"), path("/b")]);
    assert!(tree.get(&path("/c")).is_none());
    assert_eq!(paths_in(&tree), vec![path("/a"), path("/b")]);
    assert_eq!(tree.stats().total_refreshes, 0);
}

#[test]
fn an_update_refreshes_or_adds() {
    let mut tree = FileTreeEntryState::new(2);
    tree.add_entry(&path("/a"), file(1));
    tree.add_entry(&path("/b"), file(2));
    tree.update_entry(&path("/a"), file(7));
    assert_eq!(tree.peek(&path("/a")).unwrap().size, 7);
    assert_eq!(tree.peek(&path("/b")).unwrap().size, 2);
    assert_eq!(paths_in(&tree), vec![path("/a"), path("/b")]);
    assert_eq!(tree.stats().total_refreshes, 1);
    assert_eq!(tree.stats().total_adds, 2);
    assert_eq!(tree.stats().total_evictions, 0);

    tree.update_entry(&path("/a"), None);
    assert!(tree.peek(&path("/a")).unwrap().dirty);
    assert_eq!(tree.peek(&path("/a")).unwrap().size, 7);

    tree.update_entry(&path("/c"), file(3));
    assert!(tree.contains(&path("/c")));
    assert!(!tree.contains(&path("/b")));
    assert_eq!(tree.stats().total_adds, 3);
    assert_eq!(tree.stats().total_evictions, 1);
}

#[test]
fn a_removal_takes_the_subtree_and_nothing_else() {
    let mut tree = FileTreeEntryState::new(100);
    for text in ["/p", "/p/a", "/p/a/b", "/pa", "/q/p", "/q"] {
        tree.add_entry(&path(text), file(1));
        tree.expand_dir(&path(text));
    }
    tree.expand_dir(&path("/p/unlisted"));
    tree.remove_entry(&path("/p"));
    assert_eq!(paths_in(&tree), vec![path("/q"), path("/q/p"), path("/pa")]);
    assert_eq!(tree.stats().total_removes, 3);
    assert!(!tree.is_expanded(&path("/p")));
    assert!(!tree.is_expanded(&path("/p/a")));
    assert!(!tree.is_expanded(&path("/p/a/b")));
    assert!(tree.is_expanded(&path("/p/unlisted")));
    assert!(tree.is_expanded(&path("/pa")));
    assert!(tree.is_expanded(&path("/q/p")));

    // Removing it again changes nothing
    tree.remove_entry(&path("/p"));
    assert_eq!(tree.len(), 3);
    assert_eq!(tree.stats().total_removes, 3);
    assert_eq!(tree.expanded_dirs().len(), 4);
}

#[test]
fn removing_a_missing_directory_removes_what_is_below() {
    let mut tree = FileTreeEntryState::new(100);
    tree.add_entry(&path("/p/a"), file(1));
    tree.remove_entry(&path("/p"));
    assert!(tree.is_empty());
    assert_eq!(tree.stats().total_removes, 1);
}

#[test]
fn expanding_a_directory_affects_no_other() {
    let mut tree = FileTreeEntryState::new(100);
    tree.expand_dir(&path("/a"));
    tree.expand_dir(&path("/b"));
    tree.expand_dir(&path("/a"));
    assert_eq!(tree.expanded_dirs().len(), 2);
    tree.collapse_dir(&path("/a"));
    assert!(!tree.is_expanded(&path("/a")));
    assert!(tree.is_expanded(&path("/b")));
    tree.collapse_dir(&path("/c"));
    assert_eq!(tree.expanded_dirs().len(), 1);
}

#[test]
fn children_are_the_direct_ones() {
    let mut tree = FileTreeEntryState::new(100);
    for text in ["/p", "/p/a", "/p/a/b", "/p/c", "/q"] {
        tree.add_entry(&path(text), file(1));
    }
    let children: Vec<FilePath> =
        tree.children(&path("/p")).into_iter().map(|entry| entry.path.clone()).collect();
    assert_eq!(children, vec![path("/p/c"), path("/p/a")]);
    assert_eq!(tree.children(&path("/q")).len(), 0);
    assert_eq!(tree.children(&path("/")).len(), 2);
}

#[test]
fn a_cleared_tree_keeps_its_counters() {
    let mut tree = FileTreeEntryState::new(100);
    tree.add_entry(&path("/a"), file(1));
    tree.expand_dir(&path("/a"));
    tree.clear();
    assert!(tree.is_empty());
    assert!(!tree.contains(&path("/a")));
    assert!(!tree.is_expanded(&path("/a")));
    assert_eq!(tree.stats().total_adds, 1);
    assert_eq!(tree.stats().total_removes, 0);
}

#[test]
fn events_are_applied_by_their_kind() {
    let mut tree = FileTreeEntryState::new(100);
    let event = |kind: EventKind, texts: &[&str]| WatchEvent {
        kind,
        paths: texts.iter().map(|text| path(text)).collect(),
    };
    tree.apply_event(
        &event(EventKind::Create, &["/a", "/b"]),
        &vec![present(file(1)), present(file(2))],
    );
    assert_eq!(paths_in(&tree), vec![path("/b"), path("/a")]);

    tree.apply_event(
        &event(EventKind::Modify(ModifyKind::Other), &["/a"]),
        &vec![present(file(3))],
    );
    assert_eq!(tree.peek(&path("/a")).unwrap().size, 3);
    assert_eq!(tree.stats().total_refreshes, 1);

    tree.apply_event(&event(EventKind::Modify(ModifyKind::Name), &["/c"]), &vec![absent()]);
    assert_eq!(tree.peek(&path("/c")).unwrap().size, 0);
    assert_eq!(tree.stats().total_adds, 3);

    tree.apply_event(&event(EventKind::Access, &["/d"]), &vec![present(file(1))]);
    assert!(!tree.contains(&path("/d")));

    tree.apply_event(
        &event(EventKind::Any, &["/d", "/a"]),
        &vec![present(file(8)), absent()],
    );
    assert_eq!(tree.peek(&path("/d")).unwrap().size, 8);
    assert!(!tree.contains(&path("/a")));

    tree.apply_event(&event(EventKind::Other, &["/d"]), &vec![absent()]);
    assert!(!tree.contains(&path("/d")));

    tree.apply_event(&event(EventKind::Remove, &["/b", "/c"]), &vec![absent(), absent()]);
    assert!(tree.is_empty());
    assert_eq!(tree.stats().total_removes, 4);
}

#[test]
fn an_event_leaves_a_tree_within_its_bound() {
    let mut tree = FileTreeEntryState::new(3);
    let event = WatchEvent {
        kind: EventKind::Create,
        paths: (0..10).map(|i| path(&format!("/file{}", i))).collect(),
    };
    let disk: Vec<DiskState> = (0..10).map(|i| present(file(i))).collect();
    tree.apply_event(&event, &disk);
    assert_eq!(tree.len(), 3);
    assert_eq!(paths_in(&tree), vec![path("/file9"), path("/file8"), path("/file7")]);
    assert_eq!(tree.stats().total_evictions, 7);
    assert_eq!(tree.stats().total_adds, 10);
}

#[test]
fn a_tree_for_no_entries_has_room_for_one() {
    let mut tree = FileTreeEntryState::new(0);
    assert_eq!(tree.capacity(), 0);
    tree.add_entry(&path("/a"), file(1));
    assert_eq!(tree.len(), 1);
    tree.add_entry(&path("/b"), file(1));
    assert_eq!(paths_in(&tree), vec![path("/b")]);
    assert_eq!(tree.stats().total_evictions, 1);

    // An event evicts it in the end
    let event = WatchEvent { kind: EventKind::Create, paths: vec![path("/c")] };
    tree.apply_event(&event, &vec![present(file(1))]);
    assert!(tree.is_empty());
    assert_eq!(tree.stats().total_evictions, 3);
}

#[test]
fn an_event_gives_a_directory_no_size() {
    let mut tree = FileTreeEntryState::new(10);
    tree.add_entry(&path("/a"), file(5));
    let event = WatchEvent {
        kind: EventKind::Modify(ModifyKind::Other),
        paths: vec![path("/a"), path("/b")],
    };
    tree.apply_event(&event, &vec![present(dir()), present(dir())]);
    for (_, entry) in tree.iter() {
        assert!(entry.is_dir);
        assert_eq!(entry.size, 0);
    }
}

#[test]
fn the_summary_tells_the_state() {
    let mut tree = FileTreeEntryState::new(100_000);
    for i in 0..12 {
        tree.add_entry(&path(&format!("/file{}", i)), file(i));
    }
    tree.update_entry(&path("/file3"), file(4));
    tree.remove_entry(&path("/file5"));
    tree.expand_dir(&path("/dir"));
    assert_eq!(
        tree.debug_summary(),
        "FileTreeEntryState: 11 entries (max: 100000), 1 expanded dirs, stats: FileTreeStats { \
         total_adds: 12, total_removes: 1, total_evictions: 0, total_refreshes: 1 }"
    );
    let expected = format!(
        "FileTreeEntryState: {} entries (max: {}), {} expanded dirs, stats: {:?}",
        tree.len(),
        tree.capacity(),
        tree.expanded_dirs().len(),
        tree.stats()
    );
    assert_eq!(tree.debug_summary(), expected);
}

#[test]
fn numbers_are_written_in_decimal() {
    for number in [0, 7, 10, 99, 100, 1234567890, u64::MAX] {
        let mut text = String::from("n=");
        append_decimal(&mut text, number);
        assert_eq!(text, format!("n={}", number));
    }
}
