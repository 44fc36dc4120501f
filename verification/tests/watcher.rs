//! Coalescing, debouncing and falling back to polling.

use warp_file_watcher::path::FilePath;
use warp_file_watcher::repo_metadata::{
    DebouncedFileWatcher, EventKind, FileChangeEvent, FileChangeKind, HybridFileWatcher,
    ModifyKind, PolledEvent, UnwatchStep, WatchEvent, WatchStep, WatcherError,
};

const MILLI: u64 = 1_000_000;

fn path(text: &str) -> FilePath {
    FilePath::from_unix(text.as_bytes())
}

fn change(text: &str, kind: FileChangeKind, timestamp: u64) -> FileChangeEvent {
    FileChangeEvent { path: path(text), kind, timestamp }
}

fn polled(kind: EventKind, texts: &[&str], timestamp: u64) -> PolledEvent {
    PolledEvent {
        outcome: Ok(WatchEvent { kind, paths: texts.iter().map(|text| path(text)).collect() }),
        timestamps: texts.iter().map(|_| timestamp).collect(),
    }
}

fn failed() -> PolledEvent {
    PolledEvent { outcome: Err(failure("lost")), timestamps: vec![] }
}

fn failure(text: &str) -> notify::Error {
    notify::Error::generic(text)
}

fn debounced(debounce_ms: u64, now: u64) -> DebouncedFileWatcher {
    match DebouncedFileWatcher::new(debounce_ms, Ok(()), now) {
        Ok(watcher) => watcher,
        Err(_) => panic!("no watcher"),
    }
}

fn hybrid(native: Result<(), notify::Error>) -> HybridFileWatcher {
    match HybridFileWatcher::new(200, native, Ok(()), 0) {
        Ok(watcher) => watcher,
        Err(_) => panic!("no watcher"),
    }
}

#[test]
fn test_coalesce_delete_then_create() {
    let events = vec![
        change("/test/file.txt", FileChangeKind::Remove, 1),
        change("/test/file.txt", FileChangeKind::Create, 2),
    ];

    let coalesced = DebouncedFileWatcher::coalesce_events(events);
    assert_eq!(coalesced.len(), 1);
    assert_eq!(coalesced[0].kind, FileChangeKind::Modify);
}

#[test]
fn test_coalesce_multiple_modifies() {
    let events = vec![
        change("/test/file.txt", FileChangeKind::Modify, 1),
        change("/test/file.txt", FileChangeKind::Modify, 2),
        change("/test/file.txt", FileChangeKind::Modify, 3),
    ];

    let coalesced = DebouncedFileWatcher::coalesce_events(events);
    assert_eq!(coalesced.len(), 1);
    assert_eq!(coalesced[0].kind, FileChangeKind::Modify);
}

#[test]
fn test_coalesce_different_paths() {
    let events = vec![
        change("/test/file1.txt", FileChangeKind::Create, 1),
        change("/test/file2.txt", FileChangeKind::Remove, 2),
    ];

    let coalesced = DebouncedFileWatcher::coalesce_events(events);
    assert_eq!(coalesced.len(), 2);
}

#[test]
fn a_replaced_file_bears_the_time_of_its_creation() {
    for created in [0, 5, 9] {
        let events = vec![
            change("/a", FileChangeKind::Remove, 5),
            change("/a", FileChangeKind::Create, created),
        ];
        assert_eq!(
            DebouncedFileWatcher::coalesce_events(events),
            vec![change("/a", FileChangeKind::Modify, created)]
        );
    }
}

#[test]
fn a_file_that_came_and_went_is_removed() {
    for removed in [0, 5, 9] {
        let events = vec![
            change("/a", FileChangeKind::Create, 5),
            change("/a", FileChangeKind::Remove, removed),
        ];
        assert_eq!(
            DebouncedFileWatcher::coalesce_events(events),
            vec![change("/a", FileChangeKind::Remove, removed)]
        );
    }
}

#[test]
fn the_most_recent_event_is_kept_otherwise() {
    let events = vec![
        change("/a", FileChangeKind::Modify, 5),
        change("/a", FileChangeKind::Rename, 6),
        change("/a", FileChangeKind::Modify, 6),
        change("/a", FileChangeKind::Modify, 4),
    ];
    assert_eq!(
        DebouncedFileWatcher::coalesce_events(events),
        vec![change("/a", FileChangeKind::Rename, 6)]
    );
}

#[test]
fn coalesced_events_come_in_the_order_of_their_paths() {
    let events = vec![
        change("/b", FileChangeKind::Create, 1),
        change("/a", FileChangeKind::Create, 2),
        change("/b", FileChangeKind::Modify, 3),
        change("/c", FileChangeKind::Remove, 4),
        change("/a", FileChangeKind::Remove, 5),
        change("/c", FileChangeKind::Create, 6),
    ];
    let coalesced = DebouncedFileWatcher::coalesce_events(events);
    assert_eq!(
        coalesced,
        vec![
            change("/b", FileChangeKind::Modify, 3),
            change("/a", FileChangeKind::Remove, 5),
            change("/c", FileChangeKind::Modify, 6),
        ]
    );

    // Once more changes nothing
    assert_eq!(DebouncedFileWatcher::coalesce_events(coalesced.clone()), coalesced);
    assert_eq!(DebouncedFileWatcher::coalesce_events(vec![]), vec![]);
}

#[test]
fn kinds_of_events_are_simplified() {
    assert_eq!(FileChangeKind::from(EventKind::Create), FileChangeKind::Create);
    assert_eq!(FileChangeKind::from(EventKind::Remove), FileChangeKind::Remove);
    assert_eq!(
        FileChangeKind::from(EventKind::Modify(ModifyKind::Name)),
        FileChangeKind::Rename
    );
    assert_eq!(
        FileChangeKind::from(EventKind::Modify(ModifyKind::Other)),
        FileChangeKind::Modify
    );
    assert_eq!(FileChangeKind::from(EventKind::Any), FileChangeKind::Modify);
    assert_eq!(FileChangeKind::from(EventKind::Access), FileChangeKind::Modify);
    assert_eq!(FileChangeKind::from(EventKind::Other), FileChangeKind::Modify);
}

#[test]
fn events_wait_for_the_end_of_the_debounce_period() {
    let start = 1000;
    let mut watcher = debounced(200, start);
    assert_eq!(watcher.flush_if_ready(start + 500 * MILLI), vec![]);

    watcher.poll_events(&vec![polled(EventKind::Create, &["/a", "/b"], start + 1)]);
    assert_eq!(watcher.flush_if_ready(start), vec![]);
    assert_eq!(watcher.flush_if_ready(start + 200 * MILLI - 1), vec![]);
    assert_eq!(
        watcher.flush_if_ready(start + 200 * MILLI),
        vec![
            change("/a", FileChangeKind::Create, start + 1),
            change("/b", FileChangeKind::Create, start + 1),
        ]
    );
    assert_eq!(watcher.flush_if_ready(start + 900 * MILLI), vec![]);

    // The next period starts with the flush
    watcher.poll_events(&vec![polled(EventKind::Remove, &["/a"], start + 201 * MILLI)]);
    assert_eq!(watcher.flush_if_ready(start + 399 * MILLI), vec![]);
    assert_eq!(watcher.flush_if_ready(start + 400 * MILLI).len(), 1);
}

#[test]
fn a_clock_that_goes_back_does_not_end_the_period() {
    let mut watcher = debounced(200, 500 * MILLI);
    watcher.poll_events(&vec![polled(EventKind::Create, &["/a"], 500 * MILLI)]);
    assert_eq!(watcher.flush_if_ready(0), vec![]);
    assert_eq!(watcher.flush_if_ready(700 * MILLI).len(), 1);
}

#[test]
fn the_longest_debounce_period_never_ends() {
    let mut watcher = debounced(u64::MAX, 0);
    watcher.poll_events(&vec![polled(EventKind::Create, &["/a"], 1)]);
    assert_eq!(watcher.flush_if_ready(u64::MAX), vec![]);
}

#[test]
fn without_a_period_events_are_handed_out_at_once() {
    let mut watcher = debounced(0, 7);
    watcher.poll_events(&vec![polled(EventKind::Create, &["/a"], 8)]);
    assert_eq!(watcher.flush_if_ready(7).len(), 1);
}

#[test]
fn a_file_that_is_replaced_while_it_waits_is_modified() {
    let mut watcher = debounced(100, 0);
    watcher.poll_events(&vec![
        polled(EventKind::Modify(ModifyKind::Other), &["/a"], 1),
        polled(EventKind::Remove, &["/a"], 2),
    ]);
    watcher.poll_events(&vec![polled(EventKind::Create, &["/a"], 3)]);
    assert_eq!(
        watcher.flush_if_ready(100 * MILLI),
        vec![change("/a", FileChangeKind::Modify, 3)]
    );
}

#[test]
fn an_arriving_event_supersedes_a_waiting_one() {
    let mut watcher = debounced(100, 0);
    watcher.poll_events(&vec![
        polled(EventKind::Create, &["/a"], 5),
        polled(EventKind::Modify(ModifyKind::Other), &["/a"], 5),
        failed(),
        polled(EventKind::Modify(ModifyKind::Name), &["/b"], 6),
        polled(EventKind::Remove, &["/a"], 5),
    ]);
    assert_eq!(
        watcher.flush_if_ready(100 * MILLI),
        vec![
            change("/a", FileChangeKind::Remove, 5),
            change("/b", FileChangeKind::Rename, 6),
        ]
    );
}

#[test]
fn polling_in_steps_makes_no_difference() {
    let all = || {
        vec![
            polled(EventKind::Remove, &["/a", "/b"], 1),
            polled(EventKind::Create, &["/a"], 2),
            polled(EventKind::Modify(ModifyKind::Other), &["/b", "/c"], 3),
        ]
    };
    let mut at_once = debounced(100, 0);
    at_once.poll_events(&all());
    let mut in_steps = debounced(100, 0);
    for event in all() {
        in_steps.poll_events(&vec![event]);
    }
    let flushed = at_once.flush_if_ready(100 * MILLI);
    assert_eq!(flushed, in_steps.flush_if_ready(100 * MILLI));
    assert_eq!(
        flushed,
        vec![
            change("/a", FileChangeKind::Modify, 2),
            change("/b", FileChangeKind::Modify, 3),
            change("/c", FileChangeKind::Modify, 3),
        ]
    );

    // They are what coalescing makes of all changes
    let changes = vec![
        change("/a", FileChangeKind::Remove, 1),
        change("/b", FileChangeKind::Remove, 1),
        change("/a", FileChangeKind::Create, 2),
        change("/b", FileChangeKind::Modify, 3),
        change("/c", FileChangeKind::Modify, 3),
    ];
    assert_eq!(DebouncedFileWatcher::coalesce_events(changes), flushed);
}

#[test]
fn a_watcher_that_cannot_be_made_is_an_error() {
    match DebouncedFileWatcher::new(200, Err(failure("no handles")), 0) {
        Err(WatcherError::WatcherCreation(cause)) => {
            assert_eq!(cause.to_string(), "no handles");
        }
        _ => panic!("an error was expected"),
    }
    match HybridFileWatcher::new(200, Ok(()), Err(failure("no polling")), 0) {
        Err(WatcherError::WatcherCreation(cause)) => {
            assert_eq!(cause.to_string(), "no polling");
        }
        _ => panic!("an error was expected"),
    }
}

#[test]
fn a_path_that_cannot_be_watched_is_an_error() {
    let watcher = debounced(200, 0);
    assert!(watcher.watch(&path("/a"), Ok(())).is_ok());
    assert!(watcher.unwatch(&path("/a"), Ok(())).is_ok());
    for result in [
        watcher.watch(&path("/a"), Err(failure("denied"))),
        watcher.unwatch(&path("/a"), Err(failure("denied"))),
        hybrid(Ok(())).watch_after_polling(&path("/a"), Err(failure("denied"))),
        hybrid(Ok(())).unwatch_after(&path("/a"), Err(failure("denied"))),
    ] {
        match result {
            Err(WatcherError::WatchPath { path: named, source }) => {
                assert_eq!(named, path("/a"));
                assert_eq!(source.to_string(), "denied");
            }
            _ => panic!("an error was expected"),
        }
    }
}

#[test]
fn a_path_is_watched_natively_where_that_works() {
    let mut watcher = hybrid(Ok(()));
    assert_eq!(watcher.watch(), WatchStep::AskNative);
    assert_eq!(watcher.watch_after_native(&path("/a"), &Ok(())), WatchStep::Watching);
    assert!(!watcher.is_using_polling(&path("/a")));
    assert_eq!(watcher.unwatch(&path("/a")), UnwatchStep::AskNative);
    assert!(watcher.unwatch_after(&path("/a"), Ok(())).is_ok());
}

#[test]
fn a_path_falls_back_to_polling_where_native_watching_fails() {
    let mut watcher = hybrid(Ok(()));
    assert_eq!(watcher.watch(), WatchStep::AskNative);
    assert_eq!(
        watcher.watch_after_native(&path("/a"), &Err(failure("no inotify"))),
        WatchStep::AskPolling
    );
    assert!(watcher.is_using_polling(&path("/a")));
    assert!(watcher.watch_after_polling(&path("/a"), Ok(())).is_ok());
    assert!(!watcher.is_using_polling(&path("/b")));

    assert_eq!(watcher.unwatch(&path("/a")), UnwatchStep::AskPolling);
    assert!(!watcher.is_using_polling(&path("/a")));
    assert_eq!(watcher.unwatch(&path("/a")), UnwatchStep::AskNative);
}

#[test]
fn without_a_native_watcher_every_path_is_polled() {
    let mut watcher = hybrid(Err(failure("no inotify")));
    assert_eq!(watcher.unwatch(&path("/a")), UnwatchStep::Nothing);
    assert_eq!(watcher.watch(), WatchStep::AskPolling);
    assert!(!watcher.is_using_polling(&path("/a")));
    assert!(watcher.watch_after_polling(&path("/a"), Ok(())).is_ok());
    assert!(watcher.is_using_polling(&path("/a")));
    assert_eq!(watcher.unwatch(&path("/a")), UnwatchStep::AskPolling);
    assert!(!watcher.is_using_polling(&path("/a")));
}

#[test]
fn a_path_that_polling_refused_is_not_polled() {
    let mut watcher = hybrid(Err(failure("no inotify")));
    assert_eq!(watcher.watch(), WatchStep::AskPolling);
    assert!(watcher.watch_after_polling(&path("/a"), Err(failure("denied"))).is_err());
    assert!(!watcher.is_using_polling(&path("/a")));
    assert_eq!(watcher.unwatch(&path("/a")), UnwatchStep::Nothing);
}

#[test]
fn a_hybrid_watcher_debounces_too() {
    let mut watcher = hybrid(Ok(()));
    watcher.poll_events(&vec![
        polled(EventKind::Remove, &["/a"], 1),
        polled(EventKind::Create, &["/a"], 2),
    ]);
    assert_eq!(watcher.flush_if_ready(199 * MILLI), vec![]);
    assert_eq!(
        watcher.flush_if_ready(200 * MILLI),
        vec![change("/a", FileChangeKind::Modify, 2)]
    );
    assert_eq!(watcher.flush_if_ready(900 * MILLI), vec![]);
}
