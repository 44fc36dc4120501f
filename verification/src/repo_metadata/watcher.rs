//! File watchers with debouncing and hybrid native/polling support.
//!
//! The watchers coalesce rapid filesystem events to prevent UI thrashing and memory spikes. The
//! hybrid watcher also decides which paths fall back to polling (NFS, WSL, etc.).

use crate::path::{FilePath, PathView};
use crate::path_set::{other_than, PathSet};
use crate::repo_metadata::coalesce::{
    change_kind, changes_view, coalesced, coalesced_by, lemma_one_per_path_unchanged,
    lemma_rules_keep_path, lemma_with_event, merging, one_per_path, superseding, ChangeView,
    EventList, FileChangeEvent, FileChangeKind,
};
use crate::repo_metadata::event::WatchEvent;
use vstd::prelude::*;

verus! {

/// The error type of the `notify` crate, carried through unread.
#[verifier::external_type_specification]
#[verifier::external_body]
pub struct ExNotifyError(notify::Error);

/// Errors that can occur in the file watcher system.
#[derive(Debug)]
pub enum WatcherError {
    /// Failed to create watcher.
    WatcherCreation(notify::Error),
    /// Failed to watch a path.
    WatchPath { path: FilePath, source: notify::Error },
    /// Channel send error.
    ChannelSend,
}

impl From<notify::Error> for WatcherError {
    fn from(source: notify::Error) -> (result: Self) {
        WatcherError::WatcherCreation(source)
    }
}

impl vstd::std_specs::convert::FromSpecImpl<notify::Error> for WatcherError {
    open spec fn obeys_from_spec() -> bool {
        true
    }

    open spec fn from_spec(source: notify::Error) -> WatcherError {
        WatcherError::WatcherCreation(source)
    }
}

/// Whether a result reports the outcome of asking to watch, or no longer to watch, a path: an
/// error names the path and carries its cause.
pub open spec fn reports(
    result: Result<(), WatcherError>,
    path: PathView,
    outcome: Result<(), notify::Error>,
) -> bool {
    match outcome {
        Ok(_) => result is Ok,
        Err(cause) => result matches Err(WatcherError::WatchPath { path: named, source })
            && named@ == path && source == cause,
    }
}

fn report(path: &FilePath, outcome: Result<(), notify::Error>) -> (result: Result<
    (),
    WatcherError,
>)
    ensures
        reports(result, path@, outcome),
{
    match outcome {
        Ok(_) => Ok(()),
        Err(source) => Err(WatcherError::WatchPath { path: path.clone(), source }),
    }
}

/// What a watcher reported, with the moment at which each path of an event was noticed.
#[derive(Debug)]
pub struct PolledEvent {
    pub outcome: Result<WatchEvent, notify::Error>,
    /// For each path of the event, in nanoseconds since the watcher's clock started.
    pub timestamps: Vec<u64>,
}

impl PolledEvent {
    /// Every path of the event has its moment.
    pub open spec fn wf(&self) -> bool {
        self.outcome matches Ok(event) ==> event.paths@.len() == self.timestamps@.len()
    }
}

/// The changes that a watcher reported: one for each path of an event, none for an error.
pub open spec fn changes_in(polled: PolledEvent) -> Seq<ChangeView> {
    match polled.outcome {
        Ok(event) => Seq::new(
            event.paths@.len(),
            |i: int|
                ChangeView {
                    path: event.paths@[i]@,
                    kind: change_kind(event.kind),
                    timestamp: polled.timestamps@[i],
                },
        ),
        Err(_) => Seq::empty(),
    }
}

/// The changes that a watcher reported in a row.
pub open spec fn all_changes(received: Seq<PolledEvent>) -> Seq<ChangeView>
    decreases received.len(),
{
    if received.len() == 0 {
        Seq::empty()
    } else {
        all_changes(received.drop_last()) + changes_in(received.last())
    }
}

/// The number of nanoseconds in a millisecond.
pub const NANOS_PER_MILLI: u128 = 1_000_000;

/// Events that wait for the end of the debounce period.
#[verifier::ext_equal]
pub struct BatchModel {
    /// The waiting events, one per path.
    pub pending: Seq<ChangeView>,
    pub debounce_ms: u64,
    /// When events were last flushed, or the watcher was made.
    pub last_flush: u64,
}

impl BatchModel {
    /// No two events wait for the same path.
    pub open spec fn wf(self) -> bool {
        one_per_path(self.pending)
    }

    /// The time since the last flush, in nanoseconds. It is zero where the clock went back.
    pub open spec fn elapsed(self, now: u64) -> int {
        if now >= self.last_flush {
            now - self.last_flush
        } else {
            0
        }
    }

    /// Whether the debounce period is over and there is something to flush.
    pub open spec fn ready(self, now: u64) -> bool {
        self.pending.len() > 0 && self.elapsed(now) >= self.debounce_ms * NANOS_PER_MILLI
    }

    /// The batch after changes arrived.
    pub open spec fn after_changes(self, changes: Seq<ChangeView>) -> BatchModel {
        BatchModel { pending: coalesced_by(superseding(), self.pending + changes), ..self }
    }

    /// The batch after an attempt to flush it.
    pub open spec fn after_flush(self, now: u64) -> BatchModel {
        if self.ready(now) {
            BatchModel { pending: Seq::empty(), last_flush: now, ..self }
        } else {
            self
        }
    }

    /// What an attempt to flush the batch hands out.
    pub open spec fn flushed(self, now: u64) -> Seq<ChangeView> {
        if self.ready(now) {
            self.pending
        } else {
            Seq::empty()
        }
    }
}

/// Events that wait for the end of the debounce period.
pub struct EventBatch {
    pending_events: EventList,
    debounce_ms: u64,
    last_flush: u64,
}

impl View for EventBatch {
    type V = BatchModel;

    closed spec fn view(&self) -> BatchModel {
        BatchModel {
            pending: self.pending_events@,
            debounce_ms: self.debounce_ms,
            last_flush: self.last_flush,
        }
    }
}

impl EventBatch {
    /// The list of waiting events is well-formed.
    pub closed spec fn wf(&self) -> bool {
        self.pending_events.wf()
    }

    /// What a well-formed batch means for its contents.
    pub proof fn lemma_wf(&self)
        requires
            self.wf(),
        ensures
            self@.wf(),
    {
        self.pending_events.lemma_wf();
    }

    fn new(debounce_ms: u64, now: u64) -> (result: Self)
        ensures
            result.wf(),
            result@ == (BatchModel { pending: Seq::empty(), debounce_ms, last_flush: now }),
    {
        EventBatch { pending_events: EventList::new(), debounce_ms, last_flush: now }
    }

    /// Takes in what a watcher reported.
    fn record(&mut self, received: &Vec<PolledEvent>)
        requires
            old(self).wf(),
            forall|i: int| 0 <= i < received@.len() ==> (#[trigger] received@[i]).wf(),
        ensures
            final(self).wf(),
            final(self)@ == old(self)@.after_changes(all_changes(received@)),
    {
        let ghost before = self@;
        let ghost waiting = self.pending_events@;
        proof {
            self.pending_events.lemma_wf();
            lemma_rules_keep_path();
            lemma_one_per_path_unchanged(superseding(), waiting);
            assert(waiting + all_changes(received@.take(0)) =~= waiting);
        }
        let mut i: usize = 0;
        while i < received.len()
            invariant
                i <= received@.len(),
                forall|k: int| 0 <= k < received@.len() ==> (#[trigger] received@[k]).wf(),
                self.pending_events.wf(),
                self.debounce_ms == before.debounce_ms,
                self.last_flush == before.last_flush,
                self.pending_events@ == coalesced_by(
                    superseding(),
                    waiting + all_changes(received@.take(i as int)),
                ),
            decreases received@.len() - i,
        {
            let polled = &received[i];
            let ghost earlier = waiting + all_changes(received@.take(i as int));
            proof {
                assert(received@.take(i + 1).drop_last() =~= received@.take(i as int));
                assert(received@[i as int].wf());
                assert(waiting + (all_changes(received@.take(i as int)) + changes_in(*polled))
                    =~= earlier + changes_in(*polled));
            }
            match &polled.outcome {
                Ok(event) => {
                    let ghost changes = changes_in(*polled);
                    let mut j: usize = 0;
                    assert(earlier + changes.take(0) =~= earlier);
                    while j < event.paths.len()
                        invariant
                            j <= event.paths@.len(),
                            event.paths@.len() == polled.timestamps@.len(),
                            changes == changes_in(*polled),
                            polled.outcome == Ok::<WatchEvent, notify::Error>(*event),
                            self.pending_events.wf(),
                            self.debounce_ms == before.debounce_ms,
                            self.last_flush == before.last_flush,
                            self.pending_events@ == coalesced_by(
                                superseding(),
                                earlier + changes.take(j as int),
                            ),
                        decreases event.paths@.len() - j,
                    {
                        let change = FileChangeEvent {
                            path: event.paths[j].clone(),
                            kind: FileChangeKind::from(event.kind),
                            timestamp: polled.timestamps[j],
                        };
                        proof {
                            lemma_rules_keep_path();
                            lemma_with_event(
                                superseding(),
                                earlier + changes.take(j as int),
                                change@,
                            );
                            assert(change@ == changes[j as int]);
                            assert((earlier + changes.take(j as int)).push(change@) =~= earlier
                                + changes.take(j + 1));
                        }
                        self.pending_events.supersede(change);
                        j += 1;
                    }
                    assert(changes.take(j as int) =~= changes);
                },
                Err(_) => {
                    assert(earlier + changes_in(*polled) =~= earlier);
                },
            }
            i += 1;
        }
        assert(received@.take(i as int) =~= received@);
    }

    /// Hands out the waiting events, coalesced, if the debounce period has elapsed.
    fn flush(&mut self, now: u64) -> (result: Vec<FileChangeEvent>)
        requires
            old(self).wf(),
        ensures
            final(self).wf(),
            final(self)@ == old(self)@.after_flush(now),
            changes_view(result@) == old(self)@.flushed(now),
    {
        if self.pending_events.is_empty() {
            let result: Vec<FileChangeEvent> = Vec::new();
            assert(changes_view(result@) =~= Seq::<ChangeView>::empty());
            return result;
        }
        let elapsed: u64 = if now >= self.last_flush {
            now - self.last_flush
        } else {
            0
        };
        if (elapsed as u128) < self.debounce_ms as u128 * NANOS_PER_MILLI {
            // Still in debounce period
            let result: Vec<FileChangeEvent> = Vec::new();
            assert(changes_view(result@) =~= Seq::<ChangeView>::empty());
            return result;
        }
        proof {
            self.pending_events.lemma_wf();
            lemma_rules_keep_path();
            lemma_one_per_path_unchanged(merging(), self.pending_events@);
        }
        let mut events = EventList::new();
        std::mem::swap(&mut self.pending_events, &mut events);
        self.last_flush = now;
        DebouncedFileWatcher::coalesce_events(events.into_events())
    }
}

/// A file watcher with event debouncing.
///
/// Aggregates rapid filesystem events into batched updates to prevent
/// UI thrashing and reduce memory pressure during bulk operations.
pub struct DebouncedFileWatcher {
    batch: EventBatch,
}

impl View for DebouncedFileWatcher {
    type V = BatchModel;

    closed spec fn view(&self) -> BatchModel {
        self.batch@
    }
}

impl DebouncedFileWatcher {
    /// The batch of waiting events is well-formed.
    pub closed spec fn wf(&self) -> bool {
        self.batch.wf()
    }

    /// What a well-formed watcher means for its waiting events.
    pub proof fn lemma_wf(&self)
        requires
            self.wf(),
        ensures
            self@.wf(),
    {
        self.batch.lemma_wf();
    }

    /// Creates a new debounced file watcher, given whether the system's watcher could be made.
    ///
    /// # Arguments
    /// * `debounce_ms` - Minimum time between event batches in milliseconds (recommended: 100-300ms)
    /// * `created` - What came of making the system's watcher
    /// * `now` - The time on the watcher's clock, in nanoseconds
    pub fn new(debounce_ms: u64, created: Result<(), notify::Error>, now: u64) -> (result: Result<
        Self,
        WatcherError,
    >)
        ensures
            match created {
                Ok(_) => result matches Ok(watcher) && watcher.wf() && watcher@ == (BatchModel {
                    pending: Seq::empty(),
                    debounce_ms,
                    last_flush: now,
                }),
                Err(cause) => result == Err::<Self, WatcherError>(
                    WatcherError::WatcherCreation(cause),
                ),
            },
    {
        match created {
            Ok(_) => Ok(DebouncedFileWatcher { batch: EventBatch::new(debounce_ms, now) }),
            Err(cause) => Err(WatcherError::from(cause)),
        }
    }

    /// Start watching a path recursively, given what came of asking the system to.
    pub fn watch(&self, path: &FilePath, outcome: Result<(), notify::Error>) -> (result: Result<
        (),
        WatcherError,
    >)
        ensures
            reports(result, path@, outcome),
    {
        report(path, outcome)
    }

    /// Stop watching a path, given what came of asking the system to.
    pub fn unwatch(&self, path: &FilePath, outcome: Result<(), notify::Error>) -> (result: Result<
        (),
        WatcherError,
    >)
        ensures
            reports(result, path@, outcome),
    {
        report(path, outcome)
    }

    /// Process pending events from the filesystem watcher.
    ///
    /// Call this periodically (e.g., in an event loop) to collect and
    /// debounce filesystem events.
    pub fn poll_events(&mut self, received: &Vec<PolledEvent>)
        requires
            old(self).wf(),
            forall|i: int| 0 <= i < received@.len() ==> (#[trigger] received@[i]).wf(),
        ensures
            final(self).wf(),
            final(self)@ == old(self)@.after_changes(all_changes(received@)),
    {
        self.batch.record(received);
    }

    /// Flush debounced events if the debounce period has elapsed.
    ///
    /// Returns the events flushed, none if still in debounce period.
    pub fn flush_if_ready(&mut self, now: u64) -> (result: Vec<FileChangeEvent>)
        requires
            old(self).wf(),
        ensures
            final(self).wf(),
            final(self)@ == old(self)@.after_flush(now),
            changes_view(result@) == old(self)@.flushed(now),
    {
        self.batch.flush(now)
    }

    /// Coalesce events for the same path.
    ///
    /// Rules:
    /// - DELETE followed by CREATE = MODIFY (file was replaced)
    /// - Multiple MODIFYs = single MODIFY
    /// - Keep the most recent event kind otherwise
    pub fn coalesce_events(events: Vec<FileChangeEvent>) -> (result: Vec<FileChangeEvent>)
        ensures
            changes_view(result@) == coalesced(changes_view(events@)),
    {
        let ghost views = changes_view(events@);
        let mut by_path = EventList::new();
        assert(coalesced(views.take(0)) =~= Seq::<ChangeView>::empty());
        for event in it: events
            invariant
                it.seq() == events@,
                views == changes_view(events@),
                by_path.wf(),
                by_path@ == coalesced(views.take(it.index() as int)),
        {
            proof {
                lemma_rules_keep_path();
                let index = it.index() as int;
                assert(event@ == views[index]);
                lemma_with_event(merging(), views.take(index), event@);
                assert(views.take(index).push(event@) =~= views.take(index + 1));
            }
            by_path.merge(event);
        }
        assert(views.take(views.len() as int) =~= views);
        by_path.into_events()
    }
}

/// Which watcher is to be asked to watch a path.
#[derive(Debug, Clone, Copy, PartialEq, Eq, Structural)]
pub enum WatchStep {
    /// The native watcher.
    AskNative,
    /// The polling watcher.
    AskPolling,
    /// None: the path is watched.
    Watching,
}

/// Which watcher is to be asked no longer to watch a path.
#[derive(Debug, Clone, Copy, PartialEq, Eq, Structural)]
pub enum UnwatchStep {
    /// The polling watcher.
    AskPolling,
    /// The native watcher.
    AskNative,
    /// None.
    Nothing,
}

/// A hybrid watcher.
#[verifier::ext_equal]
pub struct HybridModel {
    pub batch: BatchModel,
    /// Whether there is a native watcher.
    pub native: bool,
    /// The paths that fell back to polling.
    pub polled: Seq<PathView>,
}

impl HybridModel {
    /// The watcher with a path that falls back to polling.
    pub open spec fn fall_back(self, path: PathView) -> HybridModel {
        if self.polled.contains(path) {
            self
        } else {
            HybridModel { polled: self.polled.push(path), ..self }
        }
    }

    /// The watcher that is asked first to watch a path.
    pub open spec fn first_step(self) -> WatchStep {
        if self.native {
            WatchStep::AskNative
        } else {
            WatchStep::AskPolling
        }
    }

    /// The watcher after the native one was asked.
    pub open spec fn after_native(
        self,
        path: PathView,
        outcome: Result<(), notify::Error>,
    ) -> HybridModel {
        if outcome is Ok {
            self
        } else {
            self.fall_back(path)
        }
    }

    /// The watcher after the polling one was asked.
    pub open spec fn after_polling(
        self,
        path: PathView,
        outcome: Result<(), notify::Error>,
    ) -> HybridModel {
        if outcome is Ok {
            self.fall_back(path)
        } else {
            self
        }
    }

    /// The watcher that is asked no longer to watch a path.
    pub open spec fn unwatch_step(self, path: PathView) -> UnwatchStep {
        if self.polled.contains(path) {
            UnwatchStep::AskPolling
        } else if self.native {
            UnwatchStep::AskNative
        } else {
            UnwatchStep::Nothing
        }
    }

    /// The watcher without a path that fell back to polling.
    pub open spec fn forget(self, path: PathView) -> HybridModel {
        HybridModel { polled: self.polled.filter(other_than(path)), ..self }
    }
}

/// A hybrid file watcher that uses native watching with polling fallback.
///
/// Some filesystems (NFS, WSL, network drives) don't support native
/// file watching reliably. This watcher automatically falls back to
/// polling for problematic paths.
pub struct HybridFileWatcher {
    native: bool,
    use_polling_for: PathSet,
    batch: EventBatch,
}

impl View for HybridFileWatcher {
    type V = HybridModel;

    closed spec fn view(&self) -> HybridModel {
        HybridModel { batch: self.batch@, native: self.native, polled: self.use_polling_for@ }
    }
}

impl HybridFileWatcher {
    /// The batch of waiting events and the set of paths are well-formed.
    pub closed spec fn wf(&self) -> bool {
        self.use_polling_for.wf() && self.batch.wf()
    }

    /// What a well-formed watcher means for its contents.
    pub proof fn lemma_wf(&self)
        requires
            self.wf(),
        ensures
            self@.batch.wf(),
            self@.polled.no_duplicates(),
    {
        self.batch.lemma_wf();
        self.use_polling_for.lemma_no_duplicates();
    }

    /// Creates a new hybrid file watcher, given which of the system's watchers could be made. The
    /// native watcher can be done without.
    ///
    /// # Arguments
    /// * `debounce_ms` - Minimum time between event batches
    /// * `native` - What came of making the native watcher
    /// * `polling` - What came of making the polling watcher
    /// * `now` - The time on the watcher's clock, in nanoseconds
    pub fn new(
        debounce_ms: u64,
        native: Result<(), notify::Error>,
        polling: Result<(), notify::Error>,
        now: u64,
    ) -> (result: Result<Self, WatcherError>)
        ensures
            match polling {
                Ok(_) => result matches Ok(watcher) && watcher.wf() && watcher@ == (HybridModel {
                    batch: BatchModel { pending: Seq::empty(), debounce_ms, last_flush: now },
                    native: native is Ok,
                    polled: Seq::empty(),
                }),
                Err(cause) => result == Err::<Self, WatcherError>(
                    WatcherError::WatcherCreation(cause),
                ),
            },
    {
        match polling {
            Ok(_) => Ok(
                HybridFileWatcher {
                    native: native.is_ok(),
                    use_polling_for: PathSet::new(),
                    batch: EventBatch::new(debounce_ms, now),
                },
            ),
            Err(cause) => Err(WatcherError::from(cause)),
        }
    }

    /// Watch a path, using native watching if possible, polling otherwise: the watcher to ask
    /// first, whatever the path.
    pub fn watch(&self) -> (result: WatchStep)
        ensures
            result == self@.first_step(),
    {
        if self.native {
            WatchStep::AskNative
        } else {
            WatchStep::AskPolling
        }
    }

    /// Go on watching a path once the native watcher was asked: where that failed, the path falls
    /// back to polling.
    pub fn watch_after_native(
        &mut self,
        path: &FilePath,
        outcome: &Result<(), notify::Error>,
    ) -> (result: WatchStep)
        requires
            old(self).wf(),
        ensures
            final(self).wf(),
            final(self)@ == old(self)@.after_native(path@, *outcome),
            result == (if *outcome is Ok {
                WatchStep::Watching
            } else {
                WatchStep::AskPolling
            }),
    {
        match outcome {
            Ok(_) => WatchStep::Watching,
            Err(_) => {
                let _ = self.use_polling_for.insert(path.clone());
                assert(self@ =~= old(self)@.after_native(path@, *outcome));
                WatchStep::AskPolling
            },
        }
    }

    /// End watching a path once the polling watcher was asked: where that worked, the path is a
    /// polled one.
    pub fn watch_after_polling(
        &mut self,
        path: &FilePath,
        outcome: Result<(), notify::Error>,
    ) -> (result: Result<(), WatcherError>)
        requires
            old(self).wf(),
        ensures
            final(self).wf(),
            final(self)@ == old(self)@.after_polling(path@, outcome),
            reports(result, path@, outcome),
    {
        if outcome.is_ok() {
            let _ = self.use_polling_for.insert(path.clone());
            assert(self@ =~= old(self)@.after_polling(path@, outcome));
        }
        report(path, outcome)
    }

    /// Stop watching a path: the watcher to ask.
    pub fn unwatch(&mut self, path: &FilePath) -> (result: UnwatchStep)
        requires
            old(self).wf(),
        ensures
            final(self).wf(),
            final(self)@ == old(self)@.forget(path@),
            result == old(self)@.unwatch_step(path@),
    {
        if self.use_polling_for.remove(path) {
            assert(self@ =~= old(self)@.forget(path@));
            UnwatchStep::AskPolling
        } else if self.native {
            UnwatchStep::AskNative
        } else {
            UnwatchStep::Nothing
        }
    }

    /// End unwatching a path once a watcher was asked.
    pub fn unwatch_after(&self, path: &FilePath, outcome: Result<(), notify::Error>) -> (result:
        Result<(), WatcherError>)
        ensures
            reports(result, path@, outcome),
    {
        report(path, outcome)
    }

    /// Process pending events from the filesystem watcher.
    pub fn poll_events(&mut self, received: &Vec<PolledEvent>)
        requires
            old(self).wf(),
            forall|i: int| 0 <= i < received@.len() ==> (#[trigger] received@[i]).wf(),
        ensures
            final(self).wf(),
            final(self)@ == (HybridModel {
                batch: old(self)@.batch.after_changes(all_changes(received@)),
                ..old(self)@
            }),
    {
        self.batch.record(received);
    }

    /// Flush debounced events if ready.
    pub fn flush_if_ready(&mut self, now: u64) -> (result: Vec<FileChangeEvent>)
        requires
            old(self).wf(),
        ensures
            final(self).wf(),
            final(self)@ == (HybridModel {
                batch: old(self)@.batch.after_flush(now),
                ..old(self)@
            }),
            changes_view(result@) == old(self)@.batch.flushed(now),
    {
        self.batch.flush(now)
    }

    /// Check if a path is using polling fallback.
    pub fn is_using_polling(&self, path: &FilePath) -> (result: bool)
        requires
            self.wf(),
        ensures
            result == self@.polled.contains(path@),
    {
        self.use_polling_for.contains(path)
    }
}

} // verus!
