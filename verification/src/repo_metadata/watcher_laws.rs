//! What holds of coalescing, debouncing and falling back to polling.

use crate::path::PathView;
use crate::path_set::other_than;
use crate::repo_metadata::coalesce::{
    coalesced, coalesced_by, folded, history, keeps_path, lemma_coalesced_one_per_path,
    lemma_first_paths, lemma_history, lemma_one_per_path_unchanged, lemma_rules_keep_path,
    lemma_with_event, mentions, merging, one_per_path, superseding, with_event, ChangeView,
    FileChangeKind, Rule,
};
use crate::repo_metadata::entry_list::lemma_filter_items;
use crate::repo_metadata::event::{EventKind, ModifyKind, WatchEvent};
use crate::repo_metadata::watcher::{
    all_changes, changes_in, reports, BatchModel, HybridModel, PolledEvent, UnwatchStep, WatchStep,
    WatcherError, NANOS_PER_MILLI,
};
use crate::sequences::{lemma_push_contains, lemma_push_no_duplicates};
use vstd::prelude::*;

verus! {

/// Coalescing leaves one event for each path for which there was any, and none for other paths.
pub proof fn law_one_event_per_path(events: Seq<ChangeView>, path: PathView)
    ensures
        one_per_path(coalesced(events)),
        mentions(coalesced(events), path) == mentions(events, path),
{
    lemma_rules_keep_path();
    lemma_coalesced_one_per_path(merging(), events);
}

/// Coalescing coalesced events changes nothing.
pub proof fn law_coalescing_is_idempotent(events: Seq<ChangeView>)
    ensures
        coalesced(coalesced(events)) == coalesced(events),
{
    lemma_rules_keep_path();
    lemma_coalesced_one_per_path(merging(), events);
    lemma_one_per_path_unchanged(merging(), coalesced(events));
}

/// DELETE followed by CREATE = MODIFY: whatever came before, a path that is left as deleted and
/// is then created counts as modified, in a list of events and among arriving ones.
pub proof fn law_delete_then_create_is_modify(earlier: Seq<ChangeView>, create: ChangeView)
    requires
        earlier.len() > 0,
        create.kind == FileChangeKind::Create,
    ensures
        folded(merging(), earlier).kind == FileChangeKind::Remove ==> folded(
            merging(),
            earlier.push(create),
        ) == (ChangeView {
            path: folded(merging(), earlier).path,
            kind: FileChangeKind::Modify,
            timestamp: create.timestamp,
        }),
        folded(superseding(), earlier).kind == FileChangeKind::Remove ==> folded(
            superseding(),
            earlier.push(create),
        ) == (ChangeView {
            path: folded(superseding(), earlier).path,
            kind: FileChangeKind::Modify,
            timestamp: create.timestamp,
        }),
{
    assert(earlier.push(create).drop_last() =~= earlier);
}

/// Multiple MODIFYs = single MODIFY.
pub proof fn law_modifies_become_one(rule: Rule, events: Seq<ChangeView>)
    requires
        rule == merging() || rule == superseding(),
        events.len() > 0,
        forall|i: int|
            0 <= i < events.len() ==> (#[trigger] events[i]).kind == FileChangeKind::Modify,
    ensures
        folded(rule, events).kind == FileChangeKind::Modify,
    decreases events.len(),
{
    if events.len() > 1 {
        let rest = events.drop_last();
        assert forall|i: int| 0 <= i < rest.len() implies (#[trigger] rest[i]).kind
            == FileChangeKind::Modify by {
            assert(rest[i] == events[i]);
        }
        law_modifies_become_one(rule, rest);
        assert(events[events.len() - 1].kind == FileChangeKind::Modify);
    } else {
        assert(events[0].kind == FileChangeKind::Modify);
    }
}

/// Apart from a file that was replaced, the most recent event for a path is kept.
pub proof fn law_most_recent_event_is_kept(earlier: Seq<ChangeView>, event: ChangeView)
    requires
        earlier.len() > 0,
        folded(merging(), earlier).path == event.path,
        event.timestamp > folded(merging(), earlier).timestamp,
        !(folded(merging(), earlier).kind == FileChangeKind::Remove && event.kind
            == FileChangeKind::Create),
    ensures
        folded(merging(), earlier.push(event)) == event,
{
    assert(earlier.push(event).drop_last() =~= earlier);
}

/// Whether the events for each path come in the order of their timestamps.
pub open spec fn in_order(events: Seq<ChangeView>) -> bool {
    forall|i: int, j: int|
        #![trigger events[i], events[j]]
        0 <= i < j < events.len() && events[i].path == events[j].path ==> events[i].timestamp
            < events[j].timestamp
}

/// What a fold leaves bears the timestamp of the last event, where they are in order.
proof fn lemma_folds_agree(events: Seq<ChangeView>, path: PathView)
    requires
        events.len() > 0,
        forall|i: int| 0 <= i < events.len() ==> (#[trigger] events[i]).path == path,
        in_order(events),
    ensures
        folded(merging(), events) == folded(superseding(), events),
        folded(merging(), events).timestamp == events.last().timestamp,
        folded(merging(), events).path == path,
    decreases events.len(),
{
    if events.len() > 1 {
        let rest = events.drop_last();
        assert forall|i: int| 0 <= i < rest.len() implies (#[trigger] rest[i]).path == path by {
            assert(rest[i] == events[i]);
        }
        assert(in_order(rest)) by {
            assert forall|i: int, j: int|
                #![trigger rest[i], rest[j]]
                0 <= i < j < rest.len() && rest[i].path == rest[j].path implies rest[i].timestamp
                < rest[j].timestamp by {
                assert(rest[i] == events[i] && rest[j] == events[j]);
            }
        }
        lemma_folds_agree(rest, path);
        let before = events[events.len() - 2];
        let last = events[events.len() - 1];
        assert(rest.last() == before);
        assert(before.timestamp < last.timestamp);
    }
}

/// The history of a path is in order where the events are.
proof fn lemma_history_in_order(events: Seq<ChangeView>, path: PathView)
    requires
        in_order(events),
    ensures
        in_order(history(events, path)),
    decreases events.len(),
{
    reveal(Seq::filter);
    if events.len() > 0 {
        let rest = events.drop_last();
        let last = events[events.len() - 1];
        assert(in_order(rest)) by {
            assert forall|i: int, j: int|
                #![trigger rest[i], rest[j]]
                0 <= i < j < rest.len() && rest[i].path == rest[j].path implies rest[i].timestamp
                < rest[j].timestamp by {
                assert(rest[i] == events[i] && rest[j] == events[j]);
            }
        }
        lemma_history_in_order(rest, path);
        lemma_filter_items(rest, crate::repo_metadata::coalesce::is_for(path));
        let before = history(rest, path);
        if last.path == path {
            let all = before.push(last);
            assert forall|i: int, j: int|
                #![trigger all[i], all[j]]
                0 <= i < j < all.len() && all[i].path == all[j].path implies all[i].timestamp
                < all[j].timestamp by {
                if j == before.len() {
                    assert(before.contains(before[i]));
                    let k = choose|k: int| 0 <= k < rest.len() && rest[k] == before[i];
                    assert(events[k] == rest[k]);
                    assert(events[k].path == last.path);
                } else {
                    assert(all[i] == before[i] && all[j] == before[j]);
                }
            }
        }
    }
}

/// Events that arrive in the order of their timestamps wait as what coalescing makes of all of
/// them.
pub proof fn law_waiting_events_are_coalesced(events: Seq<ChangeView>)
    requires
        in_order(events),
    ensures
        coalesced_by(superseding(), events) == coalesced(events),
{
    lemma_first_paths(events);
    let paths = crate::repo_metadata::coalesce::first_paths(events);
    assert forall|i: int| 0 <= i < paths.len() implies coalesced_by(superseding(), events)[i]
        == coalesced(events)[i] by {
        assert(paths.contains(paths[i]));
        lemma_history(events, paths[i]);
        lemma_history_in_order(events, paths[i]);
        lemma_folds_agree(history(events, paths[i]), paths[i]);
    }
    assert(coalesced_by(superseding(), events) =~= coalesced(events));
}

/// Coalescing the first events early changes nothing.
proof fn lemma_coalesced_in_steps(rule: Rule, first: Seq<ChangeView>, second: Seq<ChangeView>)
    requires
        keeps_path(rule),
    ensures
        coalesced_by(rule, coalesced_by(rule, first) + second) == coalesced_by(
            rule,
            first + second,
        ),
    decreases second.len(),
{
    let list = coalesced_by(rule, first);
    if second.len() == 0 {
        lemma_coalesced_one_per_path(rule, first);
        lemma_one_per_path_unchanged(rule, list);
        assert(list + second =~= list);
        assert(first + second =~= first);
    } else {
        let rest = second.drop_last();
        lemma_coalesced_in_steps(rule, first, rest);
        lemma_with_event(rule, list + rest, second.last());
        lemma_with_event(rule, first + rest, second.last());
        assert((list + rest).push(second.last()) =~= list + second);
        assert((first + rest).push(second.last()) =~= first + second);
    }
}

/// It makes no difference whether changes are polled in one go or one after the other.
pub proof fn law_polling_in_steps(
    batch: BatchModel,
    first: Seq<ChangeView>,
    second: Seq<ChangeView>,
)
    ensures
        batch.after_changes(first).after_changes(second) == batch.after_changes(first + second),
{
    lemma_rules_keep_path();
    lemma_coalesced_in_steps(superseding(), batch.pending + first, second);
    assert((batch.pending + first) + second =~= batch.pending + (first + second));
}

/// No change is lost before the flush: a path waits exactly if it waited before or has changed.
pub proof fn law_changed_paths_wait(batch: BatchModel, changes: Seq<ChangeView>, path: PathView)
    ensures
        batch.after_changes(changes).wf(),
        mentions(batch.after_changes(changes).pending, path) == (mentions(batch.pending, path)
            || mentions(changes, path)),
{
    lemma_rules_keep_path();
    let all = batch.pending + changes;
    lemma_coalesced_one_per_path(superseding(), all);
    assert(mentions(coalesced_by(superseding(), all), path) == mentions(all, path));
    if mentions(all, path) {
        let i = choose|i: int| 0 <= i < all.len() && (#[trigger] all[i]).path == path;
        if i < batch.pending.len() {
            assert(batch.pending[i].path == path);
        } else {
            assert(changes[i - batch.pending.len()].path == path);
        }
    }
    if mentions(batch.pending, path) {
        let i = choose|i: int|
            0 <= i < batch.pending.len() && (#[trigger] batch.pending[i]).path == path;
        assert(all[i].path == path);
    }
    if mentions(changes, path) {
        let i = choose|i: int| 0 <= i < changes.len() && (#[trigger] changes[i]).path == path;
        assert(all[batch.pending.len() + i].path == path);
    }
}

/// No change is lost or repeated by a flush: each waiting event is handed out or goes on waiting.
pub proof fn law_flush_hands_out_or_keeps(batch: BatchModel, now: u64)
    ensures
        batch.flushed(now) + batch.after_flush(now).pending == batch.pending,
        batch.flushed(now).len() == 0 || batch.after_flush(now).pending.len() == 0,
{
    assert(batch.flushed(now) + batch.after_flush(now).pending =~= batch.pending);
}

/// A file that is deleted and created again while its event waits is handed out as modified.
pub proof fn law_replaced_file_is_handed_out_as_modified(
    batch: BatchModel,
    remove: ChangeView,
    create: ChangeView,
    now: u64,
)
    requires
        batch.wf(),
        remove.kind == FileChangeKind::Remove,
        create.kind == FileChangeKind::Create,
        remove.path == create.path,
        batch.after_changes(seq![remove, create]).ready(now),
    ensures
        batch.after_changes(seq![remove, create]).flushed(now).contains(
            ChangeView {
                path: remove.path,
                kind: FileChangeKind::Modify,
                timestamp: create.timestamp,
            },
        ),
{
    lemma_rules_keep_path();
    let rule = superseding();
    lemma_one_per_path_unchanged(rule, batch.pending);
    let once = batch.pending.push(remove);
    let twice = once.push(create);
    assert(batch.pending + seq![remove, create] =~= twice);
    lemma_with_event(rule, batch.pending, remove);
    lemma_with_event(rule, once, create);
    let first = with_event(rule, batch.pending, remove);
    assert(first == coalesced_by(rule, once));
    lemma_coalesced_one_per_path(rule, once);
    if mentions(batch.pending, remove.path) {
        let place = choose|i: int|
            0 <= i < batch.pending.len() && (#[trigger] batch.pending[i]).path == remove.path;
        assert(first[place] == remove);
        lemma_only_place(first, create.path, place);
    } else {
        assert(first[batch.pending.len() as int] == remove);
        lemma_only_place(first, create.path, batch.pending.len() as int);
    }
    let place = choose|i: int| 0 <= i < first.len() && (#[trigger] first[i]).path == create.path;
    let second = with_event(rule, first, create);
    assert(second[place].kind == FileChangeKind::Modify);
    assert(second.contains(second[place]));
}

proof fn lemma_only_place(list: Seq<ChangeView>, path: PathView, place: int)
    requires
        one_per_path(list),
        0 <= place < list.len(),
        list[place].path == path,
    ensures
        mentions(list, path),
        place == (choose|i: int| 0 <= i < list.len() && (#[trigger] list[i]).path == path),
{
    let chosen = choose|i: int| 0 <= i < list.len() && (#[trigger] list[i]).path == path;
    if chosen < place {
        assert(list[chosen].path != list[place].path);
    } else if place < chosen {
        assert(list[place].path != list[chosen].path);
    }
}

/// Two batches in a row are at least the debounce period apart, whatever arrives in between.
pub proof fn law_batches_are_apart(
    batch: BatchModel,
    first: u64,
    changes: Seq<ChangeView>,
    second: u64,
)
    requires
        first <= second,
        batch.flushed(first).len() > 0,
        batch.after_flush(first).after_changes(changes).flushed(second).len() > 0,
    ensures
        second - first >= batch.debounce_ms * NANOS_PER_MILLI,
{
}

/// A path that fell back to polling is reported as polled, and the polling watcher is the one that
/// is asked to stop: where the native watcher failed, and where there is none and the polling one
/// took the path.
pub proof fn law_fallback_is_remembered(
    watcher: HybridModel,
    path: PathView,
    native: Result<(), notify::Error>,
    polling: Result<(), notify::Error>,
)
    ensures
        !watcher.native ==> watcher.first_step() == WatchStep::AskPolling,
        !watcher.native && polling is Ok ==> watcher.after_polling(path, polling).polled.contains(
            path,
        ) && watcher.after_polling(path, polling).unwatch_step(path) == UnwatchStep::AskPolling,
        watcher.native ==> watcher.first_step() == WatchStep::AskNative,
        watcher.native && native is Err ==> watcher.after_native(path, native).after_polling(
            path,
            polling,
        ).polled.contains(path) && watcher.after_native(path, native).after_polling(
            path,
            polling,
        ).unwatch_step(path) == UnwatchStep::AskPolling,
{
    lemma_push_contains(watcher.polled, path, path);
}

/// Without a native watcher, a path that the polling watcher refused changes nothing.
pub proof fn law_refused_path_is_not_polled(
    watcher: HybridModel,
    path: PathView,
    polling: Result<(), notify::Error>,
)
    requires
        !watcher.native,
        polling is Err,
        !watcher.polled.contains(path),
    ensures
        watcher.after_polling(path, polling) == watcher,
        watcher.unwatch_step(path) == UnwatchStep::Nothing,
{
}

/// A path that the native watcher took is not polled, unless it was before, and then the native
/// watcher is the one that is asked to stop.
pub proof fn law_native_watch_is_not_polled(
    watcher: HybridModel,
    path: PathView,
    outcome: Result<(), notify::Error>,
)
    requires
        watcher.native,
        outcome is Ok,
        !watcher.polled.contains(path),
    ensures
        watcher.after_native(path, outcome) == watcher,
        watcher.unwatch_step(path) == UnwatchStep::AskNative,
{
}

/// A path that is no longer watched is not polled, and no other path changes.
pub proof fn law_unwatched_path_is_not_polled(
    watcher: HybridModel,
    path: PathView,
    other: PathView,
)
    ensures
        watcher.forget(path).polled.contains(other) == (other != path && watcher.polled.contains(
            other,
        )),
{
    lemma_filter_items(watcher.polled, other_than(path));
}

/// An event that was received without an error stands for one change for each of its paths,
/// whatever its kind, in their order: with the path's own moment, and with a kind that depends on
/// the kind of the event alone. An error stands for none.
pub proof fn law_every_path_of_an_event_is_a_change(polled: PolledEvent)
    ensures
        polled.outcome is Err ==> changes_in(polled).len() == 0,
        polled.outcome matches Ok(event) ==> {
            &&& changes_in(polled).len() == event.paths@.len()
            &&& forall|i: int|
                0 <= i < event.paths@.len() ==> {
                    let change = #[trigger] changes_in(polled)[i];
                    &&& change.path == event.paths@[i]@
                    &&& change.timestamp == polled.timestamps@[i]
                    &&& change.kind == FileChangeKind::Create <==> event.kind == EventKind::Create
                    &&& change.kind == FileChangeKind::Remove <==> event.kind == EventKind::Remove
                    &&& change.kind == FileChangeKind::Rename <==> event.kind == EventKind::Modify(
                        ModifyKind::Name,
                    )
                    &&& change.kind == FileChangeKind::Modify <==> (event.kind
                        == EventKind::Modify(ModifyKind::Other) || event.kind == EventKind::Any
                        || event.kind == EventKind::Access || event.kind == EventKind::Other)
                }
        },
{
}

/// What was received later comes after what was received before, and nothing is dropped or added.
pub proof fn law_changes_come_as_received(received: Seq<PolledEvent>, next: PolledEvent)
    ensures
        all_changes(Seq::empty()).len() == 0,
        all_changes(received.push(next)).len() == all_changes(received).len() + changes_in(
            next,
        ).len(),
        forall|i: int|
            0 <= i < all_changes(received).len() ==> #[trigger] all_changes(received.push(next))[i]
                == all_changes(received)[i],
        forall|i: int|
            0 <= i < changes_in(next).len() ==> #[trigger] changes_in(next)[i] == all_changes(
                received.push(next),
            )[all_changes(received).len() + i],
{
    assert(received.push(next).drop_last() =~= received);
}

/// The changes of each received event are among all changes.
proof fn lemma_change_is_among_all(received: Seq<PolledEvent>, index: int, place: int)
    requires
        0 <= index < received.len(),
        0 <= place < changes_in(received[index]).len(),
    ensures
        all_changes(received).contains(changes_in(received[index])[place]),
    decreases received.len(),
{
    let rest = received.drop_last();
    let change = changes_in(received[index])[place];
    let before = all_changes(rest);
    let all = all_changes(received);
    if index == received.len() - 1 {
        assert(all[before.len() + place] == change);
    } else {
        assert(rest[index] == received[index]);
        lemma_change_is_among_all(rest, index, place);
        let i = choose|i: int| 0 <= i < before.len() && before[i] == change;
        assert(all[i] == change);
    }
}

/// Every change is one of a received event.
proof fn lemma_change_was_received(received: Seq<PolledEvent>, place: int)
    requires
        0 <= place < all_changes(received).len(),
    ensures
        exists|index: int|
            0 <= index < received.len() && (#[trigger] changes_in(received[index])).contains(
                all_changes(received)[place],
            ),
    decreases received.len(),
{
    let rest = received.drop_last();
    let before = all_changes(rest);
    let change = all_changes(received)[place];
    if place < before.len() {
        lemma_change_was_received(rest, place);
        let index = choose|index: int|
            0 <= index < rest.len() && (#[trigger] changes_in(rest[index])).contains(before[place]);
        assert(changes_in(received[index]).contains(change));
    } else {
        assert(changes_in(received.last())[place - before.len()] == change);
        assert(changes_in(received[received.len() - 1]).contains(change));
    }
}

/// After polling, every path of every event that was received without an error waits, whatever
/// the kind of the event.
pub proof fn law_every_received_path_waits(
    batch: BatchModel,
    received: Seq<PolledEvent>,
    index: int,
    event: WatchEvent,
    place: int,
)
    requires
        0 <= index < received.len(),
        received[index].outcome == Ok::<WatchEvent, notify::Error>(event),
        0 <= place < event.paths@.len(),
    ensures
        mentions(all_changes(received), event.paths@[place]@),
        exists|i: int|
            0 <= i < batch.after_changes(all_changes(received)).pending.len() && (
            #[trigger] batch.after_changes(all_changes(received)).pending[i]).path
                == event.paths@[place]@,
{
    let path = event.paths@[place]@;
    let change = changes_in(received[index])[place];
    assert(change.path == path);
    lemma_change_is_among_all(received, index, place);
    let all = all_changes(received);
    let k = choose|k: int| 0 <= k < all.len() && all[k] == change;
    assert(all[k].path == path);
    law_changed_paths_wait(batch, all, path);
}

/// After polling, a path waits only if it waited before or an event that was received without an
/// error names it.
pub proof fn law_only_received_paths_wait(
    batch: BatchModel,
    received: Seq<PolledEvent>,
    path: PathView,
)
    requires
        mentions(batch.after_changes(all_changes(received)).pending, path),
        !mentions(batch.pending, path),
    ensures
        exists|index: int, place: int|
            #![trigger received[index].outcome->Ok_0.paths@[place]]
            0 <= index < received.len() && received[index].outcome is Ok && 0 <= place
                < received[index].outcome->Ok_0.paths@.len()
                && received[index].outcome->Ok_0.paths@[place]@ == path,
{
    let all = all_changes(received);
    law_changed_paths_wait(batch, all, path);
    let k = choose|k: int| 0 <= k < all.len() && (#[trigger] all[k]).path == path;
    lemma_change_was_received(received, k);
    let index = choose|index: int|
        0 <= index < received.len() && (#[trigger] changes_in(received[index])).contains(all[k]);
    let changes = changes_in(received[index]);
    let place = choose|place: int| 0 <= place < changes.len() && changes[place] == all[k];
    assert(received[index].outcome->Ok_0.paths@[place]@ == path);
}

/// An arriving change for a path that does not wait waits last, as it is. One for a path that
/// waits takes the place of what waits there; a file that was to be reported as removed and is
/// created again is reported as modified. The other waiting events stay as they are.
pub proof fn law_arriving_change(batch: BatchModel, change: ChangeView)
    requires
        batch.wf(),
    ensures
        batch.after_changes(seq![change]).debounce_ms == batch.debounce_ms,
        batch.after_changes(seq![change]).last_flush == batch.last_flush,
        !mentions(batch.pending, change.path) ==> batch.after_changes(seq![change]).pending
            == batch.pending.push(change),
        mentions(batch.pending, change.path) ==> batch.after_changes(seq![change]).pending.len()
            == batch.pending.len(),
        mentions(batch.pending, change.path) ==> forall|i: int|
            0 <= i < batch.pending.len() ==> {
                let waiting = #[trigger] batch.pending[i];
                let left = batch.after_changes(seq![change]).pending[i];
                &&& waiting.path != change.path ==> left == waiting
                &&& waiting.path == change.path ==> left.path == change.path && left.timestamp
                    == change.timestamp && if waiting.kind == FileChangeKind::Remove && change.kind
                    == FileChangeKind::Create {
                    left.kind == FileChangeKind::Modify
                } else {
                    left.kind == change.kind
                }
            },
{
    lemma_rules_keep_path();
    let rule = superseding();
    lemma_one_per_path_unchanged(rule, batch.pending);
    lemma_with_event(rule, batch.pending, change);
    assert(batch.pending + seq![change] =~= batch.pending.push(change));
    assert forall|i: int|
        0 <= i < batch.pending.len() && (#[trigger] batch.pending[i]).path == change.path implies i
        == (choose|k: int|
        0 <= k < batch.pending.len() && (#[trigger] batch.pending[k]).path == change.path) by {
        lemma_only_place(batch.pending, change.path, i);
    }
}

/// One more event in a list adds an event for a path without one, behind the others. For a path
/// with one it leaves a modification where a removal is followed by a creation and a removal where
/// a creation is followed by a removal, both with the moment of the later event, and else the event
/// with the higher timestamp, the earlier one of two with the same. The other events stay as they
/// are.
pub proof fn law_one_more_event(events: Seq<ChangeView>, event: ChangeView)
    ensures
        coalesced(Seq::empty()).len() == 0,
        !mentions(events, event.path) ==> coalesced(events.push(event)) == coalesced(events).push(
            event,
        ),
        mentions(events, event.path) ==> coalesced(events.push(event)).len() == coalesced(
            events,
        ).len(),
        mentions(events, event.path) ==> forall|i: int|
            0 <= i < coalesced(events).len() ==> {
                let before = #[trigger] coalesced(events)[i];
                let left = coalesced(events.push(event))[i];
                &&& before.path != event.path ==> left == before
                &&& before.path == event.path ==> left.path == event.path && if before.kind
                    == FileChangeKind::Remove && event.kind == FileChangeKind::Create {
                    left.kind == FileChangeKind::Modify && left.timestamp == event.timestamp
                } else if before.kind == FileChangeKind::Create && event.kind
                    == FileChangeKind::Remove {
                    left.kind == FileChangeKind::Remove && left.timestamp == event.timestamp
                } else if before.timestamp < event.timestamp {
                    left == event
                } else {
                    left == before
                }
            },
{
    lemma_rules_keep_path();
    let rule = merging();
    let list = coalesced(events);
    lemma_coalesced_one_per_path(rule, events);
    lemma_with_event(rule, events, event);
    assert(mentions(list, event.path) == mentions(events, event.path));
    assert forall|i: int|
        0 <= i < list.len() && (#[trigger] list[i]).path == event.path implies i == (choose|k: int|
        0 <= k < list.len() && (#[trigger] list[k]).path == event.path) by {
        lemma_only_place(list, event.path, i);
    }
}

/// A flush hands out everything that waits as soon as the debounce period, given in milliseconds,
/// is over since the last one by a clock that counts nanoseconds, and then nothing waits and the
/// period starts anew. Before, it hands out nothing and changes nothing. A clock that went back
/// shows no time as passed.
pub proof fn law_flush_waits_for_the_debounce_period(batch: BatchModel, now: u64)
    ensures
        now >= batch.last_flush && now - batch.last_flush >= batch.debounce_ms * 1_000_000 ==> {
            &&& batch.flushed(now) == batch.pending
            &&& batch.after_flush(now).pending.len() == 0
            &&& batch.pending.len() > 0 ==> batch.after_flush(now).last_flush == now
            &&& batch.pending.len() == 0 ==> batch.after_flush(now).last_flush == batch.last_flush
        },
        now < batch.last_flush && batch.debounce_ms == 0 ==> batch.flushed(now) == batch.pending,
        now >= batch.last_flush && now - batch.last_flush < batch.debounce_ms * 1_000_000
            ==> batch.flushed(now).len() == 0 && batch.after_flush(now) == batch,
        now < batch.last_flush && batch.debounce_ms > 0 ==> batch.flushed(now).len() == 0
            && batch.after_flush(now) == batch,
        batch.after_flush(now).debounce_ms == batch.debounce_ms,
{
    if batch.pending.len() == 0 {
        assert(batch.pending =~= Seq::empty());
    }
}

/// A result that reports an outcome is a failure exactly where the outcome is one, and such a
/// failure names the path and holds the cause.
pub proof fn law_outcome_is_reported(
    result: Result<(), WatcherError>,
    path: PathView,
    outcome: Result<(), notify::Error>,
)
    requires
        reports(result, path, outcome),
    ensures
        result is Ok <==> outcome is Ok,
        outcome is Err ==> result->Err_0 is WatchPath && result->Err_0->path@ == path
            && result->Err_0->source == outcome->Err_0,
{
}

/// Asking a watcher to watch a path changes nothing of another path, of the waiting events and of
/// whether there is a native watcher. Only a refusal by the native watcher, or the consent of the
/// polling one, makes a path polled.
pub proof fn law_watching_concerns_one_path(
    watcher: HybridModel,
    path: PathView,
    outcome: Result<(), notify::Error>,
    other: PathView,
)
    ensures
        watcher.after_native(path, outcome).polled.contains(other) <==> watcher.polled.contains(
            other,
        ) || (other == path && outcome is Err),
        watcher.after_polling(path, outcome).polled.contains(other) <==> watcher.polled.contains(
            other,
        ) || (other == path && outcome is Ok),
        watcher.after_native(path, outcome).batch == watcher.batch,
        watcher.after_polling(path, outcome).batch == watcher.batch,
        watcher.forget(path).batch == watcher.batch,
        watcher.after_native(path, outcome).native == watcher.native,
        watcher.after_polling(path, outcome).native == watcher.native,
        watcher.forget(path).native == watcher.native,
        watcher.polled.no_duplicates() ==> {
            &&& watcher.after_native(path, outcome).polled.no_duplicates()
            &&& watcher.after_polling(path, outcome).polled.no_duplicates()
        },
{
    lemma_push_contains(watcher.polled, path, other);
    if watcher.polled.no_duplicates() && !watcher.polled.contains(path) {
        lemma_push_no_duplicates(watcher.polled, path);
    }
}

/// Who is asked to stop watching a path: the polling watcher for a polled one, else the native
/// watcher where there is one, else nobody.
pub proof fn law_who_stops_watching(watcher: HybridModel, path: PathView)
    ensures
        watcher.unwatch_step(path) == UnwatchStep::AskPolling <==> watcher.polled.contains(path),
        watcher.unwatch_step(path) == UnwatchStep::AskNative <==> watcher.native
            && !watcher.polled.contains(path),
        watcher.unwatch_step(path) == UnwatchStep::Nothing <==> !watcher.native
            && !watcher.polled.contains(path),
{
}

} // verus!
