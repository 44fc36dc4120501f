//! What holds of a repository model, whatever events it handles.

use crate::path::{is_under, PathView};
use crate::repo_metadata::coalesce::{ChangeView, FileChangeKind};
use crate::repo_metadata::entry::entry_from;
use crate::repo_metadata::entry_list::{
    holds, lemma_filter_items, lemma_holds_entry, lemma_in_front, lemma_lookup_contains, lookup,
};
use crate::repo_metadata::event::{DiskState, EventKind};
use crate::repo_metadata::model::{
    after_events, after_kind, disk_of_kind, effect_of, lemma_disk_of_kind_len, paths_of_kind,
    update_of_kind, updates_for, UpdateView,
};
use crate::repo_metadata::tree_laws::{
    law_add_evicts_least_recently_used, law_added_entry_is_found, law_event_keeps_bound,
    lemma_event_keeps_max,
};
use crate::repo_metadata::tree_model::{law_add_keeps_wf, outside, TreeModel};
use vstd::prelude::*;

verus! {

/// A path is among those of a kind where an event of that kind has it.
proof fn lemma_paths_of_kind(events: Seq<ChangeView>, kind: FileChangeKind, path: PathView)
    ensures
        paths_of_kind(events, kind).contains(path) <==> exists|i: int|
            0 <= i < events.len() && (#[trigger] events[i]).kind == kind && events[i].path == path,
    decreases events.len(),
{
    if events.len() > 0 {
        let rest = events.drop_last();
        let before = paths_of_kind(rest, kind);
        let paths = paths_of_kind(events, kind);
        lemma_paths_of_kind(rest, kind, path);
        if before.contains(path) {
            let i = choose|i: int|
                0 <= i < rest.len() && (#[trigger] rest[i]).kind == kind && rest[i].path == path;
            assert(events[i] == rest[i]);
            let k = choose|k: int| 0 <= k < before.len() && before[k] == path;
            assert(paths[k] == path);
        }
        if paths.contains(path) && !before.contains(path) {
            let k = choose|k: int| 0 <= k < paths.len() && paths[k] == path;
            assert(k < before.len() ==> before[k] == path);
            assert(events[events.len() - 1].path == path);
        }
        if exists|i: int|
            0 <= i < events.len() && (#[trigger] events[i]).kind == kind && events[i].path
                == path {
            let i = choose|i: int|
                0 <= i < events.len() && (#[trigger] events[i]).kind == kind && events[i].path
                    == path;
            if i == events.len() - 1 {
                assert(paths[before.len() as int] == path);
            } else {
                assert(rest[i] == events[i]);
            }
        }
    }
}

/// The updates for events contain that of every kind that occurs, and no other.
proof fn lemma_updates_contain(events: Seq<ChangeView>, update: UpdateView)
    ensures
        updates_for(events).contains(update) <==> update == (UpdateView {
            paths: paths_of_kind(events, update.kind),
            kind: update.kind,
            is_batch: events.len() > 1,
        }) && update.paths.len() > 0,
{
    let all = updates_for(events);
    let a = update_of_kind(events, FileChangeKind::Create);
    let b = update_of_kind(events, FileChangeKind::Modify);
    let c = update_of_kind(events, FileChangeKind::Remove);
    let d = update_of_kind(events, FileChangeKind::Rename);
    if all.contains(update) {
        let i = choose|i: int| 0 <= i < all.len() && all[i] == update;
        if i < a.len() {
            assert(all[i] == a[i]);
        } else if i < (a + b).len() {
            assert(all[i] == b[i - a.len()]);
        } else if i < (a + b + c).len() {
            assert(all[i] == c[i - (a + b).len()]);
        } else {
            assert(all[i] == d[i - (a + b + c).len()]);
        }
    }
    if paths_of_kind(events, update.kind).len() > 0 {
        match update.kind {
            FileChangeKind::Create => {
                assert(all[0] == a[0]);
            },
            FileChangeKind::Modify => {
                assert(all[a.len() as int] == b[0]);
            },
            FileChangeKind::Remove => {
                assert(all[(a + b).len() as int] == c[0]);
            },
            FileChangeKind::Rename => {
                assert(all[(a + b + c).len() as int] == d[0]);
            },
        }
    }
}

/// Every event reaches the UI: some update has its kind and its path.
pub proof fn law_every_event_is_announced(events: Seq<ChangeView>, index: int)
    requires
        0 <= index < events.len(),
    ensures
        exists|update: UpdateView| #[trigger]
            updates_for(events).contains(update) && update.kind == events[index].kind
                && update.paths.contains(events[index].path) && update.is_batch == (events.len()
                > 1),
{
    let kind = events[index].kind;
    let update = UpdateView {
        paths: paths_of_kind(events, kind),
        kind,
        is_batch: events.len() > 1,
    };
    lemma_paths_of_kind(events, kind, events[index].path);
    assert(update.paths.contains(events[index].path));
    lemma_updates_contain(events, update);
    assert(updates_for(events).contains(update));
}

/// Nothing but events reaches the UI: every update is about some path, and all its paths come
/// from events of its kind.
pub proof fn law_updates_announce_only_events(
    events: Seq<ChangeView>,
    update: UpdateView,
    path: PathView,
)
    requires
        updates_for(events).contains(update),
        update.paths.contains(path),
    ensures
        exists|i: int|
            0 <= i < events.len() && (#[trigger] events[i]).kind == update.kind && events[i].path
                == path,
{
    lemma_updates_contain(events, update);
    lemma_paths_of_kind(events, update.kind, path);
}

/// There is one update for each kind of change at most, and none is empty.
pub proof fn law_one_update_per_kind(events: Seq<ChangeView>)
    ensures
        updates_for(events).len() <= 4,
        forall|i: int|
            0 <= i < updates_for(events).len() ==> (#[trigger] updates_for(events)[i]).paths.len()
                > 0,
        forall|i: int, j: int|
            0 <= i < j < updates_for(events).len() ==> (#[trigger] updates_for(events)[i]).kind != (
            #[trigger] updates_for(events)[j]).kind,
{
}

/// No path is announced twice for one event: the updates name as many paths as there are events.
pub proof fn law_updates_count_events(events: Seq<ChangeView>)
    ensures
        paths_of_kind(events, FileChangeKind::Create).len() + paths_of_kind(
            events,
            FileChangeKind::Modify,
        ).len() + paths_of_kind(events, FileChangeKind::Remove).len() + paths_of_kind(
            events,
            FileChangeKind::Rename,
        ).len() == events.len(),
    decreases events.len(),
{
    if events.len() > 0 {
        law_updates_count_events(events.drop_last());
    }
}

/// Without events nothing changes and nothing is announced.
pub proof fn law_no_events_change_nothing(tree: TreeModel)
    ensures
        after_events(tree, Seq::empty(), Seq::empty()) == tree,
        updates_for(Seq::empty()) == Seq::<UpdateView>::empty(),
{
    assert(updates_for(Seq::empty()) =~= Seq::<UpdateView>::empty());
}

/// A single event does to the tree what its kind does to its path.
pub proof fn law_single_event_is_applied(tree: TreeModel, event: ChangeView, disk: DiskState)
    ensures
        after_events(tree, seq![event], seq![disk]) == tree.observe(
            effect_of(event.kind),
            event.path,
            disk,
        ),
{
    let events = seq![event];
    let states = seq![disk];
    assert(events.drop_last() =~= Seq::<ChangeView>::empty());
    assert(states.drop_last() =~= Seq::<DiskState>::empty());
    assert forall|kind: FileChangeKind, start: TreeModel| #[trigger]
        after_kind(start, events, states, kind) == (if kind == event.kind {
            start.observe(effect_of(kind), event.path, disk)
        } else {
            start
        }) by {
        let paths = paths_of_kind(events, kind);
        let shown = disk_of_kind(events, states, kind);
        assert(paths_of_kind(events.drop_last(), kind) =~= Seq::<PathView>::empty());
        assert(disk_of_kind(events.drop_last(), states.drop_last(), kind) =~= Seq::<
            DiskState,
        >::empty());
        if kind == event.kind {
            assert(paths.drop_last() =~= Seq::<PathView>::empty());
            assert(shown.drop_last() =~= Seq::<DiskState>::empty());
            assert(start.observe_all(effect_of(kind), paths.drop_last(), shown.drop_last())
                == start);
        }
    }
}

/// Only the order within each kind matters: batches that have the same paths of each kind, with the
/// same state of the disk, have the same effect and the same updates, however the kinds are
/// interleaved.
pub proof fn law_kinds_are_independent(
    tree: TreeModel,
    events: Seq<ChangeView>,
    disk: Seq<DiskState>,
    others: Seq<ChangeView>,
    other_disk: Seq<DiskState>,
)
    requires
        forall|kind: FileChangeKind| #[trigger]
            paths_of_kind(events, kind) == paths_of_kind(others, kind),
        forall|kind: FileChangeKind| #[trigger]
            disk_of_kind(events, disk, kind) == disk_of_kind(others, other_disk, kind),
    ensures
        after_events(tree, events, disk) == after_events(tree, others, other_disk),
        updates_for(events) == updates_for(others),
{
    law_updates_count_events(events);
    law_updates_count_events(others);
}

/// What the disk shows of the paths of events.
pub open spec fn shown_on(
    disk: spec_fn(PathView) -> DiskState,
    events: Seq<ChangeView>,
) -> Seq<DiskState> {
    Seq::new(events.len(), |i: int| disk(events[i].path))
}

/// The same for one disk that both batches see: the paths of each kind decide alone.
pub proof fn law_kinds_are_independent_on_one_disk(
    tree: TreeModel,
    events: Seq<ChangeView>,
    others: Seq<ChangeView>,
    disk: spec_fn(PathView) -> DiskState,
)
    requires
        forall|kind: FileChangeKind| #[trigger]
            paths_of_kind(events, kind) == paths_of_kind(others, kind),
    ensures
        after_events(tree, events, shown_on(disk, events)) == after_events(
            tree,
            others,
            shown_on(disk, others),
        ),
        updates_for(events) == updates_for(others),
{
    assert forall|kind: FileChangeKind| #[trigger]
        disk_of_kind(events, shown_on(disk, events), kind) == disk_of_kind(
            others,
            shown_on(disk, others),
            kind,
        ) by {
        lemma_shown_of_kind(events, disk, kind);
        lemma_shown_of_kind(others, disk, kind);
        assert(paths_of_kind(events, kind) == paths_of_kind(others, kind));
        assert(disk_of_kind(events, shown_on(disk, events), kind) =~= disk_of_kind(
            others,
            shown_on(disk, others),
            kind,
        ));
    }
    law_kinds_are_independent(
        tree,
        events,
        shown_on(disk, events),
        others,
        shown_on(disk, others),
    );
}

proof fn lemma_shown_of_kind(
    events: Seq<ChangeView>,
    disk: spec_fn(PathView) -> DiskState,
    kind: FileChangeKind,
)
    ensures
        disk_of_kind(events, shown_on(disk, events), kind).len() == paths_of_kind(
            events,
            kind,
        ).len(),
        forall|i: int|
            0 <= i < paths_of_kind(events, kind).len() ==> #[trigger] disk_of_kind(
                events,
                shown_on(disk, events),
                kind,
            )[i] == disk(paths_of_kind(events, kind)[i]),
    decreases events.len(),
{
    if events.len() > 0 {
        lemma_shown_of_kind(events.drop_last(), disk, kind);
        assert(shown_on(disk, events).drop_last() =~= shown_on(disk, events.drop_last()));
    }
}

/// Handling events keeps a tree well-formed, and so within its limit.
pub proof fn law_batch_keeps_bound(
    tree: TreeModel,
    events: Seq<ChangeView>,
    disk: Seq<DiskState>,
)
    requires
        tree.wf(),
    ensures
        after_events(tree, events, disk).wf(),
        after_events(tree, events, disk).entries.len() <= after_events(
            tree,
            events,
            disk,
        ).limit(),
        after_events(tree, events, disk).max_entries == tree.max_entries,
{
    let created = after_kind(tree, events, disk, FileChangeKind::Create);
    let modified = after_kind(created, events, disk, FileChangeKind::Modify);
    let removed = after_kind(modified, events, disk, FileChangeKind::Remove);
    lemma_kind_keeps_bound(tree, events, disk, FileChangeKind::Create);
    lemma_kind_keeps_bound(created, events, disk, FileChangeKind::Modify);
    lemma_kind_keeps_bound(modified, events, disk, FileChangeKind::Remove);
    lemma_kind_keeps_bound(removed, events, disk, FileChangeKind::Rename);
}

proof fn lemma_kind_keeps_bound(
    tree: TreeModel,
    events: Seq<ChangeView>,
    disk: Seq<DiskState>,
    kind: FileChangeKind,
)
    requires
        tree.wf(),
    ensures
        after_kind(tree, events, disk, kind).wf(),
        after_kind(tree, events, disk, kind).max_entries == tree.max_entries,
{
    lemma_disk_of_kind_len(events, disk, kind);
    let paths = paths_of_kind(events, kind);
    let shown = disk_of_kind(events, disk, kind);
    law_event_keeps_bound(tree, effect_of(kind), paths, shown);
    lemma_event_keeps_max(tree, effect_of(kind), paths, shown);
}

/// Removing paths leaves nothing at or below any of them.
proof fn lemma_remove_all(
    tree: TreeModel,
    paths: Seq<PathView>,
    disk: Seq<DiskState>,
    index: int,
    path: PathView,
)
    requires
        0 <= index < paths.len(),
        is_under(path, paths[index]),
    ensures
        !holds(tree.observe_all(EventKind::Remove, paths, disk).entries, path),
    decreases paths.len(),
{
    let before = tree.observe_all(EventKind::Remove, paths.drop_last(), disk.drop_last());
    let after = before.remove(paths.last());
    lemma_filter_items(before.entries, outside(paths.last()));
    lemma_holds_entry(after.entries, path);
    lemma_holds_entry(before.entries, path);
    if index < paths.len() - 1 {
        assert(paths.drop_last()[index] == paths[index]);
        lemma_remove_all(tree, paths.drop_last(), disk.drop_last(), index, path);
    }
}

/// Adding or updating paths makes no other path appear.
proof fn lemma_nothing_else_appears(
    tree: TreeModel,
    kind: EventKind,
    paths: Seq<PathView>,
    disk: Seq<DiskState>,
    path: PathView,
)
    requires
        tree.wf(),
        kind is Modify || kind is Create,
        paths.len() == disk.len(),
        !holds(tree.entries, path),
        !paths.contains(path),
    ensures
        !holds(tree.observe_all(kind, paths, disk).entries, path),
    decreases paths.len(),
{
    if paths.len() > 0 {
        let rest = paths.drop_last();
        let before = tree.observe_all(kind, rest, disk.drop_last());
        law_event_keeps_bound(tree, kind, rest, disk.drop_last());
        assert(!rest.contains(path)) by {
            if rest.contains(path) {
                let i = choose|i: int| 0 <= i < rest.len() && rest[i] == path;
                assert(paths[i] == path);
            }
        }
        lemma_nothing_else_appears(tree, kind, rest, disk.drop_last(), path);
        let last = paths.last();
        assert(paths[paths.len() - 1] == last);
        law_add_evicts_least_recently_used(before, last, disk.last().metadata, path);
        let added = before.add(last, disk.last().metadata);
        if holds(added.entries, path) {
            lemma_lookup_contains(added.entries, path);
        }
        if kind is Modify {
            if let Some(entry) = lookup(before.entries, last) {
                let refreshed = before.update(last, disk.last().metadata);
                lemma_in_front(before.entries, last, refreshed.entries[0].1);
                lemma_holds_entry(refreshed.entries, path);
                lemma_holds_entry(before.entries, path);
            }
        }
    }
}

/// A deleted file does not stay visible: once events are handled, nothing at or below a path that
/// one of them removed is left, but for what another one of them renamed.
pub proof fn law_removed_paths_disappear(
    tree: TreeModel,
    events: Seq<ChangeView>,
    disk: Seq<DiskState>,
    index: int,
    path: PathView,
)
    requires
        tree.wf(),
        0 <= index < events.len(),
        events[index].kind == FileChangeKind::Remove,
        is_under(path, events[index].path),
        forall|j: int|
            0 <= j < events.len() && (#[trigger] events[j]).kind == FileChangeKind::Rename
                ==> events[j].path != path,
    ensures
        lookup(after_events(tree, events, disk).entries, path) is None,
{
    let created = after_kind(tree, events, disk, FileChangeKind::Create);
    let modified = after_kind(created, events, disk, FileChangeKind::Modify);
    let removed = after_kind(modified, events, disk, FileChangeKind::Remove);
    lemma_kind_keeps_bound(tree, events, disk, FileChangeKind::Create);
    lemma_kind_keeps_bound(created, events, disk, FileChangeKind::Modify);
    lemma_kind_keeps_bound(modified, events, disk, FileChangeKind::Remove);
    lemma_paths_of_kind(events, FileChangeKind::Remove, events[index].path);
    let removes = paths_of_kind(events, FileChangeKind::Remove);
    let k = choose|k: int| 0 <= k < removes.len() && removes[k] == events[index].path;
    lemma_remove_all(
        modified,
        removes,
        disk_of_kind(events, disk, FileChangeKind::Remove),
        k,
        path,
    );
    lemma_paths_of_kind(events, FileChangeKind::Rename, path);
    lemma_disk_of_kind_len(events, disk, FileChangeKind::Rename);
    lemma_nothing_else_appears(
        removed,
        effect_of(FileChangeKind::Rename),
        paths_of_kind(events, FileChangeKind::Rename),
        disk_of_kind(events, disk, FileChangeKind::Rename),
        path,
    );
}

/// A refreshed tree holds nothing but what the scan found. Where the scan found no more paths than
/// the tree can hold, and none twice, the tree holds all of them, as the disk shows them.
pub proof fn law_refresh_rebuilds(
    tree: TreeModel,
    paths: Seq<PathView>,
    disk: Seq<DiskState>,
    path: PathView,
)
    requires
        tree.wf(),
        paths.len() == disk.len(),
    ensures
        holds(tree.cleared().observe_all(EventKind::Create, paths, disk).entries, path)
            ==> paths.contains(path),
        paths.no_duplicates() && paths.len() <= tree.limit() ==> forall|i: int|
            0 <= i < paths.len() ==> lookup(
                tree.cleared().observe_all(EventKind::Create, paths, disk).entries,
                #[trigger] paths[i],
            ) == Some(entry_from(paths[i], disk[i].metadata)),
        tree.cleared().observe_all(EventKind::Create, paths, disk).expanded.len() == 0,
{
    let empty = tree.cleared();
    assert(empty.wf());
    if !paths.contains(path) {
        lemma_nothing_else_appears(empty, EventKind::Create, paths, disk, path);
    }
    if paths.no_duplicates() && paths.len() <= tree.limit() {
        lemma_all_are_added(empty, paths, disk);
    }
    lemma_create_keeps_expanded(empty, paths, disk);
}

proof fn lemma_create_keeps_expanded(
    tree: TreeModel,
    paths: Seq<PathView>,
    disk: Seq<DiskState>,
)
    ensures
        tree.observe_all(EventKind::Create, paths, disk).expanded == tree.expanded,
    decreases paths.len(),
{
    if paths.len() > 0 {
        lemma_create_keeps_expanded(tree, paths.drop_last(), disk.drop_last());
    }
}

proof fn lemma_all_are_added(tree: TreeModel, paths: Seq<PathView>, disk: Seq<DiskState>)
    requires
        tree.wf(),
        tree.entries.len() == 0,
        paths.len() == disk.len(),
        paths.no_duplicates(),
        paths.len() <= tree.limit(),
    ensures
        tree.observe_all(EventKind::Create, paths, disk).wf(),
        tree.observe_all(EventKind::Create, paths, disk).entries.len() == paths.len(),
        forall|i: int|
            0 <= i < paths.len() ==> lookup(
                tree.observe_all(EventKind::Create, paths, disk).entries,
                #[trigger] paths[i],
            ) == Some(entry_from(paths[i], disk[i].metadata)),
    decreases paths.len(),
{
    if paths.len() > 0 {
        let rest = paths.drop_last();
        let shown = disk.drop_last();
        let before = tree.observe_all(EventKind::Create, rest, shown);
        let after = tree.observe_all(EventKind::Create, paths, disk);
        let last = paths.last();
        assert(rest.no_duplicates()) by {
            assert forall|i: int, j: int|
                0 <= i < rest.len() && 0 <= j < rest.len() && i != j implies #[trigger] rest[i]
                != #[trigger] rest[j] by {
                assert(rest[i] == paths[i] && rest[j] == paths[j]);
            }
        }
        lemma_all_are_added(tree, rest, shown);
        lemma_event_keeps_max(tree, EventKind::Create, rest, shown);
        assert(!rest.contains(last)) by {
            if rest.contains(last) {
                let i = choose|i: int| 0 <= i < rest.len() && rest[i] == last;
                assert(paths[i] == paths[paths.len() - 1]);
            }
        }
        lemma_nothing_else_appears(tree, EventKind::Create, rest, shown, last);
        law_add_keeps_wf(before, last, disk.last().metadata);
        law_added_entry_is_found(before, last, disk.last().metadata);
        lemma_in_front(before.entries, last, entry_from(last, disk.last().metadata));
        assert forall|i: int| 0 <= i < paths.len() implies lookup(
            after.entries,
            #[trigger] paths[i],
        ) == Some(entry_from(paths[i], disk[i].metadata)) by {
            if i < rest.len() {
                assert(rest[i] == paths[i] && shown[i] == disk[i]);
                assert(rest[i] != last) by {
                    assert(rest.contains(rest[i]));
                }
                law_add_evicts_least_recently_used(
                    before,
                    last,
                    disk.last().metadata,
                    paths[i],
                );
            }
        }
    }
}

/// The stage at which the events of a kind are handled.
pub open spec fn stage(kind: FileChangeKind) -> int {
    match kind {
        FileChangeKind::Create => 0,
        FileChangeKind::Modify => 1,
        FileChangeKind::Remove => 2,
        FileChangeKind::Rename => 3,
    }
}

/// A tree after one event for a path: a creation adds it, a removal takes it out with all that is
/// below it, and a modification or a rename brings it up to date.
pub open spec fn after_change(tree: TreeModel, change: ChangeView, disk: DiskState) -> TreeModel {
    if change.kind == FileChangeKind::Create {
        tree.add(change.path, disk.metadata)
    } else if change.kind == FileChangeKind::Remove {
        tree.remove(change.path)
    } else {
        tree.update(change.path, disk.metadata)
    }
}

/// The paths and the states of the disk after one more event.
proof fn lemma_of_kind_push(
    events: Seq<ChangeView>,
    disk: Seq<DiskState>,
    event: ChangeView,
    shown: DiskState,
    kind: FileChangeKind,
)
    requires
        events.len() == disk.len(),
    ensures
        paths_of_kind(events.push(event), kind) == (if event.kind == kind {
            paths_of_kind(events, kind).push(event.path)
        } else {
            paths_of_kind(events, kind)
        }),
        disk_of_kind(events.push(event), disk.push(shown), kind) == (if event.kind == kind {
            disk_of_kind(events, disk, kind).push(shown)
        } else {
            disk_of_kind(events, disk, kind)
        }),
{
    assert(events.push(event).drop_last() =~= events);
    assert(disk.push(shown).drop_last() =~= disk);
}

/// The tree after the events of a kind and one more event.
proof fn lemma_after_kind_push(
    tree: TreeModel,
    events: Seq<ChangeView>,
    disk: Seq<DiskState>,
    event: ChangeView,
    shown: DiskState,
    kind: FileChangeKind,
)
    requires
        events.len() == disk.len(),
    ensures
        after_kind(tree, events.push(event), disk.push(shown), kind) == (if event.kind == kind {
            after_change(after_kind(tree, events, disk, kind), event, shown)
        } else {
            after_kind(tree, events, disk, kind)
        }),
{
    lemma_of_kind_push(events, disk, event, shown, kind);
    let paths = paths_of_kind(events, kind);
    let states = disk_of_kind(events, disk, kind);
    assert(paths.push(event.path).drop_last() =~= paths);
    assert(states.push(shown).drop_last() =~= states);
}

/// Where no event is of a kind, the stage of that kind changes nothing.
proof fn lemma_after_absent_kind(
    tree: TreeModel,
    events: Seq<ChangeView>,
    disk: Seq<DiskState>,
    kind: FileChangeKind,
)
    requires
        forall|i: int| 0 <= i < events.len() ==> (#[trigger] events[i]).kind != kind,
    ensures
        after_kind(tree, events, disk, kind) == tree,
{
    let paths = paths_of_kind(events, kind);
    if paths.len() > 0 {
        assert(paths.contains(paths[0]));
        lemma_paths_of_kind(events, kind, paths[0]);
    }
}

/// An event that no event of a later stage comes before is handled last: the batch with it does
/// what the batch without it does, and then what the event does by itself.
pub proof fn law_event_of_the_last_stage_is_handled_last(
    tree: TreeModel,
    events: Seq<ChangeView>,
    disk: Seq<DiskState>,
    event: ChangeView,
    shown: DiskState,
)
    requires
        events.len() == disk.len(),
        forall|i: int|
            0 <= i < events.len() ==> stage((#[trigger] events[i]).kind) <= stage(event.kind),
    ensures
        after_events(tree, events.push(event), disk.push(shown)) == after_change(
            after_events(tree, events, disk),
            event,
            shown,
        ),
{
    let more = events.push(event);
    let states = disk.push(shown);
    assert forall|kind: FileChangeKind, start: TreeModel|
        stage(kind) > stage(event.kind) implies #[trigger] after_kind(start, events, disk, kind)
        == start by {
        lemma_after_absent_kind(start, events, disk, kind);
    }
    assert forall|kind: FileChangeKind, start: TreeModel| #[trigger]
        after_kind(start, more, states, kind) == (if event.kind == kind {
            after_change(after_kind(start, events, disk, kind), event, shown)
        } else {
            after_kind(start, events, disk, kind)
        }) by {
        lemma_after_kind_push(start, events, disk, event, shown, kind);
    }
    let created = after_kind(tree, events, disk, FileChangeKind::Create);
    let modified = after_kind(created, events, disk, FileChangeKind::Modify);
    let removed = after_kind(modified, events, disk, FileChangeKind::Remove);
    let created_more = after_kind(tree, more, states, FileChangeKind::Create);
    let modified_more = after_kind(created_more, more, states, FileChangeKind::Modify);
    let removed_more = after_kind(modified_more, more, states, FileChangeKind::Remove);
    let all_more = after_kind(removed_more, more, states, FileChangeKind::Rename);
    assert(after_events(tree, more, states) == all_more);
}

/// It makes no difference in what order events of different stages come: swapping two neighbours
/// of different kinds changes nothing.
pub proof fn law_stages_do_not_depend_on_order(
    tree: TreeModel,
    events: Seq<ChangeView>,
    disk: Seq<DiskState>,
    first: ChangeView,
    first_shown: DiskState,
    second: ChangeView,
    second_shown: DiskState,
)
    requires
        events.len() == disk.len(),
        first.kind != second.kind,
    ensures
        after_events(
            tree,
            events.push(first).push(second),
            disk.push(first_shown).push(second_shown),
        ) == after_events(
            tree,
            events.push(second).push(first),
            disk.push(second_shown).push(first_shown),
        ),
        updates_for(events.push(first).push(second)) == updates_for(
            events.push(second).push(first),
        ),
{
    let left = events.push(first).push(second);
    let right = events.push(second).push(first);
    let left_disk = disk.push(first_shown).push(second_shown);
    let right_disk = disk.push(second_shown).push(first_shown);
    assert forall|kind: FileChangeKind| #[trigger]
        paths_of_kind(left, kind) == paths_of_kind(right, kind) by {
        lemma_of_kind_push(events, disk, first, first_shown, kind);
        lemma_of_kind_push(events.push(first), disk.push(first_shown), second, second_shown, kind);
        lemma_of_kind_push(events, disk, second, second_shown, kind);
        lemma_of_kind_push(events.push(second), disk.push(second_shown), first, first_shown, kind);
    }
    assert forall|kind: FileChangeKind| #[trigger]
        disk_of_kind(left, left_disk, kind) == disk_of_kind(right, right_disk, kind) by {
        lemma_of_kind_push(events, disk, first, first_shown, kind);
        lemma_of_kind_push(events.push(first), disk.push(first_shown), second, second_shown, kind);
        lemma_of_kind_push(events, disk, second, second_shown, kind);
        lemma_of_kind_push(events.push(second), disk.push(second_shown), first, first_shown, kind);
    }
    law_kinds_are_independent(tree, left, left_disk, right, right_disk);
}

/// Updates come stage by stage, and each is marked as a batch exactly if there are several events.
pub proof fn law_updates_come_by_stage(events: Seq<ChangeView>)
    ensures
        forall|i: int, j: int|
            0 <= i < j < updates_for(events).len() ==> stage(
                (#[trigger] updates_for(events)[i]).kind,
            ) < stage((#[trigger] updates_for(events)[j]).kind),
        forall|i: int|
            0 <= i < updates_for(events).len() ==> ((#[trigger] updates_for(events)[i]).is_batch
                <==> events.len() > 1),
{
}

/// One more event adds its path, behind the others, to the update of its kind, or makes an update
/// of it where there was none; the paths of the updates of other kinds stay as they are.
pub proof fn law_update_takes_in_one_more_event(
    events: Seq<ChangeView>,
    event: ChangeView,
    update: UpdateView,
)
    requires
        updates_for(events.push(event)).contains(update),
    ensures
        update.is_batch <==> events.len() > 0,
        update.kind == event.kind ==> update.paths.len() > 0 && update.paths.last() == event.path,
        update.kind == event.kind && update.paths.len() > 1 ==> updates_for(events).contains(
            (UpdateView {
                paths: update.paths.drop_last(),
                kind: update.kind,
                is_batch: events.len() > 1,
            }),
        ),
        update.kind == event.kind && update.paths.len() == 1 ==> forall|i: int|
            0 <= i < updates_for(events).len() ==> (#[trigger] updates_for(events)[i]).kind
                != event.kind,
        update.kind != event.kind ==> updates_for(events).contains(
            (UpdateView { paths: update.paths, kind: update.kind, is_batch: events.len() > 1 }),
        ),
{
    let states = Seq::new(events.len(), |i: int| DiskState { exists: false, metadata: None });
    let shown = DiskState { exists: false, metadata: None };
    lemma_of_kind_push(events, states, event, shown, update.kind);
    lemma_updates_contain(events.push(event), update);
    let before = paths_of_kind(events, update.kind);
    assert(before.push(event.path).drop_last() =~= before);
    lemma_updates_contain(
        events,
        UpdateView { paths: before, kind: update.kind, is_batch: events.len() > 1 },
    );
    assert forall|i: int|
        0 <= i < updates_for(events).len() && update.kind == event.kind && update.paths.len()
            == 1 implies (#[trigger] updates_for(events)[i]).kind != event.kind by {
        assert(updates_for(events).contains(updates_for(events)[i]));
        lemma_updates_contain(events, updates_for(events)[i]);
    }
}

} // verus!
