//! What holds of every file tree.

use crate::path::{is_under, parent_of, PathView};
use crate::path_set::other_than;
use crate::repo_metadata::entry::{entry_from, entry_refreshed, EntryView, FileMetadata};
use crate::repo_metadata::entry_list::{
    distinct, holds, in_front, lemma_filter_distinct, lemma_filter_items, lemma_holds_entry,
    lemma_in_front, lemma_lookup, lemma_lookup_contains, lookup, under_other_key, EntryList,
};
use crate::repo_metadata::event::{DiskState, EventKind};
use crate::repo_metadata::file_tree_store::{is_child, summary, values};
use crate::repo_metadata::tree_model::{
    law_add_keeps_wf, law_enforced_keeps_wf, law_observe_keeps_wf, law_put_keeps_wf,
    law_remove_keeps_wf, law_touch_keeps_wf, law_update_keeps_wf, lemma_filter_no_duplicates,
    lemma_observe_all_grows, outside, stays_expanded, TreeModel,
};
use crate::sequences::{lemma_push_contains, lemma_push_no_duplicates};
use crate::text::{is_numeral, law_decimal_is_the_only_numeral, number_of};
use vstd::prelude::*;

verus! {

/// Lists that hold the same under a key find the same under it.
proof fn lemma_lookup_same(first: EntryList, second: EntryList, key: PathView)
    requires
        distinct(first),
        distinct(second),
        forall|entry: EntryView|
            #[trigger] first.contains((key, entry)) == second.contains((key, entry)),
    ensures
        lookup(first, key) == lookup(second, key),
{
    lemma_holds_entry(first, key);
    lemma_holds_entry(second, key);
    if holds(first, key) {
        lemma_lookup_contains(first, key);
        let entry = lookup(first, key).unwrap();
        assert(first.contains((key, entry)));
        lemma_lookup(second, key, entry);
    } else if holds(second, key) {
        lemma_lookup_contains(second, key);
        let entry = lookup(second, key).unwrap();
        assert(first.contains((key, entry)) == second.contains((key, entry)));
    }
}

/// A tree never holds more entries than it is meant to, unless it is meant to hold none: then it
/// may hold one.
pub proof fn law_tree_is_bounded(tree: TreeModel)
    requires
        tree.wf(),
    ensures
        tree.max_entries > 0 ==> tree.entries.len() <= tree.max_entries,
        tree.max_entries == 0 ==> tree.entries.len() <= 1,
{
}

/// An event, whatever its kind and however many paths it has, keeps a tree well-formed and leaves
/// it within the number of entries that it is meant to hold.
pub proof fn law_event_keeps_bound(
    tree: TreeModel,
    kind: EventKind,
    paths: Seq<PathView>,
    disk: Seq<DiskState>,
)
    requires
        tree.wf(),
        paths.len() == disk.len(),
    ensures
        tree.observe_all(kind, paths, disk).wf(),
        tree.observe_all(kind, paths, disk).enforced().wf(),
        tree.observe_all(kind, paths, disk).enforced().entries.len() <= tree.max_entries,
    decreases paths.len(),
{
    if paths.len() > 0 {
        law_event_keeps_bound(tree, kind, paths.drop_last(), disk.drop_last());
        law_observe_keeps_wf(
            tree.observe_all(kind, paths.drop_last(), disk.drop_last()),
            kind,
            paths.last(),
            disk.last(),
        );
    }
    lemma_event_keeps_max(tree, kind, paths, disk);
    law_enforced_keeps_wf(tree.observe_all(kind, paths, disk));
}

/// An event leaves the number of entries that a tree is meant to hold as it is.
pub proof fn lemma_event_keeps_max(
    tree: TreeModel,
    kind: EventKind,
    paths: Seq<PathView>,
    disk: Seq<DiskState>,
)
    ensures
        tree.observe_all(kind, paths, disk).max_entries == tree.max_entries,
    decreases paths.len(),
{
    if paths.len() > 0 {
        lemma_event_keeps_max(tree, kind, paths.drop_last(), disk.drop_last());
    }
}

/// An event is applied to its paths one after the other: creations add, removals remove,
/// modifications and renames update, accesses do nothing, and any other event updates a path that
/// exists and removes one that does not. In a tree that is meant to hold anything, no more happens.
pub proof fn law_event_is_applied_path_by_path(
    tree: TreeModel,
    kind: EventKind,
    paths: Seq<PathView>,
    disk: Seq<DiskState>,
)
    requires
        tree.wf(),
        tree.max_entries >= 1,
        paths.len() == disk.len(),
    ensures
        paths.len() == 0 ==> tree.observe_all(kind, paths, disk).enforced() == tree,
        paths.len() > 0 ==> tree.observe_all(kind, paths, disk).enforced() == ({
            let before = tree.observe_all(kind, paths.drop_last(), disk.drop_last()).enforced();
            match kind {
                EventKind::Create => before.add(paths.last(), disk.last().metadata),
                EventKind::Remove => before.remove(paths.last()),
                EventKind::Modify(_) => before.update(paths.last(), disk.last().metadata),
                EventKind::Access => before,
                EventKind::Other | EventKind::Any => if disk.last().exists {
                    before.update(paths.last(), disk.last().metadata)
                } else {
                    before.remove(paths.last())
                },
            }
        }),
        kind is Access ==> tree.observe_all(kind, paths, disk).enforced() == tree,
{
    law_event_keeps_bound(tree, kind, paths, disk);
    lemma_event_keeps_max(tree, kind, paths, disk);
    if paths.len() > 0 {
        law_event_keeps_bound(tree, kind, paths.drop_last(), disk.drop_last());
        lemma_event_keeps_max(tree, kind, paths.drop_last(), disk.drop_last());
    }
    law_access_changes_nothing(tree, paths, disk);
}

/// A call that changes a tree.
pub enum TreeCall {
    Put(EntryView),
    Add(PathView, Option<FileMetadata>),
    Update(PathView, Option<FileMetadata>),
    Remove(PathView),
    Get(PathView),
    Expand(PathView),
    Collapse(PathView),
    Clear,
    Event(EventKind, Seq<PathView>, Seq<DiskState>),
}

impl TreeCall {
    /// For every path of an event there is a state of the disk.
    pub open spec fn wf(self) -> bool {
        self matches TreeCall::Event(_, paths, disk) ==> paths.len() == disk.len()
    }

    /// The tree after the call.
    pub open spec fn applied(self, tree: TreeModel) -> TreeModel {
        match self {
            TreeCall::Put(entry) => tree.put(entry),
            TreeCall::Add(path, metadata) => tree.add(path, metadata),
            TreeCall::Update(path, metadata) => tree.update(path, metadata),
            TreeCall::Remove(path) => tree.remove(path),
            TreeCall::Get(path) => tree.touch(path),
            TreeCall::Expand(path) => tree.expand(path),
            TreeCall::Collapse(path) => tree.collapse(path),
            TreeCall::Clear => tree.cleared(),
            TreeCall::Event(kind, paths, disk) => tree.observe_all(kind, paths, disk).enforced(),
        }
    }
}

/// A tree after calls, one after the other.
pub open spec fn after_calls(tree: TreeModel, calls: Seq<TreeCall>) -> TreeModel
    decreases calls.len(),
{
    if calls.len() == 0 {
        tree
    } else {
        calls.last().applied(after_calls(tree, calls.drop_last()))
    }
}

/// Whatever calls a tree has been through, it is well-formed and holds no more entries than it was
/// made for, or one where it was made for none. Where the last call was an event, it holds no more
/// than it was made for in any case.
pub proof fn law_any_history_is_bounded(max_entries: nat, calls: Seq<TreeCall>)
    requires
        forall|i: int| 0 <= i < calls.len() ==> (#[trigger] calls[i]).wf(),
    ensures
        after_calls(TreeModel::empty(max_entries), calls).wf(),
        after_calls(TreeModel::empty(max_entries), calls).max_entries == max_entries,
        max_entries > 0 ==> after_calls(TreeModel::empty(max_entries), calls).entries.len()
            <= max_entries,
        max_entries == 0 ==> after_calls(TreeModel::empty(max_entries), calls).entries.len() <= 1,
        calls.len() > 0 && calls.last() is Event ==> after_calls(
            TreeModel::empty(max_entries),
            calls,
        ).entries.len() <= max_entries,
    decreases calls.len(),
{
    if calls.len() > 0 {
        let rest = calls.drop_last();
        assert forall|i: int| 0 <= i < rest.len() implies (#[trigger] rest[i]).wf() by {
            assert(rest[i] == calls[i]);
        }
        law_any_history_is_bounded(max_entries, rest);
        assert(calls[calls.len() - 1].wf());
        lemma_call_keeps_wf(after_calls(TreeModel::empty(max_entries), rest), calls.last());
    }
}

proof fn lemma_call_keeps_wf(tree: TreeModel, call: TreeCall)
    requires
        tree.wf(),
        call.wf(),
    ensures
        call.applied(tree).wf(),
        call.applied(tree).max_entries == tree.max_entries,
        call is Event ==> call.applied(tree).entries.len() <= tree.max_entries,
{
    match call {
        TreeCall::Put(entry) => law_put_keeps_wf(tree, entry),
        TreeCall::Add(path, metadata) => law_add_keeps_wf(tree, path, metadata),
        TreeCall::Update(path, metadata) => law_update_keeps_wf(tree, path, metadata),
        TreeCall::Remove(path) => law_remove_keeps_wf(tree, path),
        TreeCall::Get(path) => law_touch_keeps_wf(tree, path),
        TreeCall::Expand(path) => {
            lemma_push_no_duplicates(tree.expanded, path);
        },
        TreeCall::Collapse(path) => lemma_filter_no_duplicates(tree.expanded, other_than(path)),
        TreeCall::Clear => {},
        TreeCall::Event(kind, paths, disk) => {
            law_event_keeps_bound(tree, kind, paths, disk);
            lemma_event_keeps_max(tree, kind, paths, disk);
        },
    }
}

/// Counters never go down in the course of an event.
pub proof fn law_counters_never_fall(
    tree: TreeModel,
    kind: EventKind,
    paths: Seq<PathView>,
    disk: Seq<DiskState>,
)
    requires
        paths.len() == disk.len(),
    ensures
        tree.stats.at_most(tree.observe_all(kind, paths, disk).stats),
        tree.stats.at_most(tree.observe_all(kind, paths, disk).enforced().stats),
{
    lemma_observe_all_grows(tree, kind, paths, disk, 0);
}

/// Accesses change nothing.
pub proof fn law_access_changes_nothing(
    tree: TreeModel,
    paths: Seq<PathView>,
    disk: Seq<DiskState>,
)
    ensures
        tree.observe_all(EventKind::Access, paths, disk) == tree,
    decreases paths.len(),
{
    if paths.len() > 0 {
        law_access_changes_nothing(tree, paths.drop_last(), disk.drop_last());
    }
}

/// What was added is found, and is the most recently used entry.
pub proof fn law_added_entry_is_found(
    tree: TreeModel,
    path: PathView,
    metadata: Option<FileMetadata>,
)
    requires
        tree.wf(),
    ensures
        tree.add(path, metadata).entries[0] == (path, entry_from(path, metadata)),
        lookup(tree.add(path, metadata).entries, path) == Some(entry_from(path, metadata)),
{
    law_add_keeps_wf(tree, path, metadata);
    let entries = tree.add(path, metadata).entries;
    assert(entries[0] == (path, entry_from(path, metadata)));
    lemma_lookup(entries, path, entry_from(path, metadata));
}

/// Adding an entry changes nothing under other paths, but that it may push out the least recently
/// used entry: where the tree is full and the path is new.
pub proof fn law_add_evicts_least_recently_used(
    tree: TreeModel,
    path: PathView,
    metadata: Option<FileMetadata>,
    other: PathView,
)
    requires
        tree.wf(),
        other != path,
    ensures
        lookup(tree.add(path, metadata).entries, other) == (if tree.evicts(path) && other
            == tree.entries.last().0 {
            None
        } else {
            lookup(tree.entries, other)
        }),
{
    let entry = entry_from(path, metadata);
    let entries = tree.add(path, metadata).entries;
    law_add_keeps_wf(tree, path, metadata);
    lemma_in_front(tree.entries, path, entry);
    if tree.evicts(path) {
        let rest = tree.entries.drop_last();
        assert(entries == seq![(path, entry)] + rest);
        let last = tree.entries[tree.entries.len() - 1];
        assert forall|value: EntryView| #[trigger] entries.contains((other, value)) == (
        tree.entries.contains((other, value)) && other != last.0) by {
            if entries.contains((other, value)) {
                let i = choose|i: int| 0 <= i < entries.len() && entries[i] == (other, value);
                assert(tree.entries[i - 1] == (other, value));
                assert(tree.entries[i - 1].0 != last.0);
            }
            if tree.entries.contains((other, value)) && other != last.0 {
                let i = choose|i: int|
                    0 <= i < tree.entries.len() && tree.entries[i] == (other, value);
                assert(entries[i + 1] == (other, value));
            }
        }
        if other == last.0 {
            lemma_holds_entry(entries, other);
        } else {
            lemma_lookup_same(entries, tree.entries, other);
        }
    } else {
        assert(entries == in_front(tree.entries, path, entry));
        lemma_lookup_same(entries, tree.entries, other);
    }
}

/// Every entry is accounted for: a new path makes one entry more, less the one that is counted as
/// evicted.
pub proof fn law_evictions_are_counted(
    tree: TreeModel,
    path: PathView,
    metadata: Option<FileMetadata>,
)
    requires
        tree.wf(),
    ensures
        tree.add(path, metadata).entries.len() + tree.add(path, metadata).stats.total_evictions
            == tree.entries.len() + tree.stats.total_evictions + (if holds(tree.entries, path) {
            0int
        } else {
            1int
        }),
{
    lemma_in_front(tree.entries, path, entry_from(path, metadata));
}

/// After an update the path has an entry with the state of the disk; an entry that was there is
/// kept up to date in place, and nothing is evicted for it.
pub proof fn law_update_refreshes_or_adds(
    tree: TreeModel,
    path: PathView,
    metadata: Option<FileMetadata>,
    other: PathView,
)
    requires
        tree.wf(),
        other != path,
    ensures
        lookup(tree.update(path, metadata).entries, path) == Some(
            match lookup(tree.entries, path) {
                Some(entry) => entry_refreshed(entry, metadata),
                None => entry_from(path, metadata),
            },
        ),
        holds(tree.entries, path) ==> lookup(tree.update(path, metadata).entries, other) == lookup(
            tree.entries,
            other,
        ),
        holds(tree.entries, path) ==> tree.update(path, metadata).entries.len()
            == tree.entries.len(),
{
    match lookup(tree.entries, path) {
        Some(entry) => {
            let fresh = entry_refreshed(entry, metadata);
            let entries = tree.update(path, metadata).entries;
            lemma_in_front(tree.entries, path, fresh);
            assert(entries[0] == (path, fresh));
            lemma_lookup(entries, path, fresh);
            lemma_lookup_same(entries, tree.entries, other);
        },
        None => {
            law_added_entry_is_found(tree, path, metadata);
        },
    }
}

/// After a removal nothing at or below the path is left, and everything else is as it was.
pub proof fn law_removed_subtree_is_gone(tree: TreeModel, path: PathView, other: PathView)
    requires
        tree.wf(),
    ensures
        lookup(tree.remove(path).entries, other) == (if is_under(other, path) {
            None
        } else {
            lookup(tree.entries, other)
        }),
{
    let rest = tree.remove(path).entries;
    lemma_filter_items(tree.entries, outside(path));
    lemma_filter_distinct(tree.entries, outside(path));
    assert forall|entry: EntryView| #[trigger] rest.contains((other, entry)) == (
    tree.entries.contains((other, entry)) && !is_under(other, path)) by {
        assert(outside(path)((other, entry)) == !is_under(other, path));
    }
    if is_under(other, path) {
        lemma_holds_entry(rest, other);
    } else {
        lemma_lookup_same(rest, tree.entries, other);
    }
}

/// After a removal neither the path nor any entry that went with it is expanded, and every other
/// directory is expanded as it was.
pub proof fn law_removed_subtree_is_collapsed(tree: TreeModel, path: PathView, other: PathView)
    ensures
        tree.remove(path).expanded.contains(other) == (tree.expanded.contains(other) && other
            != path && !(is_under(other, path) && holds(tree.entries, other))),
{
    lemma_filter_items(tree.expanded, stays_expanded(tree.entries, path));
}

/// Removing a path again changes nothing.
pub proof fn law_remove_is_idempotent(tree: TreeModel, path: PathView)
    requires
        tree.wf(),
    ensures
        tree.remove(path).remove(path) == tree.remove(path),
{
    let once = tree.remove(path);
    lemma_filter_items(tree.entries, outside(path));
    assert forall|i: int| 0 <= i < once.entries.len() implies outside(path)(
        #[trigger] once.entries[i],
    ) by {
        assert(once.entries.contains(once.entries[i]));
    }
    crate::path_set::lemma_filter_all(once.entries, outside(path));
    lemma_filter_items(tree.expanded, stays_expanded(tree.entries, path));
    assert forall|i: int| 0 <= i < once.expanded.len() implies stays_expanded(
        once.entries,
        path,
    )(#[trigger] once.expanded[i]) by {
        let dir = once.expanded[i];
        assert(once.expanded.contains(dir));
        if holds(once.entries, dir) {
            lemma_lookup_contains(once.entries, dir);
            assert(outside(path)((dir, lookup(once.entries, dir).unwrap())));
        }
    }
    crate::path_set::lemma_filter_all(once.expanded, stays_expanded(once.entries, path));
    assert(once.remove(path) =~= once);
}

/// Using an entry changes no entry and counts nothing: only the order of use.
pub proof fn law_touch_changes_order_only(tree: TreeModel, path: PathView, other: PathView)
    requires
        tree.wf(),
    ensures
        lookup(tree.touch(path).entries, other) == lookup(tree.entries, other),
        tree.touch(path).entries.len() == tree.entries.len(),
        tree.touch(path).stats == tree.stats,
        holds(tree.entries, path) ==> tree.touch(path).entries[0].0 == path,
{
    if let Some(entry) = lookup(tree.entries, path) {
        lemma_lookup_contains(tree.entries, path);
        let entries = tree.touch(path).entries;
        lemma_in_front(tree.entries, path, entry);
        assert forall|value: EntryView| #[trigger] entries.contains((other, value))
            == tree.entries.contains((other, value)) by {
            if other == path && tree.entries.contains((other, value)) {
                lemma_lookup(tree.entries, path, value);
            }
        }
        lemma_lookup_same(entries, tree.entries, other);
    }
}

/// An expanded directory is expanded, a collapsed one is not, and no other directory changes.
pub proof fn law_expand_and_collapse(tree: TreeModel, path: PathView, other: PathView)
    ensures
        tree.expand(path).expanded.contains(other) == (other == path || tree.expanded.contains(
            other,
        )),
        tree.collapse(path).expanded.contains(other) == (other != path && tree.expanded.contains(
            other,
        )),
        tree.expand(path).entries == tree.entries,
        tree.collapse(path).entries == tree.entries,
{
    lemma_filter_items(tree.expanded, other_than(path));
    lemma_push_contains(tree.expanded, path, other);
}

/// Whether no directory shows a size.
pub open spec fn directories_have_no_size(tree: TreeModel) -> bool {
    forall|path: PathView, entry: EntryView| #[trigger]
        tree.entries.contains((path, entry)) && entry.is_dir ==> entry.size == 0
}

/// Whatever the disk reports, no event gives a directory a size.
pub proof fn law_events_give_directories_no_size(
    tree: TreeModel,
    kind: EventKind,
    path: PathView,
    disk: DiskState,
)
    requires
        tree.wf(),
        directories_have_no_size(tree),
    ensures
        directories_have_no_size(tree.observe(kind, path, disk)),
{
    lemma_add_gives_no_size(tree, path, disk.metadata);
    lemma_filter_items(tree.entries, outside(path));
    if let Some(entry) = lookup(tree.entries, path) {
        lemma_lookup_contains(tree.entries, path);
        lemma_in_front(tree.entries, path, entry_refreshed(entry, disk.metadata));
    }
}

proof fn lemma_add_gives_no_size(tree: TreeModel, path: PathView, metadata: Option<FileMetadata>)
    requires
        tree.wf(),
        directories_have_no_size(tree),
    ensures
        directories_have_no_size(tree.add(path, metadata)),
{
    let entry = entry_from(path, metadata);
    let entries = tree.add(path, metadata).entries;
    lemma_in_front(tree.entries, path, entry);
    assert forall|key: PathView, value: EntryView| #[trigger]
        entries.contains((key, value)) && value.is_dir implies value.size == 0 by {
        if tree.evicts(path) {
            let i = choose|i: int| 0 <= i < entries.len() && entries[i] == (key, value);
            if i > 0 {
                assert(tree.entries[i - 1] == (key, value));
                assert(tree.entries.contains((key, value)));
            }
        } else if key != path {
            assert(tree.entries.contains((key, value)));
        }
    }
}

/// An added entry shows what the filesystem told of its path, and an empty file where it told
/// nothing; nothing else of the tree changes but for the counters.
pub proof fn law_added_entry_shows_the_metadata(
    tree: TreeModel,
    path: PathView,
    metadata: Option<FileMetadata>,
)
    requires
        tree.wf(),
    ensures
        lookup(tree.add(path, metadata).entries, path) matches Some(entry) && entry.path == path
            && entry.dirty == false && match metadata {
            Some(found) => {
                &&& entry.is_dir == found.is_dir
                &&& entry.modified == found.modified
                &&& found.is_dir ==> entry.size == 0
                &&& !found.is_dir ==> entry.size == found.len
            },
            None => !entry.is_dir && entry.size == 0 && entry.modified is None,
        },
        tree.add(path, metadata).expanded == tree.expanded,
        tree.add(path, metadata).max_entries == tree.max_entries,
{
    law_added_entry_is_found(tree, path, metadata);
}

/// After an update the entry under the path shows what the filesystem told, whether or not there
/// was one before. Where it told nothing, an entry that was there keeps what it showed and is
/// marked as dirty.
pub proof fn law_updated_entry_shows_the_metadata(
    tree: TreeModel,
    path: PathView,
    metadata: Option<FileMetadata>,
)
    requires
        tree.wf(),
    ensures
        lookup(tree.update(path, metadata).entries, path) matches Some(entry) && entry.path == path
            && match metadata {
            Some(found) => {
                &&& entry.is_dir == found.is_dir
                &&& entry.modified == found.modified
                &&& found.is_dir ==> entry.size == 0
                &&& !found.is_dir ==> entry.size == found.len
                &&& entry.dirty == false
            },
            None => match lookup(tree.entries, path) {
                Some(before) => {
                    &&& entry.dirty
                    &&& entry.is_dir == before.is_dir
                    &&& entry.size == before.size
                    &&& entry.modified == before.modified
                },
                None => !entry.is_dir && entry.size == 0 && entry.modified is None && !entry.dirty,
            },
        },
        tree.update(path, metadata).entries[0].0 == path,
        tree.update(path, metadata).expanded == tree.expanded,
        tree.update(path, metadata).max_entries == tree.max_entries,
{
    law_added_entry_is_found(tree, path, metadata);
    if let Some(entry) = lookup(tree.entries, path) {
        lemma_lookup_contains(tree.entries, path);
        let k = choose|k: int| 0 <= k < tree.entries.len() && tree.entries[k] == (path, entry);
        assert(tree.entries[k].1.path == tree.entries[k].0);
        let refreshed = entry_refreshed(entry, metadata);
        let after = tree.update(path, metadata).entries;
        lemma_in_front(tree.entries, path, refreshed);
        assert(after.contains((path, refreshed)));
        lemma_lookup(after, path, refreshed);
        assert(after[0] == (path, refreshed));
    }
}

/// A stored entry is found as it is, and nothing is counted for it.
pub proof fn law_stored_entry_is_found(tree: TreeModel, entry: EntryView)
    requires
        tree.wf(),
    ensures
        lookup(tree.put(entry).entries, entry.path) == Some(entry),
        tree.put(entry).entries[0] == (entry.path, entry),
        tree.put(entry).expanded == tree.expanded,
        tree.put(entry).max_entries == tree.max_entries,
        tree.put(entry).stats == tree.stats,
{
    law_put_keeps_wf(tree, entry);
    let entries = tree.put(entry).entries;
    assert(entries[0] == (entry.path, entry));
    lemma_lookup(entries, entry.path, entry);
}

/// Each operation counts what it did and nothing else: an entry that was added, one that was
/// pushed out of a full tree by a new path, one that was refreshed, and every one that was removed.
pub proof fn law_operations_are_counted(
    tree: TreeModel,
    path: PathView,
    metadata: Option<FileMetadata>,
)
    requires
        tree.wf(),
    ensures
        ({
            let room: nat = if tree.max_entries == 0 {
                1
            } else {
                tree.max_entries
            };
            let known = lookup(tree.entries, path) is Some;
            let after = tree.add(path, metadata).stats;
            &&& after.total_adds == tree.stats.total_adds + 1
            &&& after.total_removes == tree.stats.total_removes
            &&& after.total_refreshes == tree.stats.total_refreshes
            &&& after.total_evictions == tree.stats.total_evictions + (if !known
                && tree.entries.len() == room {
                1int
            } else {
                0int
            })
            &&& known ==> tree.add(path, metadata).entries.len() == tree.entries.len()
            &&& !known && tree.entries.len() < room ==> tree.add(path, metadata).entries.len()
                == tree.entries.len() + 1
            &&& !known && tree.entries.len() == room ==> tree.add(path, metadata).entries.len()
                == tree.entries.len()
        }),
        lookup(tree.entries, path) is Some ==> {
            let after = tree.update(path, metadata).stats;
            &&& after.total_refreshes == tree.stats.total_refreshes + 1
            &&& after.total_adds == tree.stats.total_adds
            &&& after.total_removes == tree.stats.total_removes
            &&& after.total_evictions == tree.stats.total_evictions
        },
        lookup(tree.entries, path) is None ==> tree.update(path, metadata) == tree.add(
            path,
            metadata,
        ),
        ({
            let after = tree.remove(path).stats;
            &&& after.total_removes + tree.remove(path).entries.len() == tree.stats.total_removes
                + tree.entries.len()
            &&& after.total_adds == tree.stats.total_adds
            &&& after.total_evictions == tree.stats.total_evictions
            &&& after.total_refreshes == tree.stats.total_refreshes
            &&& tree.remove(path).max_entries == tree.max_entries
        }),
{
    lemma_in_front(tree.entries, path, entry_from(path, metadata));
    lemma_filter_items(tree.entries, outside(path));
}

/// Whether one item comes before another in a list.
pub open spec fn comes_before<A>(list: Seq<A>, first: A, second: A) -> bool {
    exists|a: int, b: int|
        #![trigger list[a], list[b]]
        0 <= a < b < list.len() && list[a] == first && list[b] == second
}

/// Whether the items of a list come in the order of another list.
pub open spec fn comes_in_order<A>(part: Seq<A>, whole: Seq<A>) -> bool {
    forall|i: int, j: int|
        0 <= i < j < part.len() ==> #[trigger] comes_before(whole, part[i], part[j])
}

/// What a filter keeps comes in order.
proof fn lemma_filter_in_order<A>(list: Seq<A>, keeps: spec_fn(A) -> bool)
    ensures
        comes_in_order(list.filter(keeps), list),
    decreases list.len(),
{
    reveal(Seq::filter);
    if list.len() > 0 {
        let rest = list.drop_last();
        let kept = rest.filter(keeps);
        let part = list.filter(keeps);
        lemma_filter_in_order(rest, keeps);
        assert forall|i: int, j: int| 0 <= i < j < part.len() implies #[trigger] comes_before(
            list,
            part[i],
            part[j],
        ) by {
            if j < kept.len() {
                assert(part[i] == kept[i] && part[j] == kept[j]);
                assert(comes_before(rest, kept[i], kept[j]));
                let (a, b) = choose|a: int, b: int|
                    #![trigger rest[a], rest[b]]
                    0 <= a < b < rest.len() && rest[a] == kept[i] && rest[b] == kept[j];
                assert(list[a] == part[i] && list[b] == part[j]);
            } else {
                assert(part[i] == kept[i]);
                assert(kept.contains(kept[i]));
                lemma_filter_items(rest, keeps);
                let a = choose|a: int| 0 <= a < rest.len() && rest[a] == kept[i];
                assert(list[a] == part[i] && list[list.len() - 1] == part[j]);
            }
        }
    }
}

/// A used, refreshed, stored or added entry comes to the front, and the others keep their order of
/// use; a removal keeps the order of what is left.
pub proof fn law_order_of_use_is_kept(
    tree: TreeModel,
    path: PathView,
    metadata: Option<FileMetadata>,
)
    requires
        tree.wf(),
    ensures
        tree.add(path, metadata).entries[0].0 == path,
        comes_in_order(tree.add(path, metadata).entries.skip(1), tree.entries),
        tree.update(path, metadata).entries[0].0 == path,
        comes_in_order(tree.update(path, metadata).entries.skip(1), tree.entries),
        lookup(tree.entries, path) is Some ==> tree.touch(path).entries[0].0 == path
            && comes_in_order(tree.touch(path).entries.skip(1), tree.entries),
        lookup(tree.entries, path) is None ==> tree.touch(path) == tree,
        comes_in_order(tree.remove(path).entries, tree.entries),
        tree.touch(path).expanded == tree.expanded,
        tree.touch(path).max_entries == tree.max_entries,
{
    lemma_filter_in_order(tree.entries, under_other_key(path));
    lemma_filter_in_order(tree.entries, outside(path));
    law_updated_entry_shows_the_metadata(tree, path, metadata);
    law_added_entry_is_found(tree, path, metadata);
    let rest = tree.entries.filter(under_other_key(path));
    assert forall|entry: EntryView| #[trigger]
        in_front(tree.entries, path, entry).skip(1) == rest by {
        assert(in_front(tree.entries, path, entry).skip(1) =~= rest);
    }
    let entry = entry_from(path, metadata);
    let added = tree.add(path, metadata).entries;
    if tree.evicts(path) {
        assert(added.skip(1) =~= tree.entries.drop_last());
        let part = tree.entries.drop_last();
        assert forall|i: int, j: int| 0 <= i < j < part.len() implies #[trigger] comes_before(
            tree.entries,
            part[i],
            part[j],
        ) by {
            assert(tree.entries[i] == part[i] && tree.entries[j] == part[j]);
        }
    } else {
        assert(added == in_front(tree.entries, path, entry));
    }
    if let Some(before) = lookup(tree.entries, path) {
        assert(tree.touch(path).entries == in_front(tree.entries, path, before));
        assert(tree.update(path, metadata).entries == in_front(
            tree.entries,
            path,
            entry_refreshed(before, metadata),
        ));
    }
}

/// Enforcing the bound takes away the entries that were used least recently, as many as are too
/// many, counts them, and changes nothing else.
pub proof fn law_bound_takes_the_least_recently_used(tree: TreeModel)
    ensures
        tree.entries.len() <= tree.max_entries ==> tree.enforced() == tree,
        tree.entries.len() > tree.max_entries ==> {
            &&& tree.enforced().entries.len() == tree.max_entries
            &&& tree.enforced().stats.total_evictions == tree.stats.total_evictions
                + tree.entries.len() - tree.max_entries
        },
        forall|i: int|
            0 <= i < tree.enforced().entries.len() ==> #[trigger] tree.enforced().entries[i]
                == tree.entries[i],
        tree.enforced().stats.total_adds == tree.stats.total_adds,
        tree.enforced().stats.total_removes == tree.stats.total_removes,
        tree.enforced().stats.total_refreshes == tree.stats.total_refreshes,
        tree.enforced().expanded == tree.expanded,
        tree.enforced().max_entries == tree.max_entries,
{
}

/// A new tree holds nothing and has counted nothing; a cleared one holds nothing, expands nothing
/// and keeps its counters and its bound.
pub proof fn law_new_and_cleared_trees_are_empty(tree: TreeModel, max_entries: nat)
    ensures
        TreeModel::empty(max_entries).entries.len() == 0,
        TreeModel::empty(max_entries).expanded.len() == 0,
        TreeModel::empty(max_entries).max_entries == max_entries,
        TreeModel::empty(max_entries).stats.total_adds == 0,
        TreeModel::empty(max_entries).stats.total_removes == 0,
        TreeModel::empty(max_entries).stats.total_evictions == 0,
        TreeModel::empty(max_entries).stats.total_refreshes == 0,
        tree.cleared().entries.len() == 0,
        tree.cleared().expanded.len() == 0,
        tree.cleared().stats == tree.stats,
        tree.cleared().max_entries == tree.max_entries,
{
}

/// Expanding and collapsing count nothing and touch no entry.
pub proof fn law_expanding_touches_nothing_else(tree: TreeModel, path: PathView)
    ensures
        tree.expand(path).stats == tree.stats,
        tree.expand(path).max_entries == tree.max_entries,
        tree.collapse(path).stats == tree.stats,
        tree.collapse(path).max_entries == tree.max_entries,
{
}

/// The children of a directory are the entries that the tree holds under a path whose parent the
/// directory is, whatever these entries are, in the order of their last use.
pub proof fn law_children_are_all_that_lie_right_below(
    tree: TreeModel,
    parent: PathView,
    path: PathView,
    entry: EntryView,
)
    requires
        tree.wf(),
        lookup(tree.entries, path) == Some(entry),
    ensures
        values(tree.entries.filter(is_child(parent))).contains(entry) <==> parent_of(path) == Some(
            parent,
        ),
        comes_in_order(
            values(tree.entries.filter(is_child(parent))),
            values(tree.entries),
        ),
        values(tree.entries.filter(is_child(parent))).no_duplicates(),
{
    let kept = tree.entries.filter(is_child(parent));
    let children = values(kept);
    lemma_holds_entry(tree.entries, path);
    lemma_lookup_contains(tree.entries, path);
    lemma_filter_items(tree.entries, is_child(parent));
    lemma_filter_in_order(tree.entries, is_child(parent));
    lemma_filter_distinct(tree.entries, is_child(parent));
    assert forall|i: int| 0 <= i < kept.len() implies (#[trigger] kept[i]).1.path == kept[i].0 by {
        assert(kept.contains(kept[i]));
        let k = choose|k: int| 0 <= k < tree.entries.len() && tree.entries[k] == kept[i];
        assert(tree.entries[k].1.path == tree.entries[k].0);
    }
    let own = choose|k: int| 0 <= k < tree.entries.len() && tree.entries[k] == (path, entry);
    assert(tree.entries[own].1.path == tree.entries[own].0);
    if children.contains(entry) {
        let i = choose|i: int| 0 <= i < children.len() && children[i] == entry;
        assert(kept[i].1.path == kept[i].0);
        assert(kept.contains(kept[i]));
        assert(is_child(parent)(kept[i]));
    }
    if parent_of(path) == Some(parent) {
        assert(is_child(parent)((path, entry)));
        assert(kept.contains((path, entry)));
        let i = choose|i: int| 0 <= i < kept.len() && kept[i] == (path, entry);
        assert(children[i] == entry);
    }
    let all = values(tree.entries);
    assert forall|i: int, j: int| 0 <= i < j < children.len() implies #[trigger] comes_before(
        all,
        children[i],
        children[j],
    ) by {
        assert(comes_before(tree.entries, kept[i], kept[j]));
        assert(kept[i].1 == children[i] && kept[j].1 == children[j]);
        let (a, b) = choose|a: int, b: int|
            #![trigger tree.entries[a], tree.entries[b]]
            0 <= a < b < tree.entries.len() && tree.entries[a] == kept[i] && tree.entries[b]
                == kept[j];
        assert(all[a] == children[i] && all[b] == children[j]);
    }
    assert forall|i: int, j: int|
        0 <= i < children.len() && 0 <= j < children.len() && i != j implies #[trigger] children[i]
        != #[trigger] children[j] by {
        assert(kept[i].1.path == kept[i].0 && kept[j].1.path == kept[j].0);
        if i < j {
            assert(kept[i].0 != kept[j].0);
        } else {
            assert(kept[j].0 != kept[i].0);
        }
    }
}

/// Every child of a directory is an entry of the tree.
pub proof fn law_children_are_entries(tree: TreeModel, parent: PathView, index: int)
    requires
        tree.wf(),
        0 <= index < values(tree.entries.filter(is_child(parent))).len(),
    ensures
        ({
            let child = values(tree.entries.filter(is_child(parent)))[index];
            lookup(tree.entries, child.path) == Some(child) && parent_of(child.path) == Some(parent)
        }),
{
    let kept = tree.entries.filter(is_child(parent));
    lemma_filter_items(tree.entries, is_child(parent));
    assert(kept.contains(kept[index]));
    assert(is_child(parent)(kept[index]));
    let k = choose|k: int| 0 <= k < tree.entries.len() && tree.entries[k] == kept[index];
    assert(tree.entries[k].1.path == tree.entries[k].0);
    lemma_lookup(tree.entries, kept[index].0, kept[index].1);
}

/// The summary of a tree shows, as numerals, how many entries it holds and may hold, how many
/// directories are expanded, and the counters.
pub proof fn law_summary_shows_the_numbers(
    tree: TreeModel,
    held: Seq<char>,
    bound: Seq<char>,
    expanded: Seq<char>,
    adds: Seq<char>,
    removes: Seq<char>,
    evictions: Seq<char>,
    refreshes: Seq<char>,
)
    requires
        is_numeral(held) && number_of(held) == tree.entries.len(),
        is_numeral(bound) && number_of(bound) == tree.max_entries,
        is_numeral(expanded) && number_of(expanded) == tree.expanded.len(),
        is_numeral(adds) && number_of(adds) == tree.stats.total_adds,
        is_numeral(removes) && number_of(removes) == tree.stats.total_removes,
        is_numeral(evictions) && number_of(evictions) == tree.stats.total_evictions,
        is_numeral(refreshes) && number_of(refreshes) == tree.stats.total_refreshes,
    ensures
        summary(tree) == "FileTreeEntryState: "@ + held + " entries (max: "@ + bound + "), "@
            + expanded + " expanded dirs, stats: FileTreeStats { total_adds: "@ + adds
            + ", total_removes: "@ + removes + ", total_evictions: "@ + evictions
            + ", total_refreshes: "@ + refreshes + " }"@,
{
    law_decimal_is_the_only_numeral(held);
    law_decimal_is_the_only_numeral(bound);
    law_decimal_is_the_only_numeral(expanded);
    law_decimal_is_the_only_numeral(adds);
    law_decimal_is_the_only_numeral(removes);
    law_decimal_is_the_only_numeral(evictions);
    law_decimal_is_the_only_numeral(refreshes);
}

/// The paths of an event come in turn, each with what the disk shows of it: a creation adds the
/// path, a removal takes it out, a modification of any kind brings it up to date, an access does
/// nothing, and an event of no other kind goes by whether the path exists.
pub proof fn law_paths_of_an_event_come_in_turn(
    tree: TreeModel,
    kind: EventKind,
    paths: Seq<PathView>,
    disk: Seq<DiskState>,
    path: PathView,
    shown: DiskState,
)
    ensures
        tree.observe_all(kind, Seq::empty(), Seq::empty()) == tree,
        ({
            let before = tree.observe_all(kind, paths, disk);
            let after = tree.observe_all(kind, paths.push(path), disk.push(shown));
            match kind {
                EventKind::Create => after == before.add(path, shown.metadata),
                EventKind::Remove => after == before.remove(path),
                EventKind::Modify(_) => after == before.update(path, shown.metadata),
                EventKind::Access => after == before,
                EventKind::Other | EventKind::Any => {
                    &&& shown.exists ==> after == before.update(path, shown.metadata)
                    &&& !shown.exists ==> after == before.remove(path)
                },
            }
        }),
{
    assert(paths.push(path).drop_last() =~= paths);
    assert(disk.push(shown).drop_last() =~= disk);
}

} // verus!
