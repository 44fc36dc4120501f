//! The file tree as a mathematical value, and what each operation makes of it.

use crate::path::{is_under, PathView};
use crate::path_set::other_than;
use crate::repo_metadata::entry::{entry_from, entry_refreshed, EntryView, FileMetadata};
use crate::repo_metadata::entry_list::{
    after_put, distinct, holds, in_front, lemma_filter_distinct, lemma_filter_items,
    lemma_in_front, lemma_lookup_contains, lookup, EntryList,
};
use crate::repo_metadata::event::{DiskState, EventKind};
use vstd::prelude::*;

verus! {

/// The counters of a tree.
#[verifier::ext_equal]
pub struct StatsView {
    pub total_adds: nat,
    pub total_removes: nat,
    pub total_evictions: nat,
    pub total_refreshes: nat,
}

impl StatsView {
    /// Whether every counter can be held in 64 bits.
    pub open spec fn fits(self) -> bool {
        &&& self.total_adds <= u64::MAX
        &&& self.total_removes <= u64::MAX
        &&& self.total_evictions <= u64::MAX
        &&& self.total_refreshes <= u64::MAX
    }

    /// Whether no counter is above the other's.
    pub open spec fn at_most(self, other: StatsView) -> bool {
        &&& self.total_adds <= other.total_adds
        &&& self.total_removes <= other.total_removes
        &&& self.total_evictions <= other.total_evictions
        &&& self.total_refreshes <= other.total_refreshes
    }
}

/// The condition that an entry lies outside a directory.
pub open spec fn outside(base: PathView) -> spec_fn((PathView, EntryView)) -> bool {
    |item: (PathView, EntryView)| !is_under(item.0, base)
}

/// The condition that a directory stays expanded when `base` is removed from a tree with the
/// given entries: it is not `base`, and it is no entry below `base`.
pub open spec fn stays_expanded(entries: EntryList, base: PathView) -> spec_fn(PathView) -> bool {
    |path: PathView| path != base && !(is_under(path, base) && holds(entries, path))
}

/// A file tree.
#[verifier::ext_equal]
pub struct TreeModel {
    /// The entries, the most recently used first.
    pub entries: EntryList,
    /// The expanded directories, in the order in which they were expanded.
    pub expanded: Seq<PathView>,
    /// The number of entries that the tree is meant to hold at most.
    pub max_entries: nat,
    pub stats: StatsView,
}

impl TreeModel {
    /// The empty tree.
    pub open spec fn empty(max_entries: nat) -> TreeModel {
        TreeModel {
            entries: Seq::empty(),
            expanded: Seq::empty(),
            max_entries,
            stats: StatsView {
                total_adds: 0,
                total_removes: 0,
                total_evictions: 0,
                total_refreshes: 0,
            },
        }
    }

    /// The number of entries at which adding another evicts one: a tree has room for one entry at
    /// least.
    pub open spec fn limit(self) -> nat {
        if self.max_entries == 0 {
            1
        } else {
            self.max_entries
        }
    }

    /// No path has two entries, every entry is stored under its own path, no directory is listed
    /// as expanded twice, and there are no more entries than the limit.
    pub open spec fn wf(self) -> bool {
        &&& distinct(self.entries)
        &&& forall|i: int|
            0 <= i < self.entries.len() ==> (#[trigger] self.entries[i]).1.path
                == self.entries[i].0
        &&& self.expanded.no_duplicates()
        &&& self.entries.len() <= self.limit()
    }

    /// Whether an entry for `path` pushes another one out.
    pub open spec fn evicts(self, path: PathView) -> bool {
        !holds(self.entries, path) && self.entries.len() >= self.limit()
    }

    /// The tree with `entry` as its most recently used one.
    pub open spec fn put(self, entry: EntryView) -> TreeModel {
        TreeModel {
            entries: after_put(self.entries, self.limit(), entry.path, entry),
            ..self
        }
    }

    /// The tree after an entry was added for `path`.
    pub open spec fn add(self, path: PathView, metadata: Option<FileMetadata>) -> TreeModel {
        TreeModel {
            stats: StatsView {
                total_adds: self.stats.total_adds + 1,
                total_evictions: self.stats.total_evictions + if self.evicts(path) {
                    1nat
                } else {
                    0nat
                },
                ..self.stats
            },
            ..self.put(entry_from(path, metadata))
        }
    }

    /// The tree after the entry for `path` was brought up to date, or added where there was none.
    pub open spec fn update(self, path: PathView, metadata: Option<FileMetadata>) -> TreeModel {
        match lookup(self.entries, path) {
            Some(entry) => TreeModel {
                entries: in_front(self.entries, path, entry_refreshed(entry, metadata)),
                stats: StatsView {
                    total_refreshes: self.stats.total_refreshes + 1,
                    ..self.stats
                },
                ..self
            },
            None => self.add(path, metadata),
        }
    }

    /// The tree after `path` was removed, with every entry below it.
    pub open spec fn remove(self, path: PathView) -> TreeModel {
        let rest = self.entries.filter(outside(path));
        TreeModel {
            entries: rest,
            expanded: self.expanded.filter(stays_expanded(self.entries, path)),
            stats: StatsView {
                total_removes: (self.stats.total_removes + self.entries.len()
                    - rest.len()) as nat,
                ..self.stats
            },
            ..self
        }
    }

    /// The tree after the entry for `path` was used.
    pub open spec fn touch(self, path: PathView) -> TreeModel {
        match lookup(self.entries, path) {
            Some(entry) => TreeModel { entries: in_front(self.entries, path, entry), ..self },
            None => self,
        }
    }

    /// The tree with `path` expanded.
    pub open spec fn expand(self, path: PathView) -> TreeModel {
        if self.expanded.contains(path) {
            self
        } else {
            TreeModel { expanded: self.expanded.push(path), ..self }
        }
    }

    /// The tree with `path` collapsed.
    pub open spec fn collapse(self, path: PathView) -> TreeModel {
        TreeModel { expanded: self.expanded.filter(other_than(path)), ..self }
    }

    /// The tree without entries and expanded directories; the counters stay.
    pub open spec fn cleared(self) -> TreeModel {
        TreeModel { entries: Seq::empty(), expanded: Seq::empty(), ..self }
    }

    /// The tree after one path of an event.
    pub open spec fn observe(self, kind: EventKind, path: PathView, disk: DiskState) -> TreeModel {
        match kind {
            EventKind::Create => self.add(path, disk.metadata),
            EventKind::Remove => self.remove(path),
            EventKind::Modify(_) => self.update(path, disk.metadata),
            EventKind::Access => self,
            EventKind::Other | EventKind::Any => if disk.exists {
                self.update(path, disk.metadata)
            } else {
                self.remove(path)
            },
        }
    }

    /// The tree after all paths of an event, one after the other.
    pub open spec fn observe_all(
        self,
        kind: EventKind,
        paths: Seq<PathView>,
        disk: Seq<DiskState>,
    ) -> TreeModel
        decreases paths.len(),
    {
        if paths.len() == 0 {
            self
        } else {
            self.observe_all(kind, paths.drop_last(), disk.drop_last()).observe(
                kind,
                paths.last(),
                disk.last(),
            )
        }
    }

    /// The tree with no more entries than it is meant to hold: the least recently used are gone.
    pub open spec fn enforced(self) -> TreeModel {
        if self.entries.len() > self.max_entries {
            TreeModel {
                entries: self.entries.take(self.max_entries as int),
                stats: StatsView {
                    total_evictions: (self.stats.total_evictions + self.entries.len()
                        - self.max_entries) as nat,
                    ..self.stats
                },
                ..self
            }
        } else {
            self
        }
    }
}

/// Counters never go down in the course of an event.
pub proof fn lemma_observe_grows(
    tree: TreeModel,
    kind: EventKind,
    path: PathView,
    disk: DiskState,
)
    ensures
        tree.stats.at_most(tree.observe(kind, path, disk).stats),
{
    lemma_filter_items(tree.entries, outside(path));
}

/// Counters are lowest after the first paths of an event.
pub proof fn lemma_observe_all_grows(
    tree: TreeModel,
    kind: EventKind,
    paths: Seq<PathView>,
    disk: Seq<DiskState>,
    count: int,
)
    requires
        0 <= count <= paths.len(),
        paths.len() == disk.len(),
    ensures
        tree.observe_all(kind, paths.take(count), disk.take(count)).stats.at_most(
            tree.observe_all(kind, paths, disk).stats,
        ),
    decreases paths.len(),
{
    if count == paths.len() {
        assert(paths.take(count) =~= paths);
        assert(disk.take(count) =~= disk);
    } else {
        lemma_observe_all_grows(tree, kind, paths.drop_last(), disk.drop_last(), count);
        assert(paths.drop_last().take(count) =~= paths.take(count));
        assert(disk.drop_last().take(count) =~= disk.take(count));
        lemma_observe_grows(
            tree.observe_all(kind, paths.drop_last(), disk.drop_last()),
            kind,
            paths.last(),
            disk.last(),
        );
    }
}

/// The entries stay under their own paths when one is put in front under its path.
proof fn lemma_in_front_own_path(entries: EntryList, entry: EntryView)
    requires
        distinct(entries),
        forall|i: int| 0 <= i < entries.len() ==> (#[trigger] entries[i]).1.path == entries[i].0,
    ensures
        forall|i: int|
            0 <= i < in_front(entries, entry.path, entry).len() ==> (#[trigger] in_front(
                entries,
                entry.path,
                entry,
            )[i]).1.path == in_front(entries, entry.path, entry)[i].0,
{
    let result = in_front(entries, entry.path, entry);
    lemma_in_front(entries, entry.path, entry);
    assert forall|i: int| 0 <= i < result.len() implies (#[trigger] result[i]).1.path
        == result[i].0 by {
        let (key, value) = result[i];
        assert(result.contains((key, value)));
        if key != entry.path {
            assert(entries.contains((key, value)));
            let k = choose|k: int| 0 <= k < entries.len() && entries[k] == (key, value);
            assert(entries[k].1.path == entries[k].0);
        }
    }
}

/// Storing an entry keeps a tree well-formed, and so within its limit.
pub proof fn law_put_keeps_wf(tree: TreeModel, entry: EntryView)
    requires
        tree.wf(),
    ensures
        tree.put(entry).wf(),
{
    lemma_in_front(tree.entries, entry.path, entry);
    lemma_in_front_own_path(tree.entries, entry);
    let result = tree.put(entry).entries;
    if !holds(tree.entries, entry.path) && tree.entries.len() == tree.limit() {
        assert forall|i: int, j: int| 0 <= i < j < result.len() implies (
        #[trigger] result[i]).0 != (#[trigger] result[j]).0 by {
            assert(result[j] == tree.entries[j - 1]);
            if i > 0 {
                assert(result[i] == tree.entries[i - 1]);
            }
        }
        assert forall|i: int| 0 <= i < result.len() implies (#[trigger] result[i]).1.path
            == result[i].0 by {
            if i > 0 {
                assert(result[i] == tree.entries[i - 1]);
            }
        }
    }
}

/// Adding an entry keeps a tree well-formed, and so within its limit.
pub proof fn law_add_keeps_wf(tree: TreeModel, path: PathView, metadata: Option<FileMetadata>)
    requires
        tree.wf(),
    ensures
        tree.add(path, metadata).wf(),
{
    law_put_keeps_wf(tree, entry_from(path, metadata));
}

/// Updating an entry keeps a tree well-formed, and so within its limit.
pub proof fn law_update_keeps_wf(tree: TreeModel, path: PathView, metadata: Option<FileMetadata>)
    requires
        tree.wf(),
    ensures
        tree.update(path, metadata).wf(),
{
    match lookup(tree.entries, path) {
        Some(entry) => {
            lemma_lookup_contains(tree.entries, path);
            let k = choose|k: int| 0 <= k < tree.entries.len() && tree.entries[k] == (path, entry);
            assert(tree.entries[k].1.path == tree.entries[k].0);
            lemma_in_front(tree.entries, path, entry_refreshed(entry, metadata));
            lemma_in_front_own_path(tree.entries, entry_refreshed(entry, metadata));
        },
        None => {
            law_add_keeps_wf(tree, path, metadata);
        },
    }
}

/// A filtered list without duplicates has none.
pub proof fn lemma_filter_no_duplicates<A>(list: Seq<A>, keeps: spec_fn(A) -> bool)
    requires
        list.no_duplicates(),
    ensures
        list.filter(keeps).no_duplicates(),
    decreases list.len(),
{
    reveal(Seq::filter);
    if list.len() > 0 {
        let rest = list.drop_last();
        lemma_filter_no_duplicates(rest, keeps);
        lemma_filter_items(rest, keeps);
        if keeps(list.last()) {
            let kept = rest.filter(keeps);
            assert forall|i: int| 0 <= i < kept.len() implies #[trigger] kept[i]
                != list.last() by {
                assert(kept.contains(kept[i]));
                let k = choose|k: int| 0 <= k < rest.len() && rest[k] == kept[i];
                assert(list[k] == rest[k]);
            }
        }
    }
}

/// Removing a path keeps a tree well-formed, and so within its limit.
pub proof fn law_remove_keeps_wf(tree: TreeModel, path: PathView)
    requires
        tree.wf(),
    ensures
        tree.remove(path).wf(),
{
    let rest = tree.entries.filter(outside(path));
    lemma_filter_distinct(tree.entries, outside(path));
    lemma_filter_items(tree.entries, outside(path));
    assert forall|i: int| 0 <= i < rest.len() implies (#[trigger] rest[i]).1.path == rest[i].0 by {
        assert(rest.contains(rest[i]));
        let k = choose|k: int| 0 <= k < tree.entries.len() && tree.entries[k] == rest[i];
        assert(tree.entries[k].1.path == tree.entries[k].0);
    }
    lemma_filter_no_duplicates(tree.expanded, stays_expanded(tree.entries, path));
}

/// One path of an event keeps a tree well-formed, and so within its limit.
pub proof fn law_observe_keeps_wf(
    tree: TreeModel,
    kind: EventKind,
    path: PathView,
    disk: DiskState,
)
    requires
        tree.wf(),
    ensures
        tree.observe(kind, path, disk).wf(),
{
    law_add_keeps_wf(tree, path, disk.metadata);
    law_update_keeps_wf(tree, path, disk.metadata);
    law_remove_keeps_wf(tree, path);
}

/// Using an entry keeps a tree well-formed.
pub proof fn law_touch_keeps_wf(tree: TreeModel, path: PathView)
    requires
        tree.wf(),
    ensures
        tree.touch(path).wf(),
{
    if let Some(entry) = lookup(tree.entries, path) {
        lemma_lookup_contains(tree.entries, path);
        let k = choose|k: int| 0 <= k < tree.entries.len() && tree.entries[k] == (path, entry);
        assert(tree.entries[k].1.path == tree.entries[k].0);
        lemma_in_front(tree.entries, path, entry);
        lemma_in_front_own_path(tree.entries, entry);
    }
}

/// Enforcing the bound keeps a tree well-formed and brings it within what it is meant to hold.
pub proof fn law_enforced_keeps_wf(tree: TreeModel)
    requires
        tree.wf(),
    ensures
        tree.enforced().wf(),
        tree.enforced().entries.len() <= tree.max_entries,
{
    let rest = tree.enforced().entries;
    assert forall|i: int, j: int| 0 <= i < j < rest.len() implies (#[trigger] rest[i]).0 != (
    #[trigger] rest[j]).0 by {
        assert(rest[i] == tree.entries[i] && rest[j] == tree.entries[j]);
    }
    assert forall|i: int| 0 <= i < rest.len() implies (#[trigger] rest[i]).1.path == rest[i].0 by {
        assert(rest[i] == tree.entries[i]);
    }
}

} // verus!
