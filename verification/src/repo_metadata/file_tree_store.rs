//! File tree state storage with bounded LRU cache.
//!
//! This module provides `FileTreeEntryState` which maintains the file tree
//! in memory with an LRU cache to prevent unbounded memory growth.

use crate::path::{is_under, parent_of, FilePath, PathView};
use crate::path_set::{lemma_filter_all, other_than, paths_view, PathSet};
use crate::repo_metadata::entry::{EntryView, FileEntry, FileMetadata};
use crate::repo_metadata::entry_cache::{
    cache_entries, cache_limit, lru_clear, lru_contains, lru_get, lru_get_mut, lru_iter, lru_len,
    lru_new, lru_peek, lru_pop, lru_pop_lru, lru_put, MAX_LIMIT,
};
use crate::repo_metadata::entry_list::{
    distinct, holds, lemma_filter_distinct, lemma_filter_items, lemma_filter_same,
    lemma_filter_twice, lemma_holds_entry, lemma_lookup, lemma_lookup_contains, lemma_without,
    lookup, under_other_key, without, EntryList,
};
use crate::repo_metadata::event::{DiskState, EventKind, WatchEvent};
use crate::repo_metadata::tree_laws::{
    law_children_are_all_that_lie_right_below, law_updated_entry_shows_the_metadata,
};
use crate::repo_metadata::tree_model::{
    law_enforced_keeps_wf, law_put_keeps_wf, law_remove_keeps_wf, law_touch_keeps_wf,
    law_update_keeps_wf, lemma_observe_all_grows, outside, stays_expanded, StatsView, TreeModel,
};
use crate::text::{append_decimal, decimal};
use lru::LruCache;
use vstd::prelude::*;
use vstd::string::StringExecFns;

verus! {

/// Statistics about the file tree state.
#[derive(Debug, Clone, Copy, PartialEq, Eq, Structural)]
pub struct FileTreeStats {
    /// Total entries added since creation.
    pub total_adds: u64,
    /// Total entries removed since creation.
    pub total_removes: u64,
    /// Total entries evicted by LRU.
    pub total_evictions: u64,
    /// Total metadata refreshes.
    pub total_refreshes: u64,
}

impl View for FileTreeStats {
    type V = StatsView;

    open spec fn view(&self) -> StatsView {
        StatsView {
            total_adds: self.total_adds as nat,
            total_removes: self.total_removes as nat,
            total_evictions: self.total_evictions as nat,
            total_refreshes: self.total_refreshes as nat,
        }
    }
}

impl Default for FileTreeStats {
    fn default() -> (result: Self)
        ensures
            result == (FileTreeStats {
                total_adds: 0,
                total_removes: 0,
                total_evictions: 0,
                total_refreshes: 0,
            }),
    {
        FileTreeStats { total_adds: 0, total_removes: 0, total_evictions: 0, total_refreshes: 0 }
    }
}

/// File tree state with bounded LRU cache.
///
/// This structure maintains the file tree in memory while:
/// - Preventing unbounded memory growth via LRU eviction
/// - Tracking expanded directories for UI state
/// - Supporting efficient in-place updates (no cloning)
pub struct FileTreeEntryState {
    /// LRU cache of file entries, bounded by max_entries.
    entries: LruCache<Vec<Vec<u8>>, FileEntry>,
    /// Set of directories currently expanded in the UI.
    expanded_dirs: PathSet,
    /// Maximum number of entries before LRU eviction.
    max_entries: usize,
    /// Statistics for debugging/monitoring.
    stats: FileTreeStats,
}

impl View for FileTreeEntryState {
    type V = TreeModel;

    closed spec fn view(&self) -> TreeModel {
        TreeModel {
            entries: cache_entries(self.entries),
            expanded: self.expanded_dirs@,
            max_entries: self.max_entries as nat,
            stats: self.stats@,
        }
    }
}

/// The condition that an entry is a direct child of a directory.
pub open spec fn is_child(parent: PathView) -> spec_fn((PathView, EntryView)) -> bool {
    |item: (PathView, EntryView)| parent_of(item.0) == Some(parent)
}

/// The contents of a list of entries.
pub open spec fn entries_view(entries: Seq<&FileEntry>) -> Seq<EntryView> {
    Seq::new(entries.len(), |i: int| entries[i]@)
}

/// The entries of a list, without the paths that they are stored under.
pub open spec fn values(list: EntryList) -> Seq<EntryView> {
    Seq::new(list.len(), |i: int| list[i].1)
}

/// The summary of a tree.
pub open spec fn summary(tree: TreeModel) -> Seq<char> {
    "FileTreeEntryState: "@ + decimal(tree.entries.len()) + " entries (max: "@ + decimal(
        tree.max_entries,
    ) + "), "@ + decimal(tree.expanded.len()) + " expanded dirs, stats: FileTreeStats { total_adds: "@
        + decimal(tree.stats.total_adds) + ", total_removes: "@ + decimal(tree.stats.total_removes)
        + ", total_evictions: "@ + decimal(tree.stats.total_evictions) + ", total_refreshes: "@
        + decimal(tree.stats.total_refreshes) + " }"@
}

/// Whether every entry of a list is stored under its own path.
pub open spec fn own_paths(list: EntryList) -> bool {
    forall|i: int| 0 <= i < list.len() ==> (#[trigger] list[i]).1.path == list[i].0
}

proof fn lemma_own_paths_without(list: EntryList, key: PathView)
    requires
        distinct(list),
        own_paths(list),
    ensures
        own_paths(without(list, key)),
{
    let rest = without(list, key);
    lemma_without(list, key);
    assert forall|i: int| 0 <= i < rest.len() implies (#[trigger] rest[i]).1.path == rest[i].0 by {
        assert(rest.contains((rest[i].0, rest[i].1)));
        let k = choose|k: int| 0 <= k < list.len() && list[k] == rest[i];
        assert(list[k].1.path == list[k].0);
    }
}

/// The paths that the entries of a list are stored under.
pub open spec fn keys(list: EntryList) -> Seq<PathView> {
    Seq::new(list.len(), |i: int| list[i].0)
}

/// The condition that an entry lies below a directory.
pub open spec fn below(base: PathView) -> spec_fn((PathView, EntryView)) -> bool {
    |item: (PathView, EntryView)| is_under(item.0, base) && item.0 != base
}

/// The condition that an entry is stored under none of the given paths.
pub open spec fn under_none_of(paths: Seq<PathView>) -> spec_fn((PathView, EntryView)) -> bool {
    |item: (PathView, EntryView)| !paths.contains(item.0)
}

/// The condition that a path is none of the given ones.
pub open spec fn none_of(paths: Seq<PathView>) -> spec_fn(PathView) -> bool {
    |path: PathView| !paths.contains(path)
}

/// What a condition keeps and what its opposite keeps is all there is.
proof fn lemma_filter_split<A>(
    list: Seq<A>,
    keeps: spec_fn(A) -> bool,
    drops: spec_fn(A) -> bool,
)
    requires
        forall|i: int| 0 <= i < list.len() ==> keeps(#[trigger] list[i]) == !drops(list[i]),
    ensures
        list.filter(keeps).len() + list.filter(drops).len() == list.len(),
    decreases list.len(),
{
    reveal(Seq::filter);
    if list.len() > 0 {
        assert forall|i: int| 0 <= i < list.drop_last().len() implies keeps(
            #[trigger] list.drop_last()[i],
        ) == !drops(list.drop_last()[i]) by {
            assert(list.drop_last()[i] == list[i]);
        }
        lemma_filter_split(list.drop_last(), keeps, drops);
        assert(keeps(list[list.len() - 1]) == !drops(list[list.len() - 1]));
    }
}

/// Where `path` is gone and `children` are the entries below it, what is under none of them is
/// what lies outside `path`.
proof fn lemma_children(entries: EntryList, path: PathView)
    requires
        distinct(entries),
    ensures
        ({
            let rest = without(entries, path);
            let children = keys(rest.filter(below(path)));
            &&& children.no_duplicates()
            &&& forall|key: PathView|
                #[trigger] children.contains(key) == (holds(entries, key) && is_under(key, path)
                    && key != path)
            &&& rest.filter(under_none_of(children)) == entries.filter(outside(path))
            &&& rest.len() == children.len() + entries.filter(outside(path)).len()
        }),
{
    let rest = without(entries, path);
    let inner = rest.filter(below(path));
    let children = keys(inner);
    lemma_without(entries, path);
    lemma_filter_distinct(rest, below(path));
    lemma_filter_items(rest, below(path));
    assert(children.no_duplicates()) by {
        assert forall|i: int, j: int|
            0 <= i < children.len() && 0 <= j < children.len() && i != j implies children[i]
            != children[j] by {
            if i < j {
                assert(inner[i].0 != inner[j].0);
            } else {
                assert(inner[j].0 != inner[i].0);
            }
        }
    }
    assert forall|key: PathView| #[trigger] children.contains(key) == (holds(entries, key)
        && is_under(key, path) && key != path) by {
        lemma_holds_entry(entries, key);
        if children.contains(key) {
            let i = choose|i: int| 0 <= i < children.len() && children[i] == key;
            assert(inner.contains(inner[i]));
            assert(inner[i] == (key, inner[i].1));
            assert(rest.contains((key, inner[i].1)));
            assert(entries.contains((key, inner[i].1)));
        }
        if holds(entries, key) && is_under(key, path) && key != path {
            let entry = choose|entry: EntryView| #[trigger] entries.contains((key, entry));
            assert(rest.contains((key, entry)));
            assert(inner.contains((key, entry)));
            let i = choose|i: int| 0 <= i < inner.len() && inner[i] == (key, entry);
            assert(children[i] == key);
        }
    }
    let both = |item: (PathView, EntryView)|
        under_other_key(path)(item) && under_none_of(children)(item);
    lemma_filter_twice(entries, under_other_key(path), under_none_of(children), both);
    assert(is_under(path, path)) by {
        assert(path.subrange(0, path.len() as int) =~= path);
    }
    assert forall|i: int| 0 <= i < entries.len() implies both(#[trigger] entries[i]) == outside(
        path,
    )(entries[i]) by {
        assert(holds(entries, entries[i].0));
    }
    lemma_filter_same(entries, both, outside(path));
    assert forall|i: int| 0 <= i < rest.len() implies below(path)(#[trigger] rest[i])
        == !under_none_of(children)(rest[i]) by {
        assert(rest.contains((rest[i].0, rest[i].1)));
        assert(entries.contains((rest[i].0, rest[i].1)));
        lemma_holds_entry(entries, rest[i].0);
    }
    lemma_filter_split(rest, below(path), under_none_of(children));
}

/// The directories that stay expanded are those that are neither `path` nor one of its children.
proof fn lemma_children_expanded(entries: EntryList, expanded: Seq<PathView>, path: PathView)
    requires
        distinct(entries),
    ensures
        expanded.filter(other_than(path)).filter(
            none_of(keys(without(entries, path).filter(below(path)))),
        ) == expanded.filter(stays_expanded(entries, path)),
{
    let children = keys(without(entries, path).filter(below(path)));
    lemma_children(entries, path);
    lemma_filter_twice(
        expanded,
        other_than(path),
        none_of(children),
        stays_expanded(entries, path),
    );
}

/// What one more item of a list adds to the first ones.
proof fn lemma_one_more_taken(list: Seq<PathView>, count: int)
    requires
        0 <= count < list.len(),
    ensures
        forall|item: PathView| #[trigger]
            list.take(count + 1).contains(item) == (list.take(count).contains(item) || item
                == list[count]),
{
    let taken = list.take(count);
    let next = list.take(count + 1);
    assert forall|item: PathView| #[trigger] next.contains(item) == (taken.contains(item) || item
        == list[count]) by {
        if next.contains(item) {
            let i = choose|i: int| 0 <= i < next.len() && next[i] == item;
            if i < count {
                assert(taken[i] == item);
            }
        }
        if taken.contains(item) {
            let i = choose|i: int| 0 <= i < taken.len() && taken[i] == item;
            assert(next[i] == item);
        }
        if item == list[count] {
            assert(next[count] == item);
        }
    }
}

/// Taking the next child out of what is left.
proof fn lemma_next_child(rest: EntryList, children: Seq<PathView>, count: int)
    requires
        distinct(rest),
        children.no_duplicates(),
        0 <= count < children.len(),
        holds(rest, children[count]),
    ensures
        without(rest.filter(under_none_of(children.take(count))), children[count]) == rest.filter(
            under_none_of(children.take(count + 1)),
        ),
        holds(rest.filter(under_none_of(children.take(count))), children[count]),
        distinct(rest.filter(under_none_of(children.take(count)))),
{
    let child = children[count];
    let taken = children.take(count);
    let next = children.take(count + 1);
    lemma_one_more_taken(children, count);
    lemma_filter_twice(rest, under_none_of(taken), under_other_key(child), under_none_of(next));
    lemma_filter_distinct(rest, under_none_of(taken));
    lemma_filter_items(rest, under_none_of(taken));
    lemma_holds_entry(rest, child);
    let entry = choose|entry: EntryView| #[trigger] rest.contains((child, entry));
    if taken.contains(child) {
        let i = choose|i: int| 0 <= i < taken.len() && taken[i] == child;
        assert(children[i] == children[count]);
    }
    assert(rest.filter(under_none_of(taken)).contains((child, entry)));
    lemma_holds_entry(rest.filter(under_none_of(taken)), child);
}

/// Collapsing the next child among what stays expanded.
proof fn lemma_next_expanded(expanded: Seq<PathView>, children: Seq<PathView>, count: int)
    requires
        0 <= count < children.len(),
    ensures
        expanded.filter(none_of(children.take(count))).filter(other_than(children[count]))
            == expanded.filter(none_of(children.take(count + 1))),
{
    let child = children[count];
    let taken = children.take(count);
    let next = children.take(count + 1);
    lemma_one_more_taken(children, count);
    lemma_filter_twice(expanded, none_of(taken), other_than(child), none_of(next));
}

impl FileTreeEntryState {
    /// The tree is well-formed, and the cache was made for as many entries as the tree has room
    /// for.
    pub closed spec fn wf(&self) -> bool {
        &&& self.expanded_dirs.wf()
        &&& cache_limit(self.entries) == self@.limit()
        &&& self@.wf()
    }

    /// What a well-formed state means for its contents.
    pub proof fn lemma_wf(&self)
        requires
            self.wf(),
        ensures
            self@.wf(),
            self@.stats.fits(),
    {
    }

    /// Create a new file tree state with the given capacity.
    ///
    /// # Arguments
    /// * `max_entries` - Maximum number of entries before LRU eviction kicks in.
    ///                   Recommended: 50,000-100,000 for typical projects.
    pub fn new(max_entries: usize) -> (result: Self)
        requires
            max_entries <= MAX_LIMIT,
        ensures
            result.wf(),
            result@ == TreeModel::empty(max_entries as nat),
    {
        let limit: usize = if max_entries == 0 {
            1
        } else {
            max_entries
        };
        FileTreeEntryState {
            entries: lru_new(limit),
            expanded_dirs: PathSet::new(),
            max_entries,
            stats: FileTreeStats::default(),
        }
    }

    /// Get the current number of entries.
    pub fn len(&self) -> (result: usize)
        ensures
            result == self@.entries.len(),
    {
        lru_len(&self.entries)
    }

    /// Check if the tree is empty.
    pub fn is_empty(&self) -> (result: bool)
        ensures
            result == (self@.entries.len() == 0),
    {
        lru_len(&self.entries) == 0
    }

    /// Get the maximum capacity.
    pub fn capacity(&self) -> (result: usize)
        ensures
            result == self@.max_entries,
    {
        self.max_entries
    }

    /// Get the current statistics.
    pub fn stats(&self) -> (result: &FileTreeStats)
        ensures
            result@ == self@.stats,
    {
        &self.stats
    }

    /// Clear all entries.
    pub fn clear(&mut self)
        requires
            old(self).wf(),
        ensures
            final(self).wf(),
            final(self)@ == old(self)@.cleared(),
    {
        lru_clear(&mut self.entries);
        self.expanded_dirs.clear();
    }

    /// Store an entry as the most recently used one.
    ///
    /// An entry for the same path is replaced. If the cache is full, the least recently used
    /// entry is dropped. The statistics stay as they are.
    pub fn put(&mut self, entry: FileEntry)
        requires
            old(self).wf(),
        ensures
            final(self).wf(),
            final(self)@ == old(self)@.put(entry@),
    {
        proof {
            law_put_keeps_wf(self@, entry@);
        }
        let key = entry.path.to_parts();
        let _ = lru_put(&mut self.entries, key, entry);
        assert(self@ =~= old(self)@.put(entry@));
    }

    /// Add an entry to the tree.
    ///
    /// If the entry already exists, it will be updated.
    /// If the cache is full, the least recently used entry will be evicted.
    pub fn add_entry(&mut self, path: &FilePath, metadata: Option<FileMetadata>)
        requires
            old(self).wf(),
            old(self)@.add(path@, metadata).stats.fits(),
        ensures
            final(self).wf(),
            final(self)@ == old(self)@.add(path@, metadata),
    {
        let entry = FileEntry::from_path(path, metadata);
        let limit: usize = if self.max_entries == 0 {
            1
        } else {
            self.max_entries
        };
        let evicts = lru_len(&self.entries) >= limit && !lru_contains(&self.entries, path.parts());
        self.put(entry);
        if evicts {
            self.stats.total_evictions += 1;
        }
        self.stats.total_adds += 1;
        assert(self@ =~= old(self)@.add(path@, metadata));
    }

    /// Update an existing entry's metadata.
    ///
    /// If the entry doesn't exist, it will be added.
    pub fn update_entry(&mut self, path: &FilePath, metadata: Option<FileMetadata>)
        requires
            old(self).wf(),
            old(self)@.update(path@, metadata).stats.fits(),
        ensures
            final(self).wf(),
            final(self)@ == old(self)@.update(path@, metadata),
            lookup(final(self)@.entries, path@) matches Some(entry) && entry.path == path@ && (
            metadata matches Some(found) ==> entry.is_dir == found.is_dir && entry.modified
                == found.modified && !entry.dirty && entry.size == (if found.is_dir {
                0
            } else {
                found.len
            })),
    {
        proof {
            self.lemma_wf();
            law_updated_entry_shows_the_metadata(self@, path@, metadata);
            law_update_keeps_wf(self@, path@, metadata);
        }
        let ghost before = self@;
        let found = match lru_get_mut(&mut self.entries, path.parts()) {
            Some(entry) => {
                proof {
                    lemma_lookup(before.entries, path@, entry@);
                }
                entry.refresh_metadata(metadata);
                true
            },
            None => false,
        };
        if found {
            self.stats.total_refreshes += 1;
        } else {
            self.add_entry(path, metadata);
        }
        assert(self@ =~= old(self)@.update(path@, metadata));
    }

    /// The paths of the entries below a directory.
    fn paths_below(&self, path: &FilePath) -> (result: Vec<FilePath>)
        requires
            own_paths(self@.entries),
        ensures
            paths_view(result@) == keys(self@.entries.filter(below(path@))),
    {
        let items = lru_iter(&self.entries);
        let mut result: Vec<FilePath> = Vec::new();
        let mut i: usize = 0;
        proof {
            reveal(Seq::filter);
            assert(self@.entries.take(0).filter(below(path@)) =~= Seq::empty());
        }
        while i < items.len()
            invariant
                own_paths(self@.entries),
                i <= items@.len(),
                items@.len() == self@.entries.len(),
                forall|k: int|
                    0 <= k < items@.len() ==> self@.entries[k].1 == (#[trigger] items@[k]).1@,
                paths_view(result@) == keys(self@.entries.take(i as int).filter(below(path@))),
            decreases items@.len() - i,
        {
            let entry = items[i].1;
            let ghost taken = self@.entries.take(i as int);
            let ghost old_result = paths_view(result@);
            proof {
                reveal(Seq::filter);
                assert(self@.entries.take(i + 1).drop_last() =~= taken);
                assert(self@.entries[i as int].1.path == self@.entries[i as int].0);
                assert(self@.entries[i as int].1 == items@[i as int].1@);
            }
            if entry.path.starts_with(path) && !entry.path.same(path) {
                let copy = entry.path.clone();
                result.push(copy);
                assert(paths_view(result@) =~= old_result.push(entry.path@));
                assert(keys(taken.filter(below(path@)).push(self@.entries[i as int])) =~= keys(
                    taken.filter(below(path@)),
                ).push(entry.path@));
            }
            i += 1;
        }
        assert(self@.entries.take(i as int) =~= self@.entries);
        result
    }

    /// Remove an entry from the tree, with everything below it.
    pub fn remove_entry(&mut self, path: &FilePath)
        requires
            old(self).wf(),
            old(self)@.remove(path@).stats.fits(),
        ensures
            final(self).wf(),
            final(self)@ == old(self)@.remove(path@),
    {
        let ghost before = self@;
        let ghost rest = without(before.entries, path@);
        let ghost expanded = before.expanded.filter(other_than(path@));
        let ghost children = keys(rest.filter(below(path@)));
        proof {
            lemma_children(before.entries, path@);
            lemma_children_expanded(before.entries, before.expanded, path@);
            lemma_without(before.entries, path@);
            law_remove_keeps_wf(before, path@);
        }
        if lru_pop(&mut self.entries, path.parts()).is_some() {
            proof {
                lemma_holds_entry(before.entries, path@);
            }
            self.stats.total_removes += 1;
        }
        // Also remove from expanded dirs if it was a directory
        let _ = self.expanded_dirs.remove(path);

        // Remove any child entries if this was a directory
        let ghost removed = self.stats.total_removes;
        proof {
            lemma_own_paths_without(before.entries, path@);
            assert forall|k: int| 0 <= k < children.len() implies holds(
                rest,
                #[trigger] children[k],
            ) by {
                assert(children.contains(children[k]));
                lemma_lookup_contains(before.entries, children[k]);
                let entry = lookup(before.entries, children[k]).unwrap();
                assert(rest.contains((children[k], entry)));
                lemma_holds_entry(rest, children[k]);
            }
        }
        let children_to_remove = self.paths_below(path);
        let mut i: usize = 0;
        proof {
            lemma_filter_all(rest, under_none_of(children.take(0)));
            lemma_filter_all(expanded, none_of(children.take(0)));
        }
        while i < children_to_remove.len()
            invariant
                i <= children_to_remove@.len(),
                paths_view(children_to_remove@) == children,
                children.no_duplicates(),
                distinct(rest),
                forall|k: int| 0 <= k < children.len() ==> holds(rest, #[trigger] children[k]),
                removed + children.len() <= u64::MAX,
                self.max_entries == before.max_entries,
                cache_limit(self.entries) == before.limit(),
                cache_entries(self.entries) == rest.filter(under_none_of(children.take(i as int))),
                self.expanded_dirs.wf(),
                self.expanded_dirs@ == expanded.filter(none_of(children.take(i as int))),
                self.stats.total_removes == removed + i,
                self.stats@ == (StatsView {
                    total_removes: self.stats.total_removes as nat,
                    ..before.stats
                }),
            decreases children_to_remove@.len() - i,
        {
            let child = &children_to_remove[i];
            proof {
                assert(child@ == children[i as int]);
                lemma_next_child(rest, children, i as int);
                lemma_next_expanded(expanded, children, i as int);
            }
            let _ = lru_pop(&mut self.entries, child.parts());
            let _ = self.expanded_dirs.remove(child);
            self.stats.total_removes += 1;
            i += 1;
        }
        assert(children.take(i as int) =~= children);
        assert(self@ =~= before.remove(path@));
    }

    /// Get an entry by path.
    pub fn get(&mut self, path: &FilePath) -> (result: Option<&FileEntry>)
        requires
            old(self).wf(),
        ensures
            final(self).wf(),
            final(self)@ == old(self)@.touch(path@),
            match result {
                Some(entry) => lookup(old(self)@.entries, path@) == Some(entry@),
                None => lookup(old(self)@.entries, path@) is None,
            },
    {
        let ghost before = self@;
        let result = lru_get(&mut self.entries, path.parts());
        proof {
            law_touch_keeps_wf(before, path@);
            if let Some(entry) = result {
                lemma_lookup(before.entries, path@, entry@);
            }
        }
        result
    }

    /// Get an entry by path without updating LRU order.
    pub fn peek(&self, path: &FilePath) -> (result: Option<&FileEntry>)
        requires
            self.wf(),
        ensures
            match result {
                Some(entry) => lookup(self@.entries, path@) == Some(entry@),
                None => lookup(self@.entries, path@) is None,
            },
    {
        let result = lru_peek(&self.entries, path.parts());
        proof {
            if let Some(entry) = result {
                lemma_lookup(self@.entries, path@, entry@);
            }
        }
        result
    }

    /// Check if an entry exists.
    pub fn contains(&self, path: &FilePath) -> (result: bool)
        ensures
            result == holds(self@.entries, path@),
    {
        lru_contains(&self.entries, path.parts())
    }

    /// Mark a directory as expanded in the UI.
    pub fn expand_dir(&mut self, path: &FilePath)
        requires
            old(self).wf(),
        ensures
            final(self).wf(),
            final(self)@ == old(self)@.expand(path@),
    {
        let _ = self.expanded_dirs.insert(path.clone());
        proof {
            self.expanded_dirs.lemma_no_duplicates();
        }
        assert(self@ =~= old(self)@.expand(path@));
    }

    /// Mark a directory as collapsed in the UI.
    pub fn collapse_dir(&mut self, path: &FilePath)
        requires
            old(self).wf(),
        ensures
            final(self).wf(),
            final(self)@ == old(self)@.collapse(path@),
    {
        let _ = self.expanded_dirs.remove(path);
        proof {
            self.expanded_dirs.lemma_no_duplicates();
        }
        assert(self@ =~= old(self)@.collapse(path@));
    }

    /// Check if a directory is expanded.
    pub fn is_expanded(&self, path: &FilePath) -> (result: bool)
        requires
            self.wf(),
        ensures
            result == self@.expanded.contains(path@),
    {
        self.expanded_dirs.contains(path)
    }

    /// Get all expanded directories.
    pub fn expanded_dirs(&self) -> (result: &PathSet)
        requires
            self.wf(),
        ensures
            result.wf(),
            result@ == self@.expanded,
    {
        &self.expanded_dirs
    }

    /// Get all entries with their paths, the most recently used first.
    pub fn iter(&self) -> (result: Vec<(&FilePath, &FileEntry)>)
        requires
            self.wf(),
        ensures
            result@.len() == self@.entries.len(),
            forall|i: int|
                0 <= i < result@.len() ==> self@.entries[i] == (
                    (#[trigger] result@[i]).0@,
                    result@[i].1@,
                ),
    {
        let items = lru_iter(&self.entries);
        let mut result: Vec<(&FilePath, &FileEntry)> = Vec::new();
        let mut i: usize = 0;
        while i < items.len()
            invariant
                self.wf(),
                i <= items@.len(),
                items@.len() == self@.entries.len(),
                forall|k: int|
                    0 <= k < items@.len() ==> self@.entries[k].1 == (#[trigger] items@[k]).1@,
                result@.len() == i,
                forall|k: int|
                    0 <= k < i ==> self@.entries[k] == (
                        (#[trigger] result@[k]).0@,
                        result@[k].1@,
                    ),
            decreases items@.len() - i,
        {
            let entry = items[i].1;
            proof {
                assert(self@.entries[i as int].1 == items@[i as int].1@);
                assert(self@.entries[i as int].1.path == self@.entries[i as int].0);
            }
            result.push((&entry.path, entry));
            i += 1;
        }
        result
    }

    /// Get children of a directory, the most recently used first.
    pub fn children(&self, parent: &FilePath) -> (result: Vec<&FileEntry>)
        requires
            self.wf(),
        ensures
            entries_view(result@) == values(self@.entries.filter(is_child(parent@))),
            forall|path: PathView| #[trigger]
                lookup(self@.entries, path) matches Some(entry) ==> (entries_view(
                    result@,
                ).contains(entry) <==> parent_of(path) == Some(parent@)),
    {
        let items = lru_iter(&self.entries);
        let mut result: Vec<&FileEntry> = Vec::new();
        let mut i: usize = 0;
        proof {
            reveal(Seq::filter);
            assert(self@.entries.take(0).filter(is_child(parent@)) =~= Seq::empty());
        }
        while i < items.len()
            invariant
                self.wf(),
                i <= items@.len(),
                items@.len() == self@.entries.len(),
                forall|k: int|
                    0 <= k < items@.len() ==> self@.entries[k].1 == (#[trigger] items@[k]).1@,
                entries_view(result@) == values(
                    self@.entries.take(i as int).filter(is_child(parent@)),
                ),
            decreases items@.len() - i,
        {
            let entry = items[i].1;
            let ghost taken = self@.entries.take(i as int);
            let ghost old_result = entries_view(result@);
            proof {
                reveal(Seq::filter);
                assert(self@.entries.take(i + 1).drop_last() =~= taken);
                assert(self@.entries[i as int].1.path == self@.entries[i as int].0);
                assert(self@.entries[i as int].1 == items@[i as int].1@);
            }
            if entry.path.is_child_of(parent) {
                result.push(entry);
                assert(entries_view(result@) =~= old_result.push(entry@));
                assert(values(taken.filter(is_child(parent@)).push(self@.entries[i as int]))
                    =~= values(taken.filter(is_child(parent@))).push(entry@));
            }
            i += 1;
        }
        assert(self@.entries.take(i as int) =~= self@.entries);
        proof {
            self.lemma_wf();
            assert forall|path: PathView| #[trigger]
                lookup(self@.entries, path) is Some implies (entries_view(result@).contains(
                lookup(self@.entries, path).unwrap(),
            ) <==> parent_of(path) == Some(parent@)) by {
                let entry = lookup(self@.entries, path).unwrap();
                law_children_are_all_that_lie_right_below(self@, parent@, path, entry);
            }
        }
        result
    }

    /// Apply a watcher event to one path.
    fn apply_to_path(&mut self, kind: EventKind, path: &FilePath, disk: &DiskState)
        requires
            old(self).wf(),
            old(self)@.observe(kind, path@, *disk).stats.fits(),
        ensures
            final(self).wf(),
            final(self)@ == old(self)@.observe(kind, path@, *disk),
    {
        match kind {
            EventKind::Create => {
                self.add_entry(path, disk.metadata);
            },
            EventKind::Remove => {
                self.remove_entry(path);
            },
            EventKind::Modify(_) => {
                self.update_entry(path, disk.metadata);
            },
            EventKind::Access => {
                // Ignore access events
            },
            EventKind::Other | EventKind::Any => {
                // For unknown events, refresh if the path exists
                if disk.exists {
                    self.update_entry(path, disk.metadata);
                } else {
                    self.remove_entry(path);
                }
            },
        }
    }

    /// Apply a watcher event to each of its paths, in order.
    pub(crate) fn apply_to_paths(
        &mut self,
        kind: EventKind,
        paths: &Vec<FilePath>,
        disk: &Vec<DiskState>,
    )
        requires
            old(self).wf(),
            disk@.len() == paths@.len(),
            old(self)@.observe_all(kind, paths_view(paths@), disk@).stats.fits(),
        ensures
            final(self).wf(),
            final(self)@ == old(self)@.observe_all(kind, paths_view(paths@), disk@),
    {
        let ghost before = self@;
        let ghost views = paths_view(paths@);
        let mut i: usize = 0;
        while i < paths.len()
            invariant
                i <= paths@.len(),
                disk@.len() == paths@.len(),
                views == paths_view(paths@),
                self.wf(),
                before.observe_all(kind, views, disk@).stats.fits(),
                self@ == before.observe_all(kind, views.take(i as int), disk@.take(i as int)),
            decreases paths@.len() - i,
        {
            proof {
                assert(views.take(i + 1).drop_last() =~= views.take(i as int));
                assert(disk@.take(i + 1).drop_last() =~= disk@.take(i as int));
                lemma_observe_all_grows(before, kind, views, disk@, i + 1);
            }
            self.apply_to_path(kind, &paths[i], &disk[i]);
            i += 1;
        }
        assert(views.take(i as int) =~= views);
        assert(disk@.take(i as int) =~= disk@);
    }

    /// Apply a watcher event directly (in-place, no clone), given what the disk shows of each of
    /// its paths.
    ///
    /// This is the preferred method for handling file watcher events
    /// as it avoids cloning the entire tree state.
    pub fn apply_event(&mut self, event: &WatchEvent, disk: &Vec<DiskState>)
        requires
            old(self).wf(),
            disk@.len() == event.paths@.len(),
            old(self)@.observe_all(
                event.kind,
                paths_view(event.paths@),
                disk@,
            ).enforced().stats.fits(),
        ensures
            final(self).wf(),
            final(self)@ == old(self)@.observe_all(
                event.kind,
                paths_view(event.paths@),
                disk@,
            ).enforced(),
            final(self).within_bounds(),
    {
        self.apply_to_paths(event.kind, &event.paths, disk);

        // Ensure we stay within bounds
        self.enforce_capacity();
    }

    /// Whether there are no more entries than the tree is meant to hold.
    pub open spec fn within_bounds(&self) -> bool {
        self@.entries.len() <= self@.max_entries
    }

    /// Enforce the maximum capacity by evicting LRU entries.
    fn enforce_capacity(&mut self)
        requires
            old(self).wf(),
            old(self)@.enforced().stats.fits(),
        ensures
            final(self).wf(),
            final(self)@ == old(self)@.enforced(),
    {
        let ghost before = self@;
        assert(before.entries.take(before.entries.len() as int) =~= before.entries);
        while lru_len(&self.entries) > self.max_entries
            invariant
                self.expanded_dirs.wf(),
                cache_limit(self.entries) == before.limit(),
                before.wf(),
                before.enforced().stats.fits(),
                self@.max_entries == before.max_entries,
                self@.expanded == before.expanded,
                self@.entries.len() <= before.entries.len(),
                before.entries.len() > before.max_entries ==> self@.entries.len()
                    >= before.max_entries,
                before.entries.len() <= before.max_entries ==> self@.entries.len()
                    == before.entries.len(),
                self@.entries == before.entries.take(self@.entries.len() as int),
                self@.stats == (StatsView {
                    total_evictions: (before.stats.total_evictions + before.entries.len()
                        - self@.entries.len()) as nat,
                    ..before.stats
                }),
            decreases self@.entries.len(),
        {
            let ghost count = self@.entries.len() as int;
            assert(self@.entries.drop_last() =~= before.entries.take(count - 1));
            if lru_pop_lru(&mut self.entries).is_some() {
                self.stats.total_evictions += 1;
            }
        }
        assert(self@ =~= before.enforced());
        proof {
            law_enforced_keeps_wf(before);
        }
    }

    /// Get a summary of the tree for debugging.
    pub fn debug_summary(&self) -> (result: String)
        ensures
            result@ == summary(self@),
    {
        let mut text = String::new();
        text.append("FileTreeEntryState: ");
        append_decimal(&mut text, lru_len(&self.entries) as u64);
        text.append(" entries (max: ");
        append_decimal(&mut text, self.max_entries as u64);
        text.append("), ");
        append_decimal(&mut text, self.expanded_dirs.len() as u64);
        text.append(" expanded dirs, stats: FileTreeStats { total_adds: ");
        append_decimal(&mut text, self.stats.total_adds);
        text.append(", total_removes: ");
        append_decimal(&mut text, self.stats.total_removes);
        text.append(", total_evictions: ");
        append_decimal(&mut text, self.stats.total_evictions);
        text.append(", total_refreshes: ");
        append_decimal(&mut text, self.stats.total_refreshes);
        text.append(" }");
        assert(text@ =~= summary(self@));
        text
    }
}

} // verus!
