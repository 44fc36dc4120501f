//! Repository metadata model for handling file watcher events.
//!
//! The model keeps the file tree up to date with what the watchers report and says which updates
//! the UI is to be notified of.

use crate::path::{FilePath, PathView};
use crate::path_set::paths_view;
use crate::repo_metadata::coalesce::{changes_view, ChangeView, FileChangeEvent, FileChangeKind};
use crate::repo_metadata::entry_cache::MAX_LIMIT;
use crate::repo_metadata::event::{DiskState, EventKind, ModifyKind};
use crate::repo_metadata::file_tree_store::FileTreeEntryState;
use crate::repo_metadata::tree_laws::law_counters_never_fall;
use crate::repo_metadata::tree_model::TreeModel;
use vstd::prelude::*;

verus! {

/// Update notification sent to UI components.
#[derive(Debug)]
pub struct FileTreeUpdate {
    /// Paths that were affected by the change.
    pub paths: Vec<FilePath>,
    /// The kind of change that occurred.
    pub kind: FileChangeKind,
    /// Whether this is a batch update (multiple files changed at once).
    pub is_batch: bool,
}

/// The contents of an update.
pub struct UpdateView {
    pub paths: Seq<PathView>,
    pub kind: FileChangeKind,
    pub is_batch: bool,
}

impl View for FileTreeUpdate {
    type V = UpdateView;

    open spec fn view(&self) -> UpdateView {
        UpdateView { paths: paths_view(self.paths@), kind: self.kind, is_batch: self.is_batch }
    }
}

/// A copy of a list of paths.
pub fn copy_paths(paths: &Vec<FilePath>) -> (result: Vec<FilePath>)
    ensures
        paths_view(result@) == paths_view(paths@),
{
    let mut result: Vec<FilePath> = Vec::with_capacity(paths.len());
    let mut i: usize = 0;
    assert(paths_view(result@) =~= paths_view(paths@).take(0));
    while i < paths.len()
        invariant
            i <= paths@.len(),
            paths_view(result@) == paths_view(paths@).take(i as int),
        decreases paths@.len() - i,
    {
        let ghost before = paths_view(result@);
        let path = paths[i].clone();
        result.push(path);
        assert(paths_view(result@) =~= before.push(path@));
        assert(paths_view(paths@).take(i + 1) =~= before.push(paths@[i as int]@));
        i += 1;
    }
    assert(paths_view(paths@).take(i as int) =~= paths_view(paths@));
    result
}

impl Clone for FileTreeUpdate {
    fn clone(&self) -> (result: Self)
        ensures
            result@ == self@,
    {
        FileTreeUpdate {
            paths: copy_paths(&self.paths),
            kind: self.kind,
            is_batch: self.is_batch,
        }
    }
}

/// The contents of a list of updates.
pub open spec fn updates_view(updates: Seq<FileTreeUpdate>) -> Seq<UpdateView> {
    Seq::new(updates.len(), |i: int| updates[i]@)
}

/// The paths of the events of a kind, in order.
pub open spec fn paths_of_kind(events: Seq<ChangeView>, kind: FileChangeKind) -> Seq<PathView>
    decreases events.len(),
{
    if events.len() == 0 {
        Seq::empty()
    } else {
        let before = paths_of_kind(events.drop_last(), kind);
        if events.last().kind == kind {
            before.push(events.last().path)
        } else {
            before
        }
    }
}

/// What the disk shows of the paths of the events of a kind, in order.
pub open spec fn disk_of_kind(
    events: Seq<ChangeView>,
    disk: Seq<DiskState>,
    kind: FileChangeKind,
) -> Seq<DiskState>
    decreases events.len(),
{
    if events.len() == 0 {
        Seq::empty()
    } else {
        let before = disk_of_kind(events.drop_last(), disk.drop_last(), kind);
        if events.last().kind == kind {
            before.push(disk.last())
        } else {
            before
        }
    }
}

/// What the changes of a kind do to the tree: creations add, removals remove, and modifications
/// and renames update.
pub open spec fn effect_of(kind: FileChangeKind) -> EventKind {
    match kind {
        FileChangeKind::Create => EventKind::Create,
        FileChangeKind::Modify => EventKind::Modify(ModifyKind::Other),
        FileChangeKind::Remove => EventKind::Remove,
        FileChangeKind::Rename => EventKind::Modify(ModifyKind::Name),
    }
}

/// The tree after the events of a kind.
pub open spec fn after_kind(
    tree: TreeModel,
    events: Seq<ChangeView>,
    disk: Seq<DiskState>,
    kind: FileChangeKind,
) -> TreeModel {
    tree.observe_all(effect_of(kind), paths_of_kind(events, kind), disk_of_kind(events, disk, kind))
}

/// The tree after events: creations first, then modifications, removals and renames.
pub open spec fn after_events(
    tree: TreeModel,
    events: Seq<ChangeView>,
    disk: Seq<DiskState>,
) -> TreeModel {
    let created = after_kind(tree, events, disk, FileChangeKind::Create);
    let modified = after_kind(created, events, disk, FileChangeKind::Modify);
    let removed = after_kind(modified, events, disk, FileChangeKind::Remove);
    after_kind(removed, events, disk, FileChangeKind::Rename)
}

/// The update for the events of a kind, if there are any.
pub open spec fn update_of_kind(events: Seq<ChangeView>, kind: FileChangeKind) -> Seq<UpdateView> {
    let paths = paths_of_kind(events, kind);
    if paths.len() > 0 {
        seq![UpdateView { paths, kind, is_batch: events.len() > 1 }]
    } else {
        Seq::empty()
    }
}

/// The updates for events: one for each kind that occurs.
pub open spec fn updates_for(events: Seq<ChangeView>) -> Seq<UpdateView> {
    update_of_kind(events, FileChangeKind::Create) + update_of_kind(events, FileChangeKind::Modify)
        + update_of_kind(events, FileChangeKind::Remove) + update_of_kind(
        events,
        FileChangeKind::Rename,
    )
}

/// There is a state of the disk for every path.
pub proof fn lemma_disk_of_kind_len(
    events: Seq<ChangeView>,
    disk: Seq<DiskState>,
    kind: FileChangeKind,
)
    ensures
        disk_of_kind(events, disk, kind).len() == paths_of_kind(events, kind).len(),
        paths_of_kind(events, kind).len() <= events.len(),
    decreases events.len(),
{
    if events.len() > 0 {
        lemma_disk_of_kind_len(events.drop_last(), disk.drop_last(), kind);
    }
}

/// A repository: its file tree, its root and the size of its notification buffer.
#[verifier::ext_equal]
pub struct RepositoryView {
    pub tree: TreeModel,
    pub root: PathView,
    pub buffer_size: nat,
}

/// Whether a notification channel can be made with a buffer of this size.
pub open spec fn is_buffer_size(size: usize) -> bool {
    0 < size <= usize::MAX / 2
}

/// Model for managing repository metadata and file tree state.
///
/// This model:
/// - Maintains the file tree state in memory
/// - Processes file watcher events
/// - Says which updates UI components are to be notified of
pub struct RepositoryMetadataModel {
    /// The file tree state.
    file_tree: FileTreeEntryState,
    /// Root path being watched.
    root_path: FilePath,
    /// Size of the UI notification buffer.
    buffer_size: usize,
}

impl View for RepositoryMetadataModel {
    type V = RepositoryView;

    closed spec fn view(&self) -> RepositoryView {
        RepositoryView {
            tree: self.file_tree@,
            root: self.root_path@,
            buffer_size: self.buffer_size as nat,
        }
    }
}

impl RepositoryMetadataModel {
    /// The tree is well-formed.
    pub closed spec fn wf(&self) -> bool {
        self.file_tree.wf()
    }

    /// What a well-formed model means for its tree.
    pub proof fn lemma_wf(&self)
        requires
            self.wf(),
        ensures
            self@.tree.wf(),
            self@.tree.stats.fits(),
    {
        self.file_tree.lemma_wf();
    }

    /// Creates a new repository metadata model.
    ///
    /// # Arguments
    /// * `root_path` - The root path of the repository/project
    /// * `max_entries` - Maximum entries in the file tree cache
    /// * `buffer_size` - Size of the UI notification buffer
    pub fn new(root_path: FilePath, max_entries: usize, buffer_size: usize) -> (result: Self)
        requires
            max_entries <= MAX_LIMIT,
            is_buffer_size(buffer_size),
        ensures
            result.wf(),
            result@ == (RepositoryView {
                tree: TreeModel::empty(max_entries as nat),
                root: root_path@,
                buffer_size: buffer_size as nat,
            }),
    {
        RepositoryMetadataModel {
            file_tree: FileTreeEntryState::new(max_entries),
            root_path,
            buffer_size,
        }
    }

    /// Get a read-only reference to the file tree state.
    pub fn file_tree(&self) -> (result: &FileTreeEntryState)
        requires
            self.wf(),
        ensures
            result.wf(),
            result@ == self@.tree,
    {
        &self.file_tree
    }

    /// Get a mutable reference to the file tree state, for what the UI does to it: expanding and
    /// collapsing directories, and using entries.
    pub fn file_tree_mut(&mut self) -> (result: &mut FileTreeEntryState)
        requires
            old(self).wf(),
        ensures
            result.wf(),
            result@ == old(self)@.tree,
            final(result).wf() ==> final(self).wf(),
            final(self)@ == (RepositoryView { tree: final(result)@, ..old(self)@ }),
    {
        &mut self.file_tree
    }

    /// Get the root path being watched.
    pub fn root_path(&self) -> (result: &FilePath)
        ensures
            result@ == self@.root,
    {
        &self.root_path
    }

    /// Get the size of the UI notification buffer.
    pub fn buffer_size(&self) -> (result: usize)
        ensures
            result == self@.buffer_size,
    {
        self.buffer_size
    }

    /// Apply the events of one kind to the tree.
    fn apply_kind(
        &mut self,
        kind: FileChangeKind,
        paths: &Vec<FilePath>,
        disk: &Vec<DiskState>,
        Ghost(events): Ghost<Seq<ChangeView>>,
        Ghost(all_disk): Ghost<Seq<DiskState>>,
    )
        requires
            old(self).wf(),
            paths_view(paths@) == paths_of_kind(events, kind),
            disk@ == disk_of_kind(events, all_disk, kind),
            after_kind(old(self)@.tree, events, all_disk, kind).stats.fits(),
        ensures
            final(self).wf(),
            final(self)@ == (RepositoryView {
                tree: after_kind(old(self)@.tree, events, all_disk, kind),
                ..old(self)@
            }),
    {
        proof {
            lemma_disk_of_kind_len(events, all_disk, kind);
        }
        let effect = match kind {
            FileChangeKind::Create => EventKind::Create,
            FileChangeKind::Modify => EventKind::Modify(ModifyKind::Other),
            FileChangeKind::Remove => EventKind::Remove,
            FileChangeKind::Rename => EventKind::Modify(ModifyKind::Name),
        };
        self.file_tree.apply_to_paths(effect, paths, disk);
    }

    /// The paths of the events of a kind, with what the disk shows of them.
    fn pick(
        events: &Vec<FileChangeEvent>,
        disk: &Vec<DiskState>,
        kind: FileChangeKind,
    ) -> (result: (Vec<FilePath>, Vec<DiskState>))
        requires
            disk@.len() == events@.len(),
        ensures
            paths_view(result.0@) == paths_of_kind(changes_view(events@), kind),
            result.1@ == disk_of_kind(changes_view(events@), disk@, kind),
    {
        let ghost views = changes_view(events@);
        let mut paths: Vec<FilePath> = Vec::new();
        let mut states: Vec<DiskState> = Vec::new();
        let mut i: usize = 0;
        assert(paths_view(paths@) =~= Seq::<PathView>::empty());
        while i < events.len()
            invariant
                i <= events@.len(),
                disk@.len() == events@.len(),
                views == changes_view(events@),
                paths_view(paths@) == paths_of_kind(views.take(i as int), kind),
                states@ == disk_of_kind(views.take(i as int), disk@.take(i as int), kind),
            decreases events@.len() - i,
        {
            let event = &events[i];
            let ghost before = paths_view(paths@);
            proof {
                assert(views.take(i + 1).drop_last() =~= views.take(i as int));
                assert(disk@.take(i + 1).drop_last() =~= disk@.take(i as int));
                assert(views.take(i + 1).last() == event@);
            }
            if event.kind == kind {
                let path = event.path.clone();
                paths.push(path);
                states.push(disk[i]);
                assert(paths_view(paths@) =~= before.push(path@));
            }
            i += 1;
        }
        assert(views.take(i as int) =~= views);
        assert(disk@.take(i as int) =~= disk@);
        (paths, states)
    }

    /// Adds the update for the events of a kind, if there are any.
    fn announce(
        updates: &mut Vec<FileTreeUpdate>,
        kind: FileChangeKind,
        paths: Vec<FilePath>,
        is_batch: bool,
        Ghost(events): Ghost<Seq<ChangeView>>,
    )
        requires
            paths_view(paths@) == paths_of_kind(events, kind),
            is_batch == (events.len() > 1),
        ensures
            updates_view(final(updates)@) == updates_view(old(updates)@) + update_of_kind(
                events,
                kind,
            ),
    {
        if paths.len() > 0 {
            let update = FileTreeUpdate { paths, kind, is_batch };
            updates.push(update);
            assert(updates_view(updates@) =~= updates_view(old(updates)@).push(update@));
            assert(updates_view(old(updates)@).push(update@) =~= updates_view(old(updates)@)
                + update_of_kind(events, kind));
        } else {
            assert(updates_view(updates@) =~= updates_view(old(updates)@) + update_of_kind(
                events,
                kind,
            ));
        }
    }

    /// Handle a batch of watcher events, given what the disk shows of the path of each.
    ///
    /// Returns the updates that the UI is to be notified of.
    pub fn handle_watcher_events(
        &mut self,
        events: Vec<FileChangeEvent>,
        disk: &Vec<DiskState>,
    ) -> (result: Vec<FileTreeUpdate>)
        requires
            old(self).wf(),
            disk@.len() == events@.len(),
            after_events(old(self)@.tree, changes_view(events@), disk@).stats.fits(),
        ensures
            final(self).wf(),
            final(self)@ == (RepositoryView {
                tree: after_events(old(self)@.tree, changes_view(events@), disk@),
                ..old(self)@
            }),
            updates_view(result@) == updates_for(changes_view(events@)),
    {
        let ghost views = changes_view(events@);
        let ghost states = disk@;
        let mut updates: Vec<FileTreeUpdate> = Vec::new();
        assert(updates_view(updates@) =~= Seq::<UpdateView>::empty());
        if events.len() == 0 {
            assert(self@ =~= old(self)@);
            assert(updates_for(views) =~= Seq::<UpdateView>::empty());
            return updates;
        }
        let is_batch = events.len() > 1;

        // Group events by kind for more efficient updates
        let (creates, creates_disk) = Self::pick(&events, disk, FileChangeKind::Create);
        let (modifies, modifies_disk) = Self::pick(&events, disk, FileChangeKind::Modify);
        let (removes, removes_disk) = Self::pick(&events, disk, FileChangeKind::Remove);
        let (renames, renames_disk) = Self::pick(&events, disk, FileChangeKind::Rename);

        proof {
            lemma_stages_fit(self@.tree, views, states);
        }
        self.apply_kind(
            FileChangeKind::Create,
            &creates,
            &creates_disk,
            Ghost(views),
            Ghost(states),
        );
        self.apply_kind(
            FileChangeKind::Modify,
            &modifies,
            &modifies_disk,
            Ghost(views),
            Ghost(states),
        );
        self.apply_kind(
            FileChangeKind::Remove,
            &removes,
            &removes_disk,
            Ghost(views),
            Ghost(states),
        );
        self.apply_kind(
            FileChangeKind::Rename,
            &renames,
            &renames_disk,
            Ghost(views),
            Ghost(states),
        );

        // CRITICAL: Notify UI that changes occurred
        Self::announce(&mut updates, FileChangeKind::Create, creates, is_batch, Ghost(views));
        Self::announce(&mut updates, FileChangeKind::Modify, modifies, is_batch, Ghost(views));
        Self::announce(&mut updates, FileChangeKind::Remove, removes, is_batch, Ghost(views));
        Self::announce(&mut updates, FileChangeKind::Rename, renames, is_batch, Ghost(views));
        assert(updates_view(updates@) =~= updates_for(views));
        updates
    }

    /// Handle a single watcher event (convenience method).
    pub fn handle_watcher_event(&mut self, event: FileChangeEvent, disk: DiskState) -> (result: Vec<
        FileTreeUpdate,
    >)
        requires
            old(self).wf(),
            after_events(old(self)@.tree, seq![event@], seq![disk]).stats.fits(),
        ensures
            final(self).wf(),
            final(self)@ == (RepositoryView {
                tree: after_events(old(self)@.tree, seq![event@], seq![disk]),
                ..old(self)@
            }),
            updates_view(result@) == seq![
                UpdateView { paths: seq![event@.path], kind: event.kind, is_batch: false },
            ],
    {
        let ghost view = event@;
        let events: Vec<FileChangeEvent> = vec![event];
        let states: Vec<DiskState> = vec![disk];
        assert(changes_view(events@) =~= seq![view]);
        assert(states@ =~= seq![disk]);
        proof {
            lemma_single_update(view);
        }
        self.handle_watcher_events(events, &states)
    }

    /// Force a full refresh of the file tree, given the paths that a scan found and what the disk
    /// shows of them.
    ///
    /// This rebuilds the tree. Returns the update that the UI is to be notified of.
    pub fn refresh(&mut self, paths: Vec<FilePath>, disk: &Vec<DiskState>) -> (result:
        FileTreeUpdate)
        requires
            old(self).wf(),
            disk@.len() == paths@.len(),
            old(self)@.tree.cleared().observe_all(
                EventKind::Create,
                paths_view(paths@),
                disk@,
            ).stats.fits(),
        ensures
            final(self).wf(),
            final(self)@ == (RepositoryView {
                tree: old(self)@.tree.cleared().observe_all(
                    EventKind::Create,
                    paths_view(paths@),
                    disk@,
                ),
                ..old(self)@
            }),
            result@ == (UpdateView {
                paths: paths_view(paths@),
                kind: FileChangeKind::Create,
                is_batch: true,
            }),
    {
        self.file_tree.clear();
        self.file_tree.apply_to_paths(EventKind::Create, &paths, disk);
        FileTreeUpdate { paths, kind: FileChangeKind::Create, is_batch: true }
    }
}

/// The counters fit after each kind where they fit after all.
proof fn lemma_stages_fit(tree: TreeModel, events: Seq<ChangeView>, disk: Seq<DiskState>)
    requires
        after_events(tree, events, disk).stats.fits(),
    ensures
        ({
            let created = after_kind(tree, events, disk, FileChangeKind::Create);
            let modified = after_kind(created, events, disk, FileChangeKind::Modify);
            let removed = after_kind(modified, events, disk, FileChangeKind::Remove);
            created.stats.fits() && modified.stats.fits() && removed.stats.fits()
        }),
{
    let created = after_kind(tree, events, disk, FileChangeKind::Create);
    let modified = after_kind(created, events, disk, FileChangeKind::Modify);
    let removed = after_kind(modified, events, disk, FileChangeKind::Remove);
    lemma_disk_of_kind_len(events, disk, FileChangeKind::Modify);
    lemma_disk_of_kind_len(events, disk, FileChangeKind::Remove);
    lemma_disk_of_kind_len(events, disk, FileChangeKind::Rename);
    law_counters_never_fall(
        created,
        effect_of(FileChangeKind::Modify),
        paths_of_kind(events, FileChangeKind::Modify),
        disk_of_kind(events, disk, FileChangeKind::Modify),
    );
    law_counters_never_fall(
        modified,
        effect_of(FileChangeKind::Remove),
        paths_of_kind(events, FileChangeKind::Remove),
        disk_of_kind(events, disk, FileChangeKind::Remove),
    );
    law_counters_never_fall(
        removed,
        effect_of(FileChangeKind::Rename),
        paths_of_kind(events, FileChangeKind::Rename),
        disk_of_kind(events, disk, FileChangeKind::Rename),
    );
}

/// A single event makes a single update.
proof fn lemma_single_update(event: ChangeView)
    ensures
        updates_for(seq![event]) == seq![
            UpdateView { paths: seq![event.path], kind: event.kind, is_batch: false },
        ],
{
    let events = seq![event];
    assert(events.drop_last() =~= Seq::<ChangeView>::empty());
    assert forall|kind: FileChangeKind| #[trigger] paths_of_kind(events, kind) == (if kind
        == event.kind {
        seq![event.path]
    } else {
        Seq::<PathView>::empty()
    }) by {
        assert(paths_of_kind(events.drop_last(), kind) =~= Seq::<PathView>::empty());
        assert(Seq::<PathView>::empty().push(event.path) =~= seq![event.path]);
    }
    assert(updates_for(events) =~= seq![
        UpdateView { paths: seq![event.path], kind: event.kind, is_batch: false },
    ]);
}

/// Builder for RepositoryMetadataModel with sensible defaults.
pub struct RepositoryMetadataModelBuilder {
    root_path: FilePath,
    max_entries: usize,
    buffer_size: usize,
}

/// What a builder was told.
#[verifier::ext_equal]
pub struct BuilderView {
    pub root: PathView,
    pub max_entries: usize,
    pub buffer_size: usize,
}

impl View for RepositoryMetadataModelBuilder {
    type V = BuilderView;

    closed spec fn view(&self) -> BuilderView {
        BuilderView {
            root: self.root_path@,
            max_entries: self.max_entries,
            buffer_size: self.buffer_size,
        }
    }
}

impl RepositoryMetadataModelBuilder {
    /// A builder with the defaults: 100k entries and 256 pending updates.
    pub fn new(root_path: FilePath) -> (result: Self)
        ensures
            result@ == (BuilderView {
                root: root_path@,
                max_entries: 100_000,
                buffer_size: 256,
            }),
    {
        RepositoryMetadataModelBuilder { root_path, max_entries: 100_000, buffer_size: 256 }
    }

    /// Set the maximum entries in the file tree cache.
    pub fn max_entries(self, max: usize) -> (result: Self)
        ensures
            result@ == (BuilderView { max_entries: max, ..self@ }),
    {
        RepositoryMetadataModelBuilder {
            root_path: self.root_path,
            max_entries: max,
            buffer_size: self.buffer_size,
        }
    }

    /// Set the size of the UI notification buffer.
    pub fn buffer_size(self, size: usize) -> (result: Self)
        ensures
            result@ == (BuilderView { buffer_size: size, ..self@ }),
    {
        RepositoryMetadataModelBuilder {
            root_path: self.root_path,
            max_entries: self.max_entries,
            buffer_size: size,
        }
    }

    /// Build the model.
    pub fn build(self) -> (result: RepositoryMetadataModel)
        requires
            self@.max_entries <= MAX_LIMIT,
            is_buffer_size(self@.buffer_size),
        ensures
            result.wf(),
            result@ == (RepositoryView {
                tree: TreeModel::empty(self@.max_entries as nat),
                root: self@.root,
                buffer_size: self@.buffer_size as nat,
            }),
    {
        RepositoryMetadataModel::new(self.root_path, self.max_entries, self.buffer_size)
    }
}

} // verus!
