//! Project Explorer UI component for listening to file tree updates.
//!
//! `ProjectExplorerPane` decides what becomes of the tree view when an update arrives, and which
//! callbacks are to be invoked for it. Whoever drives the pane receives from the update channel,
//! hands in what came, and invokes the callbacks that it gets back.

use crate::path::{FilePath, PathView};
use crate::path_set::{paths_view, PathSet};
use crate::repo_metadata::coalesce::FileChangeKind;
use crate::repo_metadata::model::FileTreeUpdate;
use crate::ui::view_model::{
    after_invalidation, asks_for_redraw, with_path, ReceivedView, ViewModel,
};
use std::sync::Arc;
use vstd::prelude::*;

verus! {

/// State of the tree view component.
#[derive(Debug)]
pub struct TreeViewState {
    /// Currently selected path.
    pub selected: Option<FilePath>,
    /// Paths that need to be redrawn.
    pub dirty_paths: PathSet,
    /// Whether a full redraw is needed.
    pub needs_full_redraw: bool,
}

/// The contents of an optional path.
pub open spec fn optional_path(path: Option<FilePath>) -> Option<PathView> {
    match path {
        Some(path) => Some(path@),
        None => None,
    }
}

impl View for TreeViewState {
    type V = ViewModel;

    open spec fn view(&self) -> ViewModel {
        ViewModel {
            selected: optional_path(self.selected),
            dirty: self.dirty_paths@,
            needs_full_redraw: self.needs_full_redraw,
        }
    }
}

impl TreeViewState {
    /// The set of dirty paths is well-formed.
    pub open spec fn wf(&self) -> bool {
        self.dirty_paths.wf()
    }
}

impl Default for TreeViewState {
    fn default() -> (result: Self)
        ensures
            result.wf(),
            result@ == ViewModel::start(),
    {
        TreeViewState { selected: None, dirty_paths: PathSet::new(), needs_full_redraw: false }
    }
}

impl Clone for TreeViewState {
    fn clone(&self) -> (result: Self)
        ensures
            result.wf(),
            self.wf() ==> result@ == self@,
    {
        TreeViewState {
            selected: match &self.selected {
                Some(path) => Some(path.clone()),
                None => None,
            },
            dirty_paths: self.dirty_paths.clone(),
            needs_full_redraw: self.needs_full_redraw,
        }
    }
}

/// A tree view with its callbacks.
#[verifier::ext_equal]
pub struct HandleView<I, R> {
    pub state: ViewModel,
    pub invalidate_cb: Option<I>,
    pub redraw_cb: Option<R>,
}

/// The tree view with its callbacks. `I` is the callback for UI invalidation and `R` the one for
/// requesting a redraw.
pub struct TreeViewHandle<I, R> {
    state: TreeViewState,
    invalidate_cb: Option<Arc<I>>,
    redraw_cb: Option<Arc<R>>,
}

/// The value that is shared, where there is one.
pub open spec fn shared<C>(value: Option<Arc<C>>) -> Option<C> {
    match value {
        Some(value) => Some(*value),
        None => None,
    }
}

/// `Arc::clone` makes another pointer to the same value.
#[verifier::external_body]
fn share<C>(value: &Arc<C>) -> (result: Arc<C>)
    ensures
        *result == **value,
{
    Arc::clone(value)
}

/// Shares a value once more, where there is one.
fn share_optional<C>(value: &Option<Arc<C>>) -> (result: Option<Arc<C>>)
    ensures
        shared(result) == shared(*value),
{
    match value {
        Some(value) => Some(share(value)),
        None => None,
    }
}

/// A reference to a shared value, where there is one.
fn borrow_optional<C>(value: &Option<Arc<C>>) -> (result: Option<&C>)
    ensures
        callback(shared(*value), result),
{
    match value {
        Some(value) => Some(&**value),
        None => None,
    }
}

impl<I, R> View for TreeViewHandle<I, R> {
    type V = HandleView<I, R>;

    closed spec fn view(&self) -> HandleView<I, R> {
        HandleView {
            state: self.state@,
            invalidate_cb: shared(self.invalidate_cb),
            redraw_cb: shared(self.redraw_cb),
        }
    }
}

/// The callback, where there is one.
pub open spec fn callback<C>(registered: Option<C>, result: Option<&C>) -> bool {
    match registered {
        Some(cb) => result == Some(&cb),
        None => result is None,
    }
}

impl<I, R> TreeViewHandle<I, R> {
    /// The state of the tree view is well-formed.
    pub closed spec fn wf(&self) -> bool {
        self.state.wf()
    }

    /// Create a new tree view handle.
    pub fn new() -> (result: Self)
        ensures
            result.wf(),
            result@ == (HandleView::<I, R> {
                state: ViewModel::start(),
                invalidate_cb: None,
                redraw_cb: None,
            }),
    {
        TreeViewHandle { state: TreeViewState::default(), invalidate_cb: None, redraw_cb: None }
    }

    /// Set the invalidation callback.
    pub fn set_invalidate_callback(&mut self, cb: I)
        requires
            old(self).wf(),
        ensures
            final(self).wf(),
            final(self)@ == (HandleView { invalidate_cb: Some(cb), ..old(self)@ }),
    {
        self.invalidate_cb = Some(Arc::new(cb));
    }

    /// Set the redraw callback.
    pub fn set_redraw_callback(&mut self, cb: R)
        requires
            old(self).wf(),
        ensures
            final(self).wf(),
            final(self)@ == (HandleView { redraw_cb: Some(cb), ..old(self)@ }),
    {
        self.redraw_cb = Some(Arc::new(cb));
    }

    /// Mark specific paths as needing redraw, with their parent directories.
    fn mark_dirty(&mut self, paths: &Vec<FilePath>)
        requires
            old(self).wf(),
        ensures
            final(self).wf(),
            final(self)@ == (HandleView {
                state: old(self)@.state.invalidated(paths_view(paths@)),
                ..old(self)@
            }),
    {
        let ghost start = self@;
        let ghost views = paths_view(paths@);
        let mut i: usize = 0;
        assert(views.take(0) =~= Seq::<PathView>::empty());
        while i < paths.len()
            invariant
                i <= paths@.len(),
                views == paths_view(paths@),
                self.wf(),
                self@ == (HandleView {
                    state: start.state.invalidated(views.take(i as int)),
                    ..start
                }),
            decreases paths@.len() - i,
        {
            let path = &paths[i];
            let ghost before = self@.state.dirty;
            proof {
                assert(views.take(i + 1).drop_last() =~= views.take(i as int));
                assert(views.take(i + 1).last() == path@);
            }
            self.state.dirty_paths.insert(path.clone());
            assert(self@.state.dirty == with_path(before, path@));
            if let Some(parent) = path.parent() {
                self.state.dirty_paths.insert(parent);
            }
            assert(self@.state.dirty == after_invalidation(
                start.state.dirty,
                views.take(i + 1),
            ));
            i += 1;
        }
        assert(views.take(i as int) =~= views);
    }

    /// Mark specific paths as needing redraw.
    ///
    /// Returns the invalidation callback, which is to be invoked on the paths, if it is set.
    pub fn invalidate_paths(&mut self, paths: &Vec<FilePath>) -> (result: Option<&I>)
        requires
            old(self).wf(),
        ensures
            final(self).wf(),
            final(self)@ == (HandleView {
                state: old(self)@.state.invalidated(paths_view(paths@)),
                ..old(self)@
            }),
            callback(old(self)@.invalidate_cb, result),
    {
        self.mark_dirty(paths);
        borrow_optional(&self.invalidate_cb)
    }

    /// Request a redraw of the tree view.
    ///
    /// Returns the redraw callback, which is to be invoked, if it is set.
    pub fn request_redraw(&mut self) -> (result: Option<&R>)
        requires
            old(self).wf(),
        ensures
            final(self).wf(),
            final(self)@ == (HandleView {
                state: old(self)@.state.redraw_requested(),
                ..old(self)@
            }),
            callback(old(self)@.redraw_cb, result),
    {
        self.state.needs_full_redraw = true;
        borrow_optional(&self.redraw_cb)
    }

    /// Clear the dirty state after redraw.
    pub fn clear_dirty(&mut self)
        requires
            old(self).wf(),
        ensures
            final(self).wf(),
            final(self)@ == (HandleView { state: old(self)@.state.cleared(), ..old(self)@ }),
    {
        self.state.dirty_paths.clear();
        self.state.needs_full_redraw = false;
    }

    /// Get the current selected path.
    pub fn selected(&self) -> (result: Option<FilePath>)
        ensures
            optional_path(result) == self@.state.selected,
    {
        match &self.state.selected {
            Some(path) => Some(path.clone()),
            None => None,
        }
    }

    /// Set the selected path.
    pub fn set_selected(&mut self, path: Option<FilePath>)
        requires
            old(self).wf(),
        ensures
            final(self).wf(),
            final(self)@ == (HandleView {
                state: ViewModel { selected: optional_path(path), ..old(self)@.state },
                ..old(self)@
            }),
    {
        self.state.selected = path;
    }

    /// Check if a path is dirty.
    pub fn is_dirty(&self, path: &FilePath) -> (result: bool)
        requires
            self.wf(),
        ensures
            result == self@.state.dirty.contains(path@),
    {
        self.state.dirty_paths.contains(path)
    }

    /// Check if a full redraw is needed.
    pub fn needs_full_redraw(&self) -> (result: bool)
        ensures
            result == self@.state.needs_full_redraw,
    {
        self.state.needs_full_redraw
    }
}

impl<I, R> Default for TreeViewHandle<I, R> {
    fn default() -> (result: Self)
        ensures
            result.wf(),
            result@ == (HandleView::<I, R> {
                state: ViewModel::start(),
                invalidate_cb: None,
                redraw_cb: None,
            }),
    {
        TreeViewHandle::new()
    }
}

/// What a listener gets from the update channel.
#[derive(Debug)]
pub enum Received {
    /// An update of the file tree.
    Update(FileTreeUpdate),
    /// The listener fell behind by that many updates.
    Lagged(u64),
    /// The channel is closed.
    Closed,
}

impl View for Received {
    type V = ReceivedView;

    open spec fn view(&self) -> ReceivedView {
        match self {
            Received::Update(update) => ReceivedView::Update(update@),
            Received::Lagged(_) => ReceivedView::Lagged,
            Received::Closed => ReceivedView::Closed,
        }
    }
}

/// What a listener is to do about something that it received, in this order.
pub struct ListenerStep<'a, I, R> {
    /// The callback to invoke on the paths of the update.
    pub invalidate: Option<&'a I>,
    /// The callback to invoke for a redraw.
    pub redraw: Option<&'a R>,
    /// Whether the listener is done.
    pub stop: bool,
}

/// A listener: which of its pane's it is, and its callbacks.
#[verifier::ext_equal]
pub struct ListenerView<I, R> {
    pub id: nat,
    pub invalidate_cb: Option<I>,
    pub redraw_cb: Option<R>,
}

/// A listener of a pane. It keeps the callbacks that were set when it was set up.
pub struct Listener<I, R> {
    id: usize,
    invalidate_cb: Option<Arc<I>>,
    redraw_cb: Option<Arc<R>>,
}

impl<I, R> View for Listener<I, R> {
    type V = ListenerView<I, R>;

    closed spec fn view(&self) -> ListenerView<I, R> {
        ListenerView {
            id: self.id as nat,
            invalidate_cb: shared(self.invalidate_cb),
            redraw_cb: shared(self.redraw_cb),
        }
    }
}

/// A pane: its tree view, its file tree and its listeners.
#[verifier::ext_equal]
pub struct PaneView<I, R, T, H> {
    pub tree_view: HandleView<I, R>,
    pub file_tree: T,
    /// The listener that was set up last and not stopped, with the handle of its task.
    pub listener: Option<(nat, H)>,
    /// For each listener that was set up, whether it was stopped.
    pub stopped: Seq<bool>,
}

/// Whether something that was received is an update or a lag that asks for a redraw.
pub open spec fn redraws(received: ReceivedView) -> bool {
    match received {
        ReceivedView::Update(update) => asks_for_redraw(update),
        ReceivedView::Lagged => true,
        ReceivedView::Closed => false,
    }
}

impl<I, R, T, H> PaneView<I, R, T, H> {
    /// The listener that is not stopped is one that was set up.
    pub open spec fn wf(self) -> bool {
        self.listener matches Some((id, _)) ==> id < self.stopped.len()
    }

    /// The pane with a tree view at the start, and no listener.
    pub open spec fn start(
        file_tree: T,
        invalidate_cb: Option<I>,
        redraw_cb: Option<R>,
    ) -> PaneView<I, R, T, H> {
        PaneView {
            tree_view: HandleView { state: ViewModel::start(), invalidate_cb, redraw_cb },
            file_tree,
            listener: None,
            stopped: Seq::empty(),
        }
    }

    /// The listener that is set up next.
    pub open spec fn next_listener(self) -> ListenerView<I, R> {
        ListenerView {
            id: self.stopped.len(),
            invalidate_cb: self.tree_view.invalidate_cb,
            redraw_cb: self.tree_view.redraw_cb,
        }
    }

    /// The pane with the next listener, whose task has that handle. A listener that was there goes
    /// on.
    pub open spec fn listening(self, handle: H) -> PaneView<I, R, T, H> {
        PaneView {
            listener: Some((self.stopped.len(), handle)),
            stopped: self.stopped.push(false),
            ..self
        }
    }

    /// The pane with its listener stopped.
    pub open spec fn after_stop(self) -> PaneView<I, R, T, H> {
        match self.listener {
            Some((id, _)) => PaneView {
                listener: None,
                stopped: self.stopped.update(id as int, true),
                ..self
            },
            None => self,
        }
    }

    /// Whether a listener was stopped.
    pub open spec fn is_stopped(self, id: nat) -> bool {
        id < self.stopped.len() && self.stopped[id as int]
    }

    /// The pane after a listener received something. What a stopped one receives is dropped.
    pub open spec fn after_receiving(self, id: nat, received: ReceivedView) -> PaneView<
        I,
        R,
        T,
        H,
    > {
        if self.is_stopped(id) {
            self
        } else {
            PaneView {
                tree_view: HandleView {
                    state: self.tree_view.state.after_receiving(received),
                    ..self.tree_view
                },
                ..self
            }
        }
    }

    /// Whether the pane listens, where `finished` tells of a task whether it is done.
    pub open spec fn is_listening(self, finished: spec_fn(H) -> bool) -> bool {
        match self.listener {
            Some((_, handle)) => !finished(handle),
            None => false,
        }
    }
}

/// Project Explorer pane component.
///
/// This component:
/// - Takes in file tree updates from the update channel
/// - Invalidates affected paths in the tree view
/// - Asks for UI redraws when changes occur
///
/// `T` is a reference to the file tree state, and `H` a handle of the task that listens to the
/// update channel.
pub struct ProjectExplorerPane<I, R, T, H> {
    /// Handle to the tree view for UI updates.
    tree_view: TreeViewHandle<I, R>,
    /// Reference to the file tree state.
    file_tree: T,
    /// The listener that was set up last, with the handle of its task.
    listener_handle: Option<(usize, H)>,
    /// For each listener that was set up, whether it was stopped.
    stopped: Vec<bool>,
}

impl<I, R, T, H> View for ProjectExplorerPane<I, R, T, H> {
    type V = PaneView<I, R, T, H>;

    closed spec fn view(&self) -> PaneView<I, R, T, H> {
        PaneView {
            tree_view: self.tree_view@,
            file_tree: self.file_tree,
            listener: match self.listener_handle {
                Some((id, handle)) => Some((id as nat, handle)),
                None => None,
            },
            stopped: self.stopped@,
        }
    }
}

impl<I, R, T, H> ProjectExplorerPane<I, R, T, H> {
    /// The tree view is well-formed, and the listener is one that was set up.
    pub closed spec fn wf(&self) -> bool {
        self.tree_view.wf() && self@.wf()
    }

    /// What a well-formed pane means for its listeners.
    pub proof fn lemma_wf(&self)
        requires
            self.wf(),
        ensures
            self@.wf(),
    {
    }

    /// Create a new Project Explorer pane.
    pub fn new(file_tree: T) -> (result: Self)
        ensures
            result.wf(),
            result@ == PaneView::<I, R, T, H>::start(file_tree, None, None),
    {
        let result = ProjectExplorerPane {
            tree_view: TreeViewHandle::new(),
            file_tree,
            listener_handle: None,
            stopped: Vec::new(),
        };
        assert(result@.stopped =~= Seq::<bool>::empty());
        result
    }

    /// Get a handle to the tree view.
    pub fn tree_view(&self) -> (result: &TreeViewHandle<I, R>)
        requires
            self.wf(),
        ensures
            result.wf(),
            result@ == self@.tree_view,
    {
        &self.tree_view
    }

    /// Get a mutable handle to the tree view for setting callbacks.
    pub fn tree_view_mut(&mut self) -> (result: &mut TreeViewHandle<I, R>)
        requires
            old(self).wf(),
        ensures
            result.wf(),
            result@ == old(self)@.tree_view,
            final(result).wf() ==> final(self).wf(),
            final(self)@ == (PaneView { tree_view: final(result)@, ..old(self)@ }),
    {
        &mut self.tree_view
    }

    /// Get a reference to the file tree state.
    pub fn file_tree(&self) -> (result: &T)
        ensures
            *result == self@.file_tree,
    {
        &self.file_tree
    }

    /// Start listening for file tree updates.
    ///
    /// `start` starts the task of a listener, which takes the callbacks as they are set now, and
    /// returns the handle of the task.
    pub fn setup_file_tree_listener<F: FnOnce(Listener<I, R>) -> H>(&mut self, start: F)
        requires
            old(self).wf(),
            forall|listener: Listener<I, R>|
                listener@ == old(self)@.next_listener() ==> #[trigger] call_requires(
                    start,
                    (listener,),
                ),
        ensures
            final(self).wf(),
            exists|listener: Listener<I, R>, handle: H| #[trigger]
                call_ensures(start, (listener,), handle) && listener@
                    == old(self)@.next_listener() && final(self)@ == old(self)@.listening(handle),
    {
        let id: usize = self.stopped.len();
        let listener = Listener {
            id,
            invalidate_cb: share_optional(&self.tree_view.invalidate_cb),
            redraw_cb: share_optional(&self.tree_view.redraw_cb),
        };
        let ghost made = listener;
        assert(made@ == old(self)@.next_listener());
        let handle = start(listener);
        let ghost task = handle;
        self.listener_handle = Some((id, handle));
        self.stopped.push(false);
        assert(self@ =~= old(self)@.listening(task));
        assert(call_ensures(start, (made,), task));
    }

    /// One turn of the listener loop for file tree updates: brings the tree view up to date with
    /// what a listener received, and says what is to be done about it. A listener that was stopped
    /// is done, and what it received is dropped.
    pub fn listener_step<'a>(
        &mut self,
        listener: &'a Listener<I, R>,
        received: &Received,
    ) -> (result: ListenerStep<'a, I, R>)
        requires
            old(self).wf(),
        ensures
            final(self).wf(),
            final(self)@ == old(self)@.after_receiving(listener@.id, received@),
            result.stop == (received is Closed || old(self)@.is_stopped(listener@.id)),
            if received is Update && !old(self)@.is_stopped(listener@.id) {
                callback(listener@.invalidate_cb, result.invalidate)
            } else {
                result.invalidate is None
            },
            if redraws(received@) && !old(self)@.is_stopped(listener@.id) {
                callback(listener@.redraw_cb, result.redraw)
            } else {
                result.redraw is None
            },
            !old(self)@.is_stopped(listener@.id) && (received is Lagged || (
            received matches Received::Update(update) && (update.paths@.len() > 0 || update.kind
                == FileChangeKind::Create || update.kind == FileChangeKind::Remove))) ==> callback(
                listener@.redraw_cb,
                result.redraw,
            ) && final(self)@.tree_view.state.needs_full_redraw,
    {
        if listener.id < self.stopped.len() && self.stopped[listener.id] {
            return ListenerStep { invalidate: None, redraw: None, stop: true };
        }
        match received {
            Received::Update(update) => {
                // CRITICAL: Invalidate affected paths in the UI
                self.tree_view.mark_dirty(&update.paths);

                // Request a redraw based on the type of change
                let redraw = match update.kind {
                    // Structural changes require full redraw
                    FileChangeKind::Create | FileChangeKind::Remove => true,
                    // Non-structural changes can be incremental
                    FileChangeKind::Modify | FileChangeKind::Rename => update.paths.len() > 0,
                };
                if redraw {
                    self.tree_view.state.needs_full_redraw = true;
                    ListenerStep {
                        invalidate: borrow_optional(&listener.invalidate_cb),
                        redraw: borrow_optional(&listener.redraw_cb),
                        stop: false,
                    }
                } else {
                    ListenerStep {
                        invalidate: borrow_optional(&listener.invalidate_cb),
                        redraw: None,
                        stop: false,
                    }
                }
            },
            Received::Lagged(_) => {
                // If we lag behind, request a full redraw
                self.tree_view.state.needs_full_redraw = true;
                ListenerStep {
                    invalidate: None,
                    redraw: borrow_optional(&listener.redraw_cb),
                    stop: false,
                }
            },
            Received::Closed => ListenerStep { invalidate: None, redraw: None, stop: true },
        }
    }

    /// Stop the listener task.
    ///
    /// Returns its handle, which is to be aborted, if there is one. From now on nothing that the
    /// listener still receives has any effect. A listener that another one took the place of goes
    /// on.
    pub fn stop(&mut self) -> (result: Option<H>)
        requires
            old(self).wf(),
        ensures
            final(self).wf(),
            final(self)@ == old(self)@.after_stop(),
            match result {
                Some(handle) => old(self)@.listener matches Some((_, task)) && task == handle,
                None => old(self)@.listener is None,
            },
    {
        match self.listener_handle.take() {
            Some((id, handle)) => {
                self.stopped.set(id, true);
                assert(self@ =~= old(self)@.after_stop());
                Some(handle)
            },
            None => None,
        }
    }

    /// Check if the listener is running: there is one, and it is not finished.
    pub fn is_listening<F: Fn(&H) -> bool>(&self, is_finished: F) -> (result: bool)
        requires
            match self@.listener {
                Some((_, handle)) => call_requires(is_finished, (&handle,)),
                None => true,
            },
        ensures
            match self@.listener {
                Some((_, handle)) => call_ensures(is_finished, (&handle,), !result),
                None => !result,
            },
            forall|finished: spec_fn(H) -> bool|
                (forall|handle: H, answer: bool| #[trigger]
                    call_ensures(is_finished, (&handle,), answer) ==> answer == finished(handle))
                    ==> result == #[trigger] self@.is_listening(finished),
    {
        match &self.listener_handle {
            Some((_, handle)) => {
                let finished = is_finished(handle);
                !finished
            },
            None => false,
        }
    }
}

/// What a builder was told.
#[verifier::ext_equal]
pub struct PaneBuilderView<I, R, T> {
    pub file_tree: T,
    pub invalidate_cb: Option<I>,
    pub redraw_cb: Option<R>,
}

/// Builder for ProjectExplorerPane with configuration options.
pub struct ProjectExplorerPaneBuilder<I, R, T> {
    file_tree: T,
    invalidate_cb: Option<I>,
    redraw_cb: Option<R>,
}

impl<I, R, T> View for ProjectExplorerPaneBuilder<I, R, T> {
    type V = PaneBuilderView<I, R, T>;

    closed spec fn view(&self) -> PaneBuilderView<I, R, T> {
        PaneBuilderView {
            file_tree: self.file_tree,
            invalidate_cb: self.invalidate_cb,
            redraw_cb: self.redraw_cb,
        }
    }
}

impl<I, R, T> ProjectExplorerPaneBuilder<I, R, T> {
    /// A builder without callbacks.
    pub fn new(file_tree: T) -> (result: Self)
        ensures
            result@ == (PaneBuilderView::<I, R, T> {
                file_tree,
                invalidate_cb: None,
                redraw_cb: None,
            }),
    {
        ProjectExplorerPaneBuilder { file_tree, invalidate_cb: None, redraw_cb: None }
    }

    /// Set the callback for path invalidation.
    pub fn on_invalidate(self, cb: I) -> (result: Self)
        ensures
            result@ == (PaneBuilderView { invalidate_cb: Some(cb), ..self@ }),
    {
        ProjectExplorerPaneBuilder {
            file_tree: self.file_tree,
            invalidate_cb: Some(cb),
            redraw_cb: self.redraw_cb,
        }
    }

    /// Set the callback for redraw requests.
    pub fn on_redraw(self, cb: R) -> (result: Self)
        ensures
            result@ == (PaneBuilderView { redraw_cb: Some(cb), ..self@ }),
    {
        ProjectExplorerPaneBuilder {
            file_tree: self.file_tree,
            invalidate_cb: self.invalidate_cb,
            redraw_cb: Some(cb),
        }
    }

    /// Build the ProjectExplorerPane.
    pub fn build<H>(self) -> (result: ProjectExplorerPane<I, R, T, H>)
        ensures
            result.wf(),
            result@ == PaneView::<I, R, T, H>::start(
                self@.file_tree,
                self@.invalidate_cb,
                self@.redraw_cb,
            ),
    {
        let mut pane = ProjectExplorerPane::new(self.file_tree);
        if let Some(cb) = self.invalidate_cb {
            pane.tree_view_mut().set_invalidate_callback(cb);
        }
        if let Some(cb) = self.redraw_cb {
            pane.tree_view_mut().set_redraw_callback(cb);
        }
        pane
    }
}

} // verus!
