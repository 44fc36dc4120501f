//! What holds of a tree view, whatever updates it receives.

use crate::path::{parent_of, PathView};
use crate::repo_metadata::coalesce::{ChangeView, FileChangeKind};
use crate::repo_metadata::model::{updates_for, UpdateView};
use crate::repo_metadata::model_laws::law_every_event_is_announced;
use crate::sequences::{lemma_push_contains, lemma_push_no_duplicates};
use crate::ui::project_explorer::{callback, redraws, PaneView};
use crate::ui::view_model::{
    after_invalidation, asks_for_redraw, with_path, with_path_and_parent, ReceivedView, ViewModel,
};
use vstd::prelude::*;

verus! {

/// What the paths with one more contain.
proof fn lemma_with_path(paths: Seq<PathView>, path: PathView, other: PathView)
    ensures
        with_path(paths, path).contains(other) <==> paths.contains(other) || other == path,
        paths.no_duplicates() ==> with_path(paths, path).no_duplicates(),
{
    lemma_push_contains(paths, path, other);
    if paths.no_duplicates() {
        lemma_push_no_duplicates(paths, path);
    }
}

/// What is dirty after a path was invalidated.
proof fn lemma_with_path_and_parent(dirty: Seq<PathView>, path: PathView, other: PathView)
    ensures
        with_path_and_parent(dirty, path).contains(other) <==> dirty.contains(other) || other
            == path || parent_of(path) == Some(other),
        dirty.no_duplicates() ==> with_path_and_parent(dirty, path).no_duplicates(),
{
    lemma_with_path(dirty, path, other);
    if let Some(parent) = parent_of(path) {
        lemma_with_path(with_path(dirty, path), parent, other);
    }
}

/// After an invalidation exactly these are dirty: what was dirty, the paths, and their parent
/// directories.
pub proof fn law_invalidated_paths_are_dirty(
    view: ViewModel,
    paths: Seq<PathView>,
    other: PathView,
)
    ensures
        view.invalidated(paths).dirty.contains(other) <==> view.dirty.contains(other) || exists|
            i: int,
        |
            0 <= i < paths.len() && (#[trigger] paths[i] == other || parent_of(paths[i]) == Some(
                other,
            )),
    decreases paths.len(),
{
    if paths.len() > 0 {
        let rest = paths.drop_last();
        law_invalidated_paths_are_dirty(view, rest, other);
        lemma_with_path_and_parent(after_invalidation(view.dirty, rest), paths.last(), other);
        if exists|i: int|
            0 <= i < rest.len() && (#[trigger] rest[i] == other || parent_of(rest[i]) == Some(
                other,
            )) {
            let i = choose|i: int|
                0 <= i < rest.len() && (#[trigger] rest[i] == other || parent_of(rest[i]) == Some(
                    other,
                ));
            assert(paths[i] == rest[i]);
        }
        if exists|i: int|
            0 <= i < paths.len() && (#[trigger] paths[i] == other || parent_of(paths[i]) == Some(
                other,
            )) {
            let i = choose|i: int|
                0 <= i < paths.len() && (#[trigger] paths[i] == other || parent_of(paths[i])
                    == Some(other));
            if i < rest.len() {
                assert(rest[i] == paths[i]);
            }
        }
        assert(paths[paths.len() - 1] == paths.last());
    }
}

/// No path is listed as dirty twice.
pub proof fn law_dirty_paths_are_distinct(view: ViewModel, received: ReceivedView)
    requires
        view.dirty.no_duplicates(),
    ensures
        view.after_receiving(received).dirty.no_duplicates(),
        view.cleared().dirty.no_duplicates(),
{
    if let ReceivedView::Update(update) = received {
        lemma_invalidation_is_distinct(view.dirty, update.paths);
    }
}

proof fn lemma_invalidation_is_distinct(dirty: Seq<PathView>, paths: Seq<PathView>)
    requires
        dirty.no_duplicates(),
    ensures
        after_invalidation(dirty, paths).no_duplicates(),
    decreases paths.len(),
{
    if paths.len() > 0 {
        lemma_invalidation_is_distinct(dirty, paths.drop_last());
        lemma_with_path_and_parent(
            after_invalidation(dirty, paths.drop_last()),
            paths.last(),
            paths.last(),
        );
    }
}

/// After a redraw nothing is dirty and no redraw is needed; the selection stays.
pub proof fn law_redrawn_view_is_clean(view: ViewModel, path: PathView)
    ensures
        !view.cleared().dirty.contains(path),
        !view.cleared().needs_full_redraw,
        view.cleared().selected == view.selected,
        view.cleared().cleared() == view.cleared(),
{
}

/// Whatever comes from the channel, what is dirty stays dirty and a redraw that is needed stays
/// needed, and the selection stays.
pub proof fn law_receiving_loses_nothing(view: ViewModel, received: ReceivedView, path: PathView)
    ensures
        view.dirty.contains(path) ==> view.after_receiving(received).dirty.contains(path),
        view.needs_full_redraw ==> view.after_receiving(received).needs_full_redraw,
        view.after_receiving(received).selected == view.selected,
{
    if let ReceivedView::Update(update) = received {
        law_invalidated_paths_are_dirty(view, update.paths, path);
    }
}

/// An update makes each of its paths dirty, and makes a redraw needed where it has a path or is
/// structural.
pub proof fn law_update_marks_its_paths(view: ViewModel, update: UpdateView, index: int)
    requires
        0 <= index < update.paths.len(),
    ensures
        view.after_receiving(ReceivedView::Update(update)).dirty.contains(update.paths[index]),
        view.after_receiving(ReceivedView::Update(update)).needs_full_redraw,
{
    law_invalidated_paths_are_dirty(view, update.paths, update.paths[index]);
    assert(asks_for_redraw(update));
}

/// A listener that fell behind has the whole view redrawn, and a closed channel changes nothing.
pub proof fn law_lag_asks_for_redraw(view: ViewModel)
    ensures
        view.after_receiving(ReceivedView::Lagged) == (ViewModel {
            needs_full_redraw: true,
            ..view
        }),
        view.after_receiving(ReceivedView::Closed) == view,
{
}

/// The view after updates came, one after the other.
pub open spec fn after_updates(view: ViewModel, updates: Seq<UpdateView>) -> ViewModel
    decreases updates.len(),
{
    if updates.len() == 0 {
        view
    } else {
        after_updates(view, updates.drop_last()).after_receiving(
            ReceivedView::Update(updates.last()),
        )
    }
}

/// An update among several marks its paths.
proof fn lemma_updates_mark(view: ViewModel, updates: Seq<UpdateView>, index: int, path: PathView)
    requires
        0 <= index < updates.len(),
        updates[index].paths.contains(path),
    ensures
        after_updates(view, updates).dirty.contains(path),
        after_updates(view, updates).needs_full_redraw,
    decreases updates.len(),
{
    let rest = updates.drop_last();
    let before = after_updates(view, rest);
    if index == updates.len() - 1 {
        let paths = updates.last().paths;
        let k = choose|k: int| 0 <= k < paths.len() && paths[k] == path;
        law_update_marks_its_paths(before, updates.last(), k);
    } else {
        assert(rest[index] == updates[index]);
        lemma_updates_mark(view, rest, index, path);
        law_receiving_loses_nothing(before, ReceivedView::Update(updates.last()), path);
    }
}

/// Every change of a file reaches the screen: once a view has received the updates for events, the
/// path of each event is dirty and a redraw is needed.
pub proof fn law_every_event_reaches_the_view(
    view: ViewModel,
    events: Seq<ChangeView>,
    index: int,
)
    requires
        0 <= index < events.len(),
    ensures
        after_updates(view, updates_for(events)).dirty.contains(events[index].path),
        after_updates(view, updates_for(events)).needs_full_redraw,
{
    law_every_event_is_announced(events, index);
    let updates = updates_for(events);
    let update = choose|update: UpdateView| #[trigger]
        updates.contains(update) && update.kind == events[index].kind && update.paths.contains(
            events[index].path,
        ) && update.is_batch == (events.len() > 1);
    let k = choose|k: int| 0 <= k < updates.len() && updates[k] == update;
    lemma_updates_mark(view, updates, k, events[index].path);
}

/// A stopped pane does not listen, and what is dirty stays dirty. Whatever the stopped listener
/// receives later dirties no path. Stopping the pane again, or stopping one that has no listener,
/// changes nothing; a later listener makes it listen again.
pub proof fn law_stopped_pane_does_not_listen<I, R, T, H>(
    pane: PaneView<I, R, T, H>,
    handle: H,
    finished: spec_fn(H) -> bool,
    received: ReceivedView,
)
    requires
        pane.wf(),
    ensures
        !pane.after_stop().is_listening(finished),
        pane.after_stop().tree_view == pane.tree_view,
        pane.after_stop().file_tree == pane.file_tree,
        pane.listener matches Some((id, _)) ==> pane.after_stop().is_stopped(id)
            && pane.after_stop().after_receiving(id, received) == pane.after_stop(),
        pane.after_stop().after_stop() == pane.after_stop(),
        pane.listener is None ==> pane.after_stop() == pane,
        !finished(handle) ==> pane.after_stop().listening(handle).is_listening(finished),
        !pane.after_stop().listening(handle).is_stopped(pane.after_stop().next_listener().id),
{
}

/// Once stopped, a listener stays so, whatever becomes of the pane.
pub proof fn law_stopped_listener_stays_stopped<I, R, T, H>(
    pane: PaneView<I, R, T, H>,
    id: nat,
    other: nat,
    handle: H,
    received: ReceivedView,
)
    requires
        pane.wf(),
        pane.is_stopped(id),
    ensures
        pane.listening(handle).is_stopped(id),
        pane.after_stop().is_stopped(id),
        pane.after_receiving(other, received).is_stopped(id),
{
}

/// A listener that another one takes the place of goes on: stopping the pane stops the other one
/// alone.
pub proof fn law_replaced_listener_goes_on<I, R, T, H>(
    pane: PaneView<I, R, T, H>,
    first: H,
    second: H,
    received: ReceivedView,
)
    requires
        pane.wf(),
    ensures
        ({
            let id = pane.next_listener().id;
            let left = pane.listening(first).listening(second).after_stop();
            &&& !left.is_stopped(id)
            &&& left.is_stopped(id + 1)
            &&& left.after_receiving(id, received).tree_view.state
                == pane.tree_view.state.after_receiving(received)
        }),
{
}

/// The redraw callback is handed out for an update that has a path or is structural, for a batch
/// as for a single event, and for a lag; for nothing else. That is whenever what was received makes
/// the view need a redraw.
pub proof fn law_redraw_callback_follows_the_view(view: ViewModel, received: ReceivedView)
    ensures
        received matches ReceivedView::Update(update) ==> (redraws(received) <==> update.paths.len()
            > 0 || update.kind == FileChangeKind::Create || update.kind
            == FileChangeKind::Remove),
        received is Lagged ==> redraws(received),
        received is Closed ==> !redraws(received),
        view.after_receiving(received).needs_full_redraw <==> view.needs_full_redraw || redraws(
            received,
        ),
{
}

/// Whether an update is a batch makes no difference to the view, nor to the redraw callback.
pub proof fn law_batches_are_treated_alike(view: ViewModel, update: UpdateView, other: UpdateView)
    requires
        update.paths == other.paths,
        update.kind == other.kind,
    ensures
        redraws(ReceivedView::Update(update)) == redraws(ReceivedView::Update(other)),
        view.after_receiving(ReceivedView::Update(update)) == view.after_receiving(
            ReceivedView::Update(other),
        ),
{
}

/// After something was received, a path is dirty exactly if it was before, or an update names it
/// or a path right below it.
pub proof fn law_update_dirties_paths_and_parents(
    view: ViewModel,
    received: ReceivedView,
    other: PathView,
)
    ensures
        view.after_receiving(received).dirty.contains(other) <==> view.dirty.contains(other) || (
        received is Update && exists|i: int|
            0 <= i < received->Update_0.paths.len() && (#[trigger] received->Update_0.paths[i]
                == other || parent_of(received->Update_0.paths[i]) == Some(other))),
{
    if let ReceivedView::Update(update) = received {
        law_invalidated_paths_are_dirty(view, update.paths, other);
    }
}

/// A view at the start has nothing selected and nothing to redraw. Invalidating paths asks for no
/// redraw, asking for a redraw dirties no path, and neither touches the selection.
pub proof fn law_view_fields_are_apart(view: ViewModel, paths: Seq<PathView>)
    ensures
        ViewModel::start().selected is None,
        ViewModel::start().dirty.len() == 0,
        !ViewModel::start().needs_full_redraw,
        view.invalidated(paths).needs_full_redraw == view.needs_full_redraw,
        view.invalidated(paths).selected == view.selected,
        view.redraw_requested().needs_full_redraw,
        view.redraw_requested().dirty == view.dirty,
        view.redraw_requested().selected == view.selected,
{
}

/// What a listener that is not stopped receives reaches the state of the tree view and nothing
/// else of the pane; what a stopped one receives reaches nothing.
pub proof fn law_received_reaches_the_view<I, R, T, H>(
    pane: PaneView<I, R, T, H>,
    id: nat,
    received: ReceivedView,
)
    ensures
        ({
            let after = pane.after_receiving(id, received);
            &&& after.tree_view.invalidate_cb == pane.tree_view.invalidate_cb
            &&& after.tree_view.redraw_cb == pane.tree_view.redraw_cb
            &&& after.file_tree == pane.file_tree
            &&& after.listener == pane.listener
            &&& after.stopped == pane.stopped
            &&& pane.is_stopped(id) ==> after.tree_view.state == pane.tree_view.state
            &&& !pane.is_stopped(id) ==> after.tree_view.state
                == pane.tree_view.state.after_receiving(received)
        }),
{
}

/// The callback that is handed out is the one that is registered, where there is one.
pub proof fn law_registered_callback_is_handed_out<C>(registered: Option<C>, result: Option<&C>)
    requires
        callback(registered, result),
    ensures
        registered is Some <==> result is Some,
        registered is Some ==> *result.unwrap() == registered.unwrap(),
{
}

/// A listener that is set up has the callbacks that the view has then, and a number that none had
/// before; it is not stopped, and those that were set up before are stopped exactly if they were.
/// Stopping concerns the listener that was set up last alone.
pub proof fn law_listeners_are_apart<I, R, T, H>(pane: PaneView<I, R, T, H>, handle: H, other: nat)
    requires
        pane.wf(),
        other < pane.stopped.len(),
    ensures
        pane.next_listener().id == pane.stopped.len(),
        pane.next_listener().invalidate_cb == pane.tree_view.invalidate_cb,
        pane.next_listener().redraw_cb == pane.tree_view.redraw_cb,
        pane.listening(handle).listener == Some((pane.stopped.len(), handle)),
        pane.listening(handle).is_stopped(other) == pane.is_stopped(other),
        !pane.listening(handle).is_stopped(pane.next_listener().id),
        pane.listening(handle).tree_view == pane.tree_view,
        pane.listening(handle).file_tree == pane.file_tree,
        pane.after_stop().is_stopped(other) <==> pane.is_stopped(other) || (pane.listener is Some
            && pane.listener.unwrap().0 == other),
        pane.after_stop().stopped.len() == pane.stopped.len(),
        pane.after_stop().listener is None,
{
}

/// A pane listens exactly if it has a listener whose task is not done. One at the start has none,
/// and holds the file tree and the callbacks that it was given.
pub proof fn law_pane_listens_while_its_task_runs<I, R, T, H>(
    pane: PaneView<I, R, T, H>,
    finished: spec_fn(H) -> bool,
    file_tree: T,
    invalidate_cb: Option<I>,
    redraw_cb: Option<R>,
)
    ensures
        pane.is_listening(finished) <==> pane.listener is Some && !finished(
            pane.listener.unwrap().1,
        ),
        ({
            let start = PaneView::<I, R, T, H>::start(file_tree, invalidate_cb, redraw_cb);
            &&& start.listener is None
            &&& start.stopped.len() == 0
            &&& start.file_tree == file_tree
            &&& start.tree_view.invalidate_cb == invalidate_cb
            &&& start.tree_view.redraw_cb == redraw_cb
            &&& start.tree_view.state.selected is None
            &&& start.tree_view.state.dirty.len() == 0
            &&& !start.tree_view.state.needs_full_redraw
        }),
{
}

} // verus!
