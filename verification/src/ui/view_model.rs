//! The tree view as a mathematical value, and what each operation makes of it.

use crate::path::{parent_of, PathView};
use crate::repo_metadata::coalesce::FileChangeKind;
use crate::repo_metadata::model::UpdateView;
use vstd::prelude::*;

verus! {

/// The paths with one more, unless it is there already.
pub open spec fn with_path(paths: Seq<PathView>, path: PathView) -> Seq<PathView> {
    if paths.contains(path) {
        paths
    } else {
        paths.push(path)
    }
}

/// The dirty paths after a path was invalidated: it is dirty, and so is its parent directory.
pub open spec fn with_path_and_parent(dirty: Seq<PathView>, path: PathView) -> Seq<PathView> {
    match parent_of(path) {
        Some(parent) => with_path(with_path(dirty, path), parent),
        None => with_path(dirty, path),
    }
}

/// The dirty paths after paths were invalidated, one after the other.
pub open spec fn after_invalidation(dirty: Seq<PathView>, paths: Seq<PathView>) -> Seq<PathView>
    decreases paths.len(),
{
    if paths.len() == 0 {
        dirty
    } else {
        with_path_and_parent(after_invalidation(dirty, paths.drop_last()), paths.last())
    }
}

/// Whether an update makes the view ask for a redraw. A structural change always does; another
/// one does where it affects some path.
pub open spec fn asks_for_redraw(update: UpdateView) -> bool {
    match update.kind {
        FileChangeKind::Create | FileChangeKind::Remove => true,
        FileChangeKind::Modify | FileChangeKind::Rename => update.paths.len() > 0,
    }
}

/// What a listener gets from the update channel.
pub enum ReceivedView {
    Update(UpdateView),
    Lagged,
    Closed,
}

/// A tree view.
#[verifier::ext_equal]
pub struct ViewModel {
    pub selected: Option<PathView>,
    /// The paths that need to be redrawn, in the order in which they became dirty.
    pub dirty: Seq<PathView>,
    pub needs_full_redraw: bool,
}

impl ViewModel {
    /// The view at the start: nothing is selected and nothing needs to be redrawn.
    pub open spec fn start() -> ViewModel {
        ViewModel { selected: None, dirty: Seq::empty(), needs_full_redraw: false }
    }

    /// The view after paths were invalidated.
    pub open spec fn invalidated(self, paths: Seq<PathView>) -> ViewModel {
        ViewModel { dirty: after_invalidation(self.dirty, paths), ..self }
    }

    /// The view after a redraw was requested.
    pub open spec fn redraw_requested(self) -> ViewModel {
        ViewModel { needs_full_redraw: true, ..self }
    }

    /// The view after it was redrawn.
    pub open spec fn cleared(self) -> ViewModel {
        ViewModel { dirty: Seq::empty(), needs_full_redraw: false, ..self }
    }

    /// The view after something came from the update channel.
    pub open spec fn after_receiving(self, received: ReceivedView) -> ViewModel {
        match received {
            ReceivedView::Update(update) => if asks_for_redraw(update) {
                self.invalidated(update.paths).redraw_requested()
            } else {
                self.invalidated(update.paths)
            },
            ReceivedView::Lagged => self.redraw_requested(),
            ReceivedView::Closed => self,
        }
    }
}

} // verus!
