//! Coalescing of file change events.

use crate::path::{FilePath, PathView};
use crate::path_set::PathSet;
use crate::repo_metadata::event::{EventKind, ModifyKind};
use vstd::prelude::*;

verus! {

/// Simplified event kinds for UI consumption.
#[derive(Debug, Clone, Copy, PartialEq, Eq, Hash, Structural)]
pub enum FileChangeKind {
    Create,
    Modify,
    Remove,
    Rename,
}

/// The change that an event of some kind stands for.
pub open spec fn change_kind(kind: EventKind) -> FileChangeKind {
    match kind {
        EventKind::Create => FileChangeKind::Create,
        EventKind::Modify(ModifyKind::Name) => FileChangeKind::Rename,
        EventKind::Remove => FileChangeKind::Remove,
        _ => FileChangeKind::Modify,
    }
}

impl From<EventKind> for FileChangeKind {
    fn from(kind: EventKind) -> (result: Self) {
        match kind {
            EventKind::Create => FileChangeKind::Create,
            EventKind::Modify(ModifyKind::Name) => FileChangeKind::Rename,
            EventKind::Modify(_) => FileChangeKind::Modify,
            EventKind::Remove => FileChangeKind::Remove,
            _ => FileChangeKind::Modify,
        }
    }
}

impl vstd::std_specs::convert::FromSpecImpl<EventKind> for FileChangeKind {
    open spec fn obeys_from_spec() -> bool {
        true
    }

    open spec fn from_spec(kind: EventKind) -> FileChangeKind {
        change_kind(kind)
    }
}

/// Represents a coalesced file change event.
#[derive(Debug, PartialEq)]
pub struct FileChangeEvent {
    pub path: FilePath,
    pub kind: FileChangeKind,
    /// When the change was noticed, in nanoseconds since the watcher's clock started.
    pub timestamp: u64,
}

/// The contents of a file change event.
pub struct ChangeView {
    pub path: PathView,
    pub kind: FileChangeKind,
    pub timestamp: u64,
}

impl View for FileChangeEvent {
    type V = ChangeView;

    open spec fn view(&self) -> ChangeView {
        ChangeView { path: self.path@, kind: self.kind, timestamp: self.timestamp }
    }
}

impl Clone for FileChangeEvent {
    fn clone(&self) -> (result: Self)
        ensures
            result@ == self@,
    {
        FileChangeEvent { path: self.path.clone(), kind: self.kind, timestamp: self.timestamp }
    }
}

/// The contents of a list of events.
pub open spec fn changes_view(events: Seq<FileChangeEvent>) -> Seq<ChangeView> {
    Seq::new(events.len(), |i: int| events[i]@)
}

/// What is left of an event for a path when another one for the same path follows it in a list:
/// - DELETE followed by CREATE = MODIFY (file was replaced)
/// - CREATE followed by DELETE = DELETE
/// - otherwise the one with the later timestamp, and the first of two with the same
pub open spec fn merged(existing: ChangeView, event: ChangeView) -> ChangeView {
    if existing.kind == FileChangeKind::Remove && event.kind == FileChangeKind::Create {
        ChangeView {
            path: existing.path,
            kind: FileChangeKind::Modify,
            timestamp: event.timestamp,
        }
    } else if existing.kind == FileChangeKind::Create && event.kind == FileChangeKind::Remove {
        ChangeView {
            path: existing.path,
            kind: FileChangeKind::Remove,
            timestamp: event.timestamp,
        }
    } else if event.timestamp > existing.timestamp {
        event
    } else {
        existing
    }
}

/// What is left of a waiting event when another one for the same path arrives: a replaced file is
/// a modified one, and any other event supersedes the one before.
pub open spec fn superseded(existing: ChangeView, event: ChangeView) -> ChangeView {
    if existing.kind == FileChangeKind::Remove && event.kind == FileChangeKind::Create {
        ChangeView {
            path: existing.path,
            kind: FileChangeKind::Modify,
            timestamp: event.timestamp,
        }
    } else {
        event
    }
}

/// A rule by which two events for one path become one.
pub type Rule = spec_fn(ChangeView, ChangeView) -> ChangeView;

/// The rule for lists of events.
pub open spec fn merging() -> Rule {
    |existing: ChangeView, event: ChangeView| merged(existing, event)
}

/// The rule for arriving events.
pub open spec fn superseding() -> Rule {
    |existing: ChangeView, event: ChangeView| superseded(existing, event)
}

/// What a rule makes of events for one path, in order.
pub open spec fn folded(rule: Rule, events: Seq<ChangeView>) -> ChangeView
    recommends
        events.len() > 0,
    decreases events.len(),
{
    if events.len() <= 1 {
        events[0]
    } else {
        rule(folded(rule, events.drop_last()), events.last())
    }
}

/// The condition that an event is for a path.
pub open spec fn is_for(path: PathView) -> spec_fn(ChangeView) -> bool {
    |event: ChangeView| event.path == path
}

/// The events for a path.
pub open spec fn history(events: Seq<ChangeView>, path: PathView) -> Seq<ChangeView> {
    events.filter(is_for(path))
}

/// Whether there is an event for a path.
pub open spec fn mentions(events: Seq<ChangeView>, path: PathView) -> bool {
    exists|i: int| 0 <= i < events.len() && (#[trigger] events[i]).path == path
}

/// The paths for which there are events, in the order in which they come first.
pub open spec fn first_paths(events: Seq<ChangeView>) -> Seq<PathView>
    decreases events.len(),
{
    if events.len() == 0 {
        Seq::empty()
    } else {
        let before = first_paths(events.drop_last());
        if mentions(events.drop_last(), events.last().path) {
            before
        } else {
            before.push(events.last().path)
        }
    }
}

/// The events coalesced by a rule: one for each path, made of all events for the path.
pub open spec fn coalesced_by(rule: Rule, events: Seq<ChangeView>) -> Seq<ChangeView> {
    let paths = first_paths(events);
    Seq::new(paths.len(), |i: int| folded(rule, history(events, paths[i])))
}

/// A list of events coalesced.
pub open spec fn coalesced(events: Seq<ChangeView>) -> Seq<ChangeView> {
    coalesced_by(merging(), events)
}

/// Whether a rule leaves the path as it is.
pub open spec fn keeps_path(rule: Rule) -> bool {
    forall|existing: ChangeView, event: ChangeView|
        existing.path == event.path ==> (#[trigger] rule(existing, event)).path == event.path
}

/// The events for a path after one more event.
pub proof fn lemma_history_push(events: Seq<ChangeView>, event: ChangeView, path: PathView)
    ensures
        history(events.push(event), path) == (if event.path == path {
            history(events, path).push(event)
        } else {
            history(events, path)
        }),
{
    reveal(Seq::filter);
    assert(events.push(event).drop_last() =~= events);
}

/// There are events for a path exactly where its history is not empty.
pub proof fn lemma_history(events: Seq<ChangeView>, path: PathView)
    ensures
        mentions(events, path) == (history(events, path).len() > 0),
        forall|i: int|
            0 <= i < history(events, path).len() ==> (#[trigger] history(events, path)[i]).path
                == path,
    decreases events.len(),
{
    reveal(Seq::filter);
    if events.len() > 0 {
        let rest = events.drop_last();
        lemma_history(rest, path);
        assert(events =~= rest.push(events.last()));
        lemma_history_push(rest, events.last(), path);
        if mentions(rest, path) {
            let i = choose|i: int| 0 <= i < rest.len() && (#[trigger] rest[i]).path == path;
            assert(events[i].path == path);
        }
        if events.last().path == path {
            assert(events[events.len() - 1].path == path);
        }
        if mentions(events, path) && events.last().path != path {
            let i = choose|i: int| 0 <= i < events.len() && (#[trigger] events[i]).path == path;
            assert(rest[i].path == path);
        }
    }
}

/// The first paths are the mentioned ones, each once.
pub proof fn lemma_first_paths(events: Seq<ChangeView>)
    ensures
        first_paths(events).no_duplicates(),
        forall|path: PathView| #[trigger]
            first_paths(events).contains(path) == mentions(events, path),
        first_paths(events).len() <= events.len(),
    decreases events.len(),
{
    if events.len() > 0 {
        let rest = events.drop_last();
        let last = events.last().path;
        lemma_first_paths(rest);
        let before = first_paths(rest);
        let all = first_paths(events);
        assert(before.contains(last) == mentions(rest, last));
        assert forall|path: PathView| #[trigger] all.contains(path) == mentions(events, path) by {
            assert(before.contains(path) == mentions(rest, path));
            if mentions(rest, path) {
                let i = choose|i: int| 0 <= i < rest.len() && (#[trigger] rest[i]).path == path;
                assert(events[i].path == path);
                let k = choose|k: int| 0 <= k < before.len() && before[k] == path;
                assert(all[k] == path);
            }
            if path == last {
                assert(events[events.len() - 1].path == path);
                if !mentions(rest, last) {
                    assert(all[before.len() as int] == path);
                }
            }
            if mentions(events, path) && path != last {
                let i = choose|i: int| 0 <= i < events.len() && (#[trigger] events[i]).path == path;
                assert(rest[i].path == path);
            }
            if all.contains(path) && path != last {
                let k = choose|k: int| 0 <= k < all.len() && all[k] == path;
                assert(before[k] == path);
            }
        }
    }
}

/// What is made of the events for a path is an event for the path.
pub proof fn lemma_folded_path(rule: Rule, events: Seq<ChangeView>, path: PathView)
    requires
        keeps_path(rule),
        events.len() > 0,
        forall|i: int| 0 <= i < events.len() ==> (#[trigger] events[i]).path == path,
    ensures
        folded(rule, events).path == path,
    decreases events.len(),
{
    if events.len() > 1 {
        let rest = events.drop_last();
        assert forall|i: int| 0 <= i < rest.len() implies (#[trigger] rest[i]).path == path by {
            assert(rest[i] == events[i]);
        }
        lemma_folded_path(rule, rest, path);
        assert(events[events.len() - 1].path == path);
        assert(rule(folded(rule, rest), events.last()).path == events.last().path);
    }
}

/// The coalesced events are for the first paths.
pub proof fn lemma_coalesced_paths(rule: Rule, events: Seq<ChangeView>)
    requires
        keeps_path(rule),
    ensures
        coalesced_by(rule, events).len() == first_paths(events).len(),
        forall|i: int|
            0 <= i < first_paths(events).len() ==> (#[trigger] coalesced_by(rule, events)[i]).path
                == first_paths(events)[i],
{
    lemma_first_paths(events);
    assert forall|i: int| 0 <= i < first_paths(events).len() implies (
    #[trigger] coalesced_by(rule, events)[i]).path == first_paths(events)[i] by {
        let path = first_paths(events)[i];
        assert(first_paths(events).contains(path));
        lemma_history(events, path);
        lemma_folded_path(rule, history(events, path), path);
    }
}

/// One more event changes the coalesced events in one place.
pub proof fn lemma_coalesced_push(rule: Rule, events: Seq<ChangeView>, event: ChangeView)
    ensures
        mentions(events, event.path) ==> forall|place: int|
            0 <= place < first_paths(events).len() && first_paths(events)[place] == event.path
                ==> #[trigger] coalesced_by(rule, events).update(
                place,
                rule(coalesced_by(rule, events)[place], event),
            ) == coalesced_by(rule, events.push(event)),
        mentions(events, event.path) ==> first_paths(events.push(event)) == first_paths(events),
        !mentions(events, event.path) ==> coalesced_by(rule, events.push(event)) == coalesced_by(
            rule,
            events,
        ).push(event),
        !mentions(events, event.path) ==> first_paths(events.push(event)) == first_paths(
            events,
        ).push(event.path),
{
    let more = events.push(event);
    assert(more.drop_last() =~= events);
    assert(more.last() == event);
    lemma_first_paths(events);
    let paths = first_paths(events);
    lemma_history(events, event.path);
    assert forall|i: int| 0 <= i < paths.len() implies history(more, #[trigger] paths[i]) == (
    if paths[i] == event.path {
        history(events, paths[i]).push(event)
    } else {
        history(events, paths[i])
    }) by {
        lemma_history_push(events, event, paths[i]);
    }
    if mentions(events, event.path) {
        assert forall|place: int|
            0 <= place < paths.len() && paths[place] == event.path implies #[trigger] coalesced_by(
            rule,
            events,
        ).update(place, rule(coalesced_by(rule, events)[place], event)) == coalesced_by(
            rule,
            more,
        ) by {
            let before = history(events, event.path);
            assert(before.push(event).drop_last() =~= before);
            let left = coalesced_by(rule, events).update(
                place,
                rule(coalesced_by(rule, events)[place], event),
            );
            let right = coalesced_by(rule, more);
            assert forall|i: int| 0 <= i < paths.len() implies left[i] == right[i] by {
                assert(history(more, paths[i]) == history(more, paths[i]));
                if i != place {
                    assert(paths[i] != paths[place]);
                }
            }
            assert(left =~= right);
        }
    } else {
        lemma_history_push(events, event, event.path);
        assert(history(events, event.path) =~= Seq::empty());
        let left = coalesced_by(rule, events).push(event);
        let right = coalesced_by(rule, more);
        assert forall|i: int| 0 <= i < paths.len() implies left[i] == right[i] by {
            assert(paths.contains(paths[i]));
            assert(paths[i] != event.path);
            assert(history(more, paths[i]) == history(events, paths[i]));
        }
        assert(left =~= right);
    }
}

/// Whether no two events are for the same path.
pub open spec fn one_per_path(events: Seq<ChangeView>) -> bool {
    forall|i: int, j: int|
        0 <= i < j < events.len() ==> (#[trigger] events[i]).path != (#[trigger] events[j]).path
}

/// A list of events, one per path, after one more event.
pub open spec fn with_event(
    rule: Rule,
    list: Seq<ChangeView>,
    event: ChangeView,
) -> Seq<ChangeView> {
    if mentions(list, event.path) {
        let place = choose|i: int|
            0 <= i < list.len() && (#[trigger] list[i]).path == event.path;
        list.update(place, rule(list[place], event))
    } else {
        list.push(event)
    }
}

/// Both rules leave the path as it is.
pub proof fn lemma_rules_keep_path()
    ensures
        keeps_path(merging()),
        keeps_path(superseding()),
{
}

/// Coalesced events are one per path, for the same paths.
pub proof fn lemma_coalesced_one_per_path(rule: Rule, events: Seq<ChangeView>)
    requires
        keeps_path(rule),
    ensures
        one_per_path(coalesced_by(rule, events)),
        forall|path: PathView| #[trigger]
            mentions(coalesced_by(rule, events), path) == mentions(events, path),
{
    lemma_coalesced_paths(rule, events);
    lemma_first_paths(events);
    let list = coalesced_by(rule, events);
    let paths = first_paths(events);
    assert forall|path: PathView| #[trigger] mentions(list, path) == mentions(events, path) by {
        assert(paths.contains(path) == mentions(events, path));
        if mentions(list, path) {
            let i = choose|i: int| 0 <= i < list.len() && (#[trigger] list[i]).path == path;
            assert(paths[i] == path);
        }
        if paths.contains(path) {
            let i = choose|i: int| 0 <= i < paths.len() && paths[i] == path;
            assert(list[i].path == path);
        }
    }
}

/// Adding an event to coalesced events is coalescing one more event.
pub proof fn lemma_with_event(rule: Rule, events: Seq<ChangeView>, event: ChangeView)
    requires
        keeps_path(rule),
    ensures
        with_event(rule, coalesced_by(rule, events), event) == coalesced_by(
            rule,
            events.push(event),
        ),
{
    let list = coalesced_by(rule, events);
    lemma_coalesced_one_per_path(rule, events);
    lemma_coalesced_paths(rule, events);
    lemma_coalesced_push(rule, events, event);
    assert(mentions(list, event.path) == mentions(events, event.path));
    if mentions(list, event.path) {
        let place = choose|i: int|
            0 <= i < list.len() && (#[trigger] list[i]).path == event.path;
        assert(first_paths(events)[place] == event.path);
        assert(list.update(place, rule(list[place], event)) == coalesced_by(
            rule,
            events.push(event),
        ));
    }
}

/// Events that are one per path are left as they are, whatever the rule.
pub proof fn lemma_one_per_path_unchanged(rule: Rule, events: Seq<ChangeView>)
    requires
        keeps_path(rule),
        one_per_path(events),
    ensures
        coalesced_by(rule, events) == events,
    decreases events.len(),
{
    if events.len() == 0 {
        assert(coalesced_by(rule, events) =~= events);
    } else {
        let rest = events.drop_last();
        let last = events[events.len() - 1];
        assert(one_per_path(rest)) by {
            assert forall|i: int, j: int| 0 <= i < j < rest.len() implies (
            #[trigger] rest[i]).path != (#[trigger] rest[j]).path by {
                assert(rest[i] == events[i] && rest[j] == events[j]);
            }
        }
        lemma_one_per_path_unchanged(rule, rest);
        assert(rest.push(last) =~= events);
        if mentions(rest, last.path) {
            let i = choose|i: int| 0 <= i < rest.len() && (#[trigger] rest[i]).path == last.path;
            assert(events[i].path != last.path);
        }
        lemma_coalesced_push(rule, rest, last);
    }
}

/// Events, one per path, to which further ones are added by a rule.
pub struct EventList {
    /// The paths of the events, in order.
    paths: PathSet,
    events: Vec<FileChangeEvent>,
}

impl View for EventList {
    type V = Seq<ChangeView>;

    closed spec fn view(&self) -> Seq<ChangeView> {
        changes_view(self.events@)
    }
}

impl EventList {
    /// The set of paths is that of the events.
    pub closed spec fn wf(&self) -> bool {
        &&& self.paths.wf()
        &&& self.paths@.len() == self.events@.len()
        &&& forall|i: int|
            0 <= i < self.events@.len() ==> (#[trigger] self.events@[i])@.path == self.paths@[i]
    }

    /// No two events of a well-formed list are for the same path.
    pub proof fn lemma_wf(&self)
        requires
            self.wf(),
        ensures
            one_per_path(self@),
    {
        self.paths.lemma_no_duplicates();
        assert forall|i: int, j: int| 0 <= i < j < self@.len() implies (
        #[trigger] self@[i]).path != (#[trigger] self@[j]).path by {
            assert(self.events@[i]@.path == self.paths@[i]);
            assert(self.events@[j]@.path == self.paths@[j]);
        }
    }

    /// The empty list.
    pub fn new() -> (result: Self)
        ensures
            result.wf(),
            result@ == Seq::<ChangeView>::empty(),
    {
        let result = EventList { paths: PathSet::new(), events: Vec::new() };
        assert(result@ =~= Seq::<ChangeView>::empty());
        result
    }

    /// Whether there is no event.
    pub fn is_empty(&self) -> (result: bool)
        ensures
            result == (self@.len() == 0),
    {
        self.events.len() == 0
    }

    /// The events.
    pub fn into_events(self) -> (result: Vec<FileChangeEvent>)
        ensures
            changes_view(result@) == self@,
    {
        self.events
    }

    /// Adds an event, as one that follows the others in a list.
    pub fn merge(&mut self, event: FileChangeEvent)
        requires
            old(self).wf(),
        ensures
            final(self).wf(),
            final(self)@ == with_event(merging(), old(self)@, event@),
    {
        match self.paths.position(&event.path) {
            Some(place) => {
                proof {
                    self.lemma_place(place as int, event@);
                }
                let existing = &self.events[place];
                if existing.kind == FileChangeKind::Remove && event.kind == FileChangeKind::Create {
                    // DELETE followed by CREATE = MODIFY (file replaced)
                    self.replace(place, FileChangeKind::Modify, event);
                } else if existing.kind == FileChangeKind::Create && event.kind
                    == FileChangeKind::Remove {
                    // CREATE followed by DELETE = DELETE
                    self.replace(place, FileChangeKind::Remove, event);
                } else if event.timestamp > existing.timestamp {
                    // Otherwise, keep the most recent event
                    let kind = event.kind;
                    self.replace(place, kind, event);
                } else {
                    assert(self@.update(place as int, self@[place as int]) =~= self@);
                }
            },
            None => {
                self.push(event);
            },
        }
    }

    /// Adds an event, as one that arrives after the others.
    pub fn supersede(&mut self, event: FileChangeEvent)
        requires
            old(self).wf(),
        ensures
            final(self).wf(),
            final(self)@ == with_event(superseding(), old(self)@, event@),
    {
        match self.paths.position(&event.path) {
            Some(place) => {
                proof {
                    self.lemma_place(place as int, event@);
                }
                let kind = if self.events[place].kind == FileChangeKind::Remove && event.kind
                    == FileChangeKind::Create {
                    FileChangeKind::Modify
                } else {
                    event.kind
                };
                self.replace(place, kind, event);
            },
            None => {
                self.push(event);
            },
        }
    }

    /// The place of the event for a path is the only one.
    proof fn lemma_place(&self, place: int, event: ChangeView)
        requires
            self.wf(),
            0 <= place < self.paths@.len(),
            self.paths@[place] == event.path,
        ensures
            self@[place].path == event.path,
            mentions(self@, event.path),
            place == (choose|i: int|
                0 <= i < self@.len() && (#[trigger] self@[i]).path == event.path),
    {
        assert(self.events@[place]@.path == self.paths@[place]);
        assert(self@[place].path == event.path);
        self.lemma_wf();
        let chosen = choose|i: int| 0 <= i < self@.len() && (#[trigger] self@[i]).path == event.path;
        if chosen < place {
            assert(self@[chosen].path != self@[place].path);
        } else if place < chosen {
            assert(self@[place].path != self@[chosen].path);
        }
    }

    /// Puts an event, as one of the given kind, in place of another for the same path.
    fn replace(&mut self, place: usize, kind: FileChangeKind, event: FileChangeEvent)
        requires
            old(self).wf(),
            place < old(self)@.len(),
            old(self)@[place as int].path == event@.path,
        ensures
            final(self).wf(),
            final(self)@ == old(self)@.update(
                place as int,
                ChangeView { path: event@.path, kind, timestamp: event.timestamp },
            ),
    {
        let ghost path = event@.path;
        let changed = FileChangeEvent { path: event.path, kind, timestamp: event.timestamp };
        self.events.set(place, changed);
        proof {
            assert(self@ =~= old(self)@.update(place as int, changed@));
            assert forall|i: int| 0 <= i < self.events@.len() implies (
            #[trigger] self.events@[i])@.path == self.paths@[i] by {
                assert(old(self).events@[i]@.path == old(self).paths@[i]);
            }
        }
    }

    /// Adds the first event for its path.
    fn push(&mut self, event: FileChangeEvent)
        requires
            old(self).wf(),
            !old(self).paths@.contains(event@.path),
        ensures
            final(self).wf(),
            final(self)@ == old(self)@.push(event@),
            !mentions(old(self)@, event@.path),
    {
        proof {
            if mentions(self@, event@.path) {
                let i = choose|i: int|
                    0 <= i < self@.len() && (#[trigger] self@[i]).path == event@.path;
                assert(self.events@[i]@.path == self.paths@[i]);
            }
        }
        let _ = self.paths.insert(event.path.clone());
        self.events.push(event);
        proof {
            assert(self@ =~= old(self)@.push(event@));
            assert forall|i: int| 0 <= i < self.events@.len() implies (
            #[trigger] self.events@[i])@.path == self.paths@[i] by {
                if i < old(self).events@.len() {
                    assert(old(self).events@[i]@.path == old(self).paths@[i]);
                }
            }
        }
    }
}

} // verus!
