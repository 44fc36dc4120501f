//! Entries in the order of their last use, as a mathematical list.

use crate::path::PathView;
use crate::repo_metadata::entry::EntryView;
use vstd::prelude::*;

verus! {

/// Entries under the paths that they are stored for, the most recently used first.
pub type EntryList = Seq<(PathView, EntryView)>;

/// Whether a list has an entry under `key`.
pub open spec fn holds(list: EntryList, key: PathView) -> bool {
    exists|i: int| 0 <= i < list.len() && (#[trigger] list[i]).0 == key
}

/// The entry that a list has under `key`.
pub open spec fn lookup(list: EntryList, key: PathView) -> Option<EntryView> {
    if holds(list, key) {
        let place = choose|i: int| 0 <= i < list.len() && (#[trigger] list[i]).0 == key;
        Some(list[place].1)
    } else {
        None
    }
}

/// Whether no key occurs twice in a list.
pub open spec fn distinct(list: EntryList) -> bool {
    forall|i: int, j: int|
        0 <= i < j < list.len() ==> (#[trigger] list[i]).0 != (#[trigger] list[j]).0
}

/// The condition that an entry is stored under another key.
pub open spec fn under_other_key(key: PathView) -> spec_fn((PathView, EntryView)) -> bool {
    |item: (PathView, EntryView)| item.0 != key
}

/// The list without what it has under `key`.
pub open spec fn without(list: EntryList, key: PathView) -> EntryList {
    list.filter(under_other_key(key))
}

/// The list with `entry` in front, under `key`, and nothing else under `key`.
pub open spec fn in_front(list: EntryList, key: PathView, entry: EntryView) -> EntryList {
    seq![(key, entry)] + without(list, key)
}

/// The list after `entry` was put under `key`: the entry is in front, and where `limit` entries
/// were there under other keys, the last of them is gone.
pub open spec fn after_put(
    list: EntryList,
    limit: nat,
    key: PathView,
    entry: EntryView,
) -> EntryList {
    if !holds(list, key) && list.len() == limit {
        seq![(key, entry)] + list.drop_last()
    } else {
        in_front(list, key, entry)
    }
}

/// What a list without duplicates holds under a key is what looking the key up finds.
pub proof fn lemma_lookup(list: EntryList, key: PathView, entry: EntryView)
    requires
        distinct(list),
        list.contains((key, entry)),
    ensures
        holds(list, key),
        lookup(list, key) == Some(entry),
{
    let i = choose|i: int| 0 <= i < list.len() && list[i] == (key, entry);
    assert(list[i].0 == key);
    let place = choose|j: int| 0 <= j < list.len() && (#[trigger] list[j]).0 == key;
    if i < place {
        assert(list[i].0 != list[place].0);
    } else if place < i {
        assert(list[place].0 != list[i].0);
    }
}

/// What is found under a key is in the list.
pub proof fn lemma_lookup_contains(list: EntryList, key: PathView)
    requires
        holds(list, key),
    ensures
        lookup(list, key) is Some,
        list.contains((key, lookup(list, key).unwrap())),
{
    let place = choose|i: int| 0 <= i < list.len() && (#[trigger] list[i]).0 == key;
    assert(list[place] == (key, list[place].1));
}

/// Filtering a list twice is filtering it once for both conditions.
pub proof fn lemma_filter_twice<A>(
    list: Seq<A>,
    first: spec_fn(A) -> bool,
    second: spec_fn(A) -> bool,
    both: spec_fn(A) -> bool,
)
    requires
        forall|item: A| #[trigger] both(item) == (first(item) && second(item)),
    ensures
        list.filter(first).filter(second) == list.filter(both),
    decreases list.len(),
{
    reveal(Seq::filter);
    if list.len() > 0 {
        lemma_filter_twice(list.drop_last(), first, second, both);
        let before = list.drop_last().filter(first);
        assert(both(list.last()) == (first(list.last()) && second(list.last())));
        if first(list.last()) {
            assert(before.push(list.last()).drop_last() =~= before);
        }
    }
}

/// Conditions that agree on a list filter it alike.
pub proof fn lemma_filter_same<A>(
    list: Seq<A>,
    first: spec_fn(A) -> bool,
    second: spec_fn(A) -> bool,
)
    requires
        forall|i: int| 0 <= i < list.len() ==> first(#[trigger] list[i]) == second(list[i]),
    ensures
        list.filter(first) == list.filter(second),
    decreases list.len(),
{
    reveal(Seq::filter);
    if list.len() > 0 {
        assert forall|i: int| 0 <= i < list.drop_last().len() implies first(
            #[trigger] list.drop_last()[i],
        ) == second(list.drop_last()[i]) by {
            assert(list.drop_last()[i] == list[i]);
        }
        lemma_filter_same(list.drop_last(), first, second);
        assert(first(list[list.len() - 1]) == second(list[list.len() - 1]));
    }
}

/// What a filtered list holds.
pub proof fn lemma_filter_items<A>(list: Seq<A>, keeps: spec_fn(A) -> bool)
    ensures
        list.filter(keeps).len() <= list.len(),
        forall|item: A|
            #[trigger] list.filter(keeps).contains(item) == (list.contains(item) && keeps(item)),
{
    list.lemma_filter_len(keeps);
    assert forall|item: A| #[trigger] list.filter(keeps).contains(item) == (list.contains(item)
        && keeps(item)) by {
        if list.filter(keeps).contains(item) {
            list.lemma_filter_contains_rev(keeps, item);
            let i = choose|i: int| 0 <= i < list.filter(keeps).len() && list.filter(keeps)[i] == item;
            list.lemma_filter_pred(keeps, i);
        }
        if list.contains(item) && keeps(item) {
            let i = choose|i: int| 0 <= i < list.len() && list[i] == item;
            list.lemma_filter_contains(keeps, i);
        }
    }
}

/// Keys that are distinct are so without the last one.
proof fn lemma_distinct_rest(list: EntryList)
    requires
        distinct(list),
        list.len() > 0,
    ensures
        distinct(list.drop_last()),
{
    let rest = list.drop_last();
    assert forall|i: int, j: int| 0 <= i < j < rest.len() implies (#[trigger] rest[i]).0 != (
    #[trigger] rest[j]).0 by {
        assert(rest[i] == list[i] && rest[j] == list[j]);
    }
}

/// A filter keeps keys distinct, and keeps under a key what it has there and satisfies the
/// condition.
pub proof fn lemma_filter_distinct(
    list: EntryList,
    keeps: spec_fn((PathView, EntryView)) -> bool,
)
    requires
        distinct(list),
    ensures
        distinct(list.filter(keeps)),
    decreases list.len(),
{
    reveal(Seq::filter);
    if list.len() > 0 {
        let rest = list.drop_last();
        lemma_distinct_rest(list);
        lemma_filter_distinct(rest, keeps);
        lemma_filter_items(rest, keeps);
        if keeps(list.last()) {
            let kept = rest.filter(keeps);
            assert forall|i: int| 0 <= i < kept.len() implies (#[trigger] kept[i]).0
                != list.last().0 by {
                assert(kept.contains(kept[i]));
                let k = choose|k: int| 0 <= k < rest.len() && rest[k] == kept[i];
                assert(list[k] == rest[k]);
                assert(list[k].0 != list[list.len() - 1].0);
            }
        }
    }
}

/// A list without a key holds nothing under it, holds what it held under every other key, and is
/// shorter by what was there.
pub proof fn lemma_without(list: EntryList, key: PathView)
    requires
        distinct(list),
    ensures
        distinct(without(list, key)),
        !holds(without(list, key), key),
        without(list, key).len() == list.len() - (if holds(list, key) {
            1int
        } else {
            0int
        }),
        forall|other: PathView, entry: EntryView|
            #[trigger] without(list, key).contains((other, entry)) == (other != key
                && list.contains((other, entry))),
{
    let keeps = under_other_key(key);
    lemma_filter_distinct(list, keeps);
    lemma_filter_items(list, keeps);
    let kept = list.filter(keeps);
    if holds(kept, key) {
        let i = choose|i: int| 0 <= i < kept.len() && (#[trigger] kept[i]).0 == key;
        assert(kept.contains(kept[i]));
        assert(keeps(kept[i]));
    }
    lemma_without_len(list, key);
}

proof fn lemma_without_len(list: EntryList, key: PathView)
    requires
        distinct(list),
    ensures
        without(list, key).len() == list.len() - (if holds(list, key) {
            1int
        } else {
            0int
        }),
    decreases list.len(),
{
    reveal(Seq::filter);
    if list.len() > 0 {
        let rest = list.drop_last();
        lemma_distinct_rest(list);
        lemma_without_len(rest, key);
        let last = list[list.len() - 1];
        if last.0 == key {
            if holds(rest, key) {
                let i = choose|i: int| 0 <= i < rest.len() && (#[trigger] rest[i]).0 == key;
                assert(list[i] == rest[i]);
                assert(list[i].0 != last.0);
            }
            assert(holds(list, key));
        } else if holds(list, key) {
            let i = choose|i: int| 0 <= i < list.len() && (#[trigger] list[i]).0 == key;
            assert(rest[i] == list[i]);
        } else if holds(rest, key) {
            let i = choose|i: int| 0 <= i < rest.len() && (#[trigger] rest[i]).0 == key;
            assert(list[i] == rest[i]);
        }
    }
}

/// Whether a list has a key is whether it has some entry under it.
pub proof fn lemma_holds_entry(list: EntryList, key: PathView)
    ensures
        holds(list, key) == exists|entry: EntryView| #[trigger] list.contains((key, entry)),
{
    if holds(list, key) {
        let i = choose|i: int| 0 <= i < list.len() && (#[trigger] list[i]).0 == key;
        assert(list[i] == (key, list[i].1));
        assert(list.contains((key, list[i].1)));
    }
    if exists|entry: EntryView| #[trigger] list.contains((key, entry)) {
        let entry = choose|entry: EntryView| #[trigger] list.contains((key, entry));
        let i = choose|i: int| 0 <= i < list.len() && list[i] == (key, entry);
        assert(list[i].0 == key);
    }
}

/// Putting an entry in front keeps keys distinct and changes nothing under other keys.
pub proof fn lemma_in_front(list: EntryList, key: PathView, entry: EntryView)
    requires
        distinct(list),
    ensures
        distinct(in_front(list, key, entry)),
        in_front(list, key, entry).len() == list.len() + (if holds(list, key) {
            0int
        } else {
            1int
        }),
        forall|other: PathView, value: EntryView|
            #[trigger] in_front(list, key, entry).contains((other, value)) == (if other == key {
                value == entry
            } else {
                list.contains((other, value))
            }),
{
    lemma_without(list, key);
    let rest = without(list, key);
    let result = in_front(list, key, entry);
    assert forall|i: int, j: int| 0 <= i < j < result.len() implies (#[trigger] result[i]).0 != (
    #[trigger] result[j]).0 by {
        assert(result[j] == rest[j - 1]);
        if i == 0 {
            assert(rest[j - 1].0 != key);
        } else {
            assert(result[i] == rest[i - 1]);
        }
    }
    assert forall|other: PathView, value: EntryView|
        #[trigger] result.contains((other, value)) == (if other == key {
            value == entry
        } else {
            list.contains((other, value))
        }) by {
        if result.contains((other, value)) {
            let i = choose|i: int| 0 <= i < result.len() && result[i] == (other, value);
            if i > 0 {
                assert(rest[i - 1] == (other, value));
                assert(rest.contains((other, value)));
            }
        }
        if other == key && value == entry {
            assert(result[0] == (other, value));
        } else if other != key && list.contains((other, value)) {
            assert(rest.contains((other, value)));
            let i = choose|i: int| 0 <= i < rest.len() && rest[i] == (other, value);
            assert(result[i + 1] == (other, value));
        }
    }
}

} // verus!
