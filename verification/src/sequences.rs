//! What lists hold once items are added or taken away.

use vstd::prelude::*;

verus! {

/// What a list with one more item contains.
pub proof fn lemma_push_contains<A>(list: Seq<A>, item: A, other: A)
    ensures
        list.push(item).contains(other) <==> list.contains(other) || item == other,
{
    let longer = list.push(item);
    if list.contains(other) {
        let i = choose|i: int| 0 <= i < list.len() && list[i] == other;
        assert(longer[i] == other);
    }
    if item == other {
        assert(longer[list.len() as int] == other);
    }
    if longer.contains(other) && item != other {
        let i = choose|i: int| 0 <= i < longer.len() && longer[i] == other;
        assert(list[i] == other);
    }
}

/// What two lists contain together.
pub proof fn lemma_add_contains<A>(left: Seq<A>, right: Seq<A>, item: A)
    ensures
        (left + right).contains(item) <==> left.contains(item) || right.contains(item),
{
    let both = left + right;
    if left.contains(item) {
        let i = choose|i: int| 0 <= i < left.len() && left[i] == item;
        assert(both[i] == item);
    }
    if right.contains(item) {
        let i = choose|i: int| 0 <= i < right.len() && right[i] == item;
        assert(both[left.len() + i] == item);
    }
    if both.contains(item) {
        let i = choose|i: int| 0 <= i < both.len() && both[i] == item;
        if i < left.len() {
            assert(left[i] == item);
        } else {
            assert(right[i - left.len()] == item);
        }
    }
}

/// A list without duplicates has none with one more item that is new.
pub proof fn lemma_push_no_duplicates<A>(list: Seq<A>, item: A)
    requires
        list.no_duplicates(),
    ensures
        !list.contains(item) ==> list.push(item).no_duplicates(),
{
    if !list.contains(item) {
        let longer = list.push(item);
        assert forall|i: int, j: int|
            0 <= i < longer.len() && 0 <= j < longer.len() && i != j implies #[trigger] longer[i]
            != #[trigger] longer[j] by {
            if i < list.len() {
                assert(list.contains(list[i]));
            }
            if j < list.len() {
                assert(list.contains(list[j]));
            }
        }
    }
}

/// Two lists without duplicates that have nothing in common have none together.
pub proof fn lemma_add_no_duplicates<A>(left: Seq<A>, right: Seq<A>)
    requires
        left.no_duplicates(),
        right.no_duplicates(),
        forall|item: A| #[trigger] right.contains(item) ==> !left.contains(item),
    ensures
        (left + right).no_duplicates(),
{
    let both = left + right;
    assert forall|i: int, j: int|
        0 <= i < both.len() && 0 <= j < both.len() && i != j implies #[trigger] both[i]
        != #[trigger] both[j] by {
        if i < left.len() {
            assert(left.contains(left[i]));
            if j >= left.len() {
                assert(right.contains(right[j - left.len()]));
            }
        } else {
            assert(right.contains(right[i - left.len()]));
            if j < left.len() {
                assert(left.contains(left[j]));
            }
        }
    }
}

/// What a list without duplicates contains without its last item.
pub proof fn lemma_drop_last_contains<A>(list: Seq<A>, item: A)
    requires
        list.no_duplicates(),
        list.len() > 0,
    ensures
        list.drop_last().contains(item) <==> list.contains(item) && item != list.last(),
{
    let rest = list.drop_last();
    if rest.contains(item) {
        let i = choose|i: int| 0 <= i < rest.len() && rest[i] == item;
        assert(list[i] == item);
        assert(list[i] != list[list.len() - 1]);
    }
    if list.contains(item) && item != list.last() {
        let i = choose|i: int| 0 <= i < list.len() && list[i] == item;
        assert(rest[i] == item);
    }
}

} // verus!
