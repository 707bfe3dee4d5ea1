//! The first item of a sequence that meets a condition.
use vstd::prelude::*;

verus! {

/// Whether `index` is the place of the first wanted item.
pub open spec fn is_first<T>(items: Seq<T>, wanted: spec_fn(T) -> bool, index: int) -> bool {
    &&& 0 <= index < items.len()
    &&& wanted(items[index])
    &&& forall|earlier: int| 0 <= earlier < index ==> !wanted(#[trigger] items[earlier])
}

/// The place of the first wanted item, if there is one.
pub open spec fn position<T>(items: Seq<T>, wanted: spec_fn(T) -> bool) -> Option<int> {
    if exists|index: int| is_first(items, wanted, index) {
        Some(choose|index: int| is_first(items, wanted, index))
    } else {
        None
    }
}

/// The first wanted item, if there is one.
pub open spec fn first<T>(items: Seq<T>, wanted: spec_fn(T) -> bool) -> Option<T> {
    match position(items, wanted) {
        Some(index) => Some(items[index]),
        None => None,
    }
}

/// A place that is first is the position.
pub proof fn lemma_position_is<T>(items: Seq<T>, wanted: spec_fn(T) -> bool, index: int)
    requires
        is_first(items, wanted, index),
    ensures
        position(items, wanted) == Some(index),
{
    let chosen = choose|place: int| is_first(items, wanted, place);
    assert(is_first(items, wanted, chosen));
    if chosen < index {
        assert(!wanted(items[chosen]));
    } else if index < chosen {
        assert(!wanted(items[index]));
    }
}

/// There is no position where nothing is wanted.
pub proof fn lemma_position_absent<T>(items: Seq<T>, wanted: spec_fn(T) -> bool)
    requires
        forall|index: int| 0 <= index < items.len() ==> !wanted(#[trigger] items[index]),
    ensures
        position(items, wanted) is None,
{
    if exists|index: int| is_first(items, wanted, index) {
        let chosen = choose|index: int| is_first(items, wanted, index);
        assert(!wanted(items[chosen]));
    }
}

/// Where some item is wanted there is a position, at that item or before it.
pub proof fn lemma_position_present<T>(items: Seq<T>, wanted: spec_fn(T) -> bool, index: int)
    requires
        0 <= index < items.len(),
        wanted(items[index]),
    ensures
        position(items, wanted) is Some,
        is_first(items, wanted, position(items, wanted)->0),
        position(items, wanted)->0 <= index,
    decreases index,
{
    if exists|earlier: int| 0 <= earlier < index && wanted(#[trigger] items[earlier]) {
        let earlier = choose|earlier: int| 0 <= earlier < index && wanted(#[trigger] items[earlier]);
        lemma_position_present(items, wanted, earlier);
    } else {
        assert(is_first(items, wanted, index));
        lemma_position_is(items, wanted, index);
    }
}

/// A position is first, and its absence means that nothing is wanted.
pub proof fn lemma_position<T>(items: Seq<T>, wanted: spec_fn(T) -> bool)
    ensures
        match position(items, wanted) {
            Some(index) => is_first(items, wanted, index),
            None => forall|index: int|
                0 <= index < items.len() ==> !wanted(#[trigger] items[index]),
        },
{
    if position(items, wanted) is None {
        assert forall|index: int| 0 <= index < items.len() implies !wanted(
            #[trigger] items[index],
        ) by {
            if wanted(items[index]) {
                lemma_position_present(items, wanted, index);
            }
        }
    }
}

/// Taking out an item that is not wanted leaves the first wanted item.
pub proof fn lemma_first_without<T>(items: Seq<T>, wanted: spec_fn(T) -> bool, index: int)
    requires
        0 <= index < items.len(),
        !wanted(items[index]),
    ensures
        first(items.remove(index), wanted) == first(items, wanted),
{
    let rest = items.remove(index);
    lemma_position(items, wanted);
    match position(items, wanted) {
        Some(place) => {
            let moved = if place < index {
                place
            } else {
                place - 1
            };
            assert(rest[moved] == items[place]);
            assert forall|earlier: int| 0 <= earlier < moved implies !wanted(
                #[trigger] rest[earlier],
            ) by {
                if earlier < index {
                    assert(rest[earlier] == items[earlier]);
                } else {
                    assert(rest[earlier] == items[earlier + 1]);
                }
            }
            lemma_position_is(rest, wanted, moved);
        },
        None => {
            assert forall|place: int| 0 <= place < rest.len() implies !wanted(
                #[trigger] rest[place],
            ) by {
                if place < index {
                    assert(rest[place] == items[place]);
                } else {
                    assert(rest[place] == items[place + 1]);
                }
            }
            lemma_position_absent(rest, wanted);
        },
    }
}

/// Replacing an item by one that is wanted alike leaves the position.
pub proof fn lemma_position_update<T>(
    items: Seq<T>,
    wanted: spec_fn(T) -> bool,
    index: int,
    item: T,
)
    requires
        0 <= index < items.len(),
        wanted(item) == wanted(items[index]),
    ensures
        position(items.update(index, item), wanted) == position(items, wanted),
{
    let updated = items.update(index, item);
    assert forall|place: int| 0 <= place < items.len() implies wanted(#[trigger] updated[place])
        == wanted(items[place]) by {}
    lemma_position(items, wanted);
    match position(items, wanted) {
        Some(place) => {
            assert(is_first(updated, wanted, place));
            lemma_position_is(updated, wanted, place);
        },
        None => {
            lemma_position_absent(updated, wanted);
        },
    }
}

/// An item that is added last is found only where no other is wanted.
pub proof fn lemma_position_push<T>(items: Seq<T>, wanted: spec_fn(T) -> bool, item: T)
    ensures
        position(items.push(item), wanted) == match position(items, wanted) {
            Some(index) => Some(index),
            None => if wanted(item) {
                Some(items.len() as int)
            } else {
                None
            },
        },
{
    let pushed = items.push(item);
    assert forall|place: int| 0 <= place < items.len() implies #[trigger] pushed[place]
        == items[place] by {}
    lemma_position(items, wanted);
    match position(items, wanted) {
        Some(place) => {
            assert(is_first(pushed, wanted, place));
            lemma_position_is(pushed, wanted, place);
        },
        None => {
            if wanted(item) {
                assert(is_first(pushed, wanted, items.len() as int));
                lemma_position_is(pushed, wanted, items.len() as int);
            } else {
                lemma_position_absent(pushed, wanted);
            }
        },
    }
}

} // verus!
