//! The first place at which an item stands in a sequence.

use vstd::prelude::*;

verus! {

/// The first position of `items` at which `item` stands.
pub open spec fn first_index_of<T>(items: Seq<T>, item: T) -> Option<int>
    decreases items.len(),
{
    if items.len() == 0 {
        None
    } else if items[0] == item {
        Some(0)
    } else {
        match first_index_of(items.skip(1), item) {
            Some(i) => Some(i + 1),
            None => None,
        }
    }
}

/// At the position found stands `item`, and nowhere before it; where no
/// position is found, `item` is not among the items.
pub proof fn lemma_first_index_of<T>(items: Seq<T>, item: T)
    ensures
        match first_index_of(items, item) {
            Some(i) => 0 <= i < items.len() && items[i] == item && forall|j: int|
                0 <= j < i ==> #[trigger] items[j] != item,
            None => !items.contains(item) && forall|j: int|
                0 <= j < items.len() ==> #[trigger] items[j] != item,
        },
    decreases items.len(),
{
    if items.len() == 0 {
    } else if items[0] == item {
    } else {
        let tail = items.skip(1);
        lemma_first_index_of(tail, item);
        match first_index_of(tail, item) {
            Some(i) => {
                assert(items[i + 1] == tail[i]);
                assert forall|j: int| 0 <= j < i + 1 implies #[trigger] items[j] != item by {
                    if j > 0 {
                        assert(items[j] == tail[j - 1]);
                    }
                }
            },
            None => {
                assert forall|j: int| 0 <= j < items.len() implies #[trigger] items[j] != item by {
                    if j > 0 {
                        assert(items[j] == tail[j - 1]);
                    }
                }
            },
        }
    }
}

/// A position at which `item` stands and before which it stands nowhere is
/// the one found; where `i` is the number of items, none is found.
pub proof fn lemma_first_index_of_is<T>(items: Seq<T>, item: T, i: int)
    requires
        0 <= i <= items.len(),
        forall|j: int| 0 <= j < i ==> #[trigger] items[j] != item,
        i < items.len() ==> items[i] == item,
    ensures
        first_index_of(items, item) == if i < items.len() {
            Some(i)
        } else {
            None
        },
    decreases items.len(),
{
    if items.len() == 0 {
    } else if i == 0 {
    } else {
        let tail = items.skip(1);
        assert(items[0] != item);
        assert forall|j: int| 0 <= j < i - 1 implies #[trigger] tail[j] != item by {
            assert(tail[j] == items[j + 1]);
        }
        if i - 1 < tail.len() {
            assert(tail[i - 1] == items[i]);
        }
        lemma_first_index_of_is(tail, item, i - 1);
    }
}

} // verus!
