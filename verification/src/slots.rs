//! Slot tables: vectors whose entries are either taken or empty, so that an
//! id once given out stays valid.

use vstd::prelude::*;

verus! {

/// What each slot holds, seen through the view of its content.
pub open spec fn slot_views<T: View>(slots: Seq<Option<T>>) -> Seq<Option<T::V>> {
    Seq::new(
        slots.len(),
        |i: int|
            match slots[i] {
                Some(x) => Some(x@),
                None => None,
            },
    )
}

/// Index of the first empty slot, or the length where every slot is taken.
pub open spec fn first_free<V>(slots: Seq<Option<V>>) -> int
    decreases slots.len(),
{
    if slots.len() == 0 {
        0
    } else if slots[0] is None {
        0
    } else {
        1 + first_free(slots.drop_first())
    }
}

/// The slots after `value` was stored in the first empty one, or at the end
/// where none was empty.
pub open spec fn stored<V>(slots: Seq<Option<V>>, value: V) -> Seq<Option<V>> {
    if first_free(slots) < slots.len() {
        slots.update(first_free(slots), Some(value))
    } else {
        slots.push(Some(value))
    }
}

/// `first_free` is the least index of an empty slot.
pub proof fn lemma_first_free<V>(slots: Seq<Option<V>>)
    ensures
        0 <= first_free(slots) <= slots.len(),
        first_free(slots) < slots.len() ==> slots[first_free(slots)] is None,
        forall|i: int| 0 <= i < first_free(slots) ==> (#[trigger] slots[i]) is Some,
    decreases slots.len(),
{
    if slots.len() > 0 && slots[0] is Some {
        let tail = slots.drop_first();
        lemma_first_free(tail);
        assert forall|i: int| 0 <= i < first_free(slots) implies (#[trigger] slots[i]) is Some by {
            if i > 0 {
                assert(tail[i - 1] == slots[i]);
            }
        }
    }
}

/// An index with an empty slot, all slots before it being taken, is the
/// first free one; so is the length where every slot is taken.
pub proof fn lemma_first_free_is<V>(slots: Seq<Option<V>>, i: int)
    requires
        0 <= i <= slots.len(),
        i < slots.len() ==> slots[i] is None,
        forall|j: int| 0 <= j < i ==> (#[trigger] slots[j]) is Some,
    ensures
        first_free(slots) == i,
{
    lemma_first_free(slots);
    let f = first_free(slots);
    if f < i {
        assert(slots[f] is Some);
    }
}

/// Finds the first empty slot.
pub fn find_free<T>(slots: &Vec<Option<T>>) -> (found: Option<usize>)
    ensures
        match found {
            Some(i) => i < slots@.len() && i == first_free(slots@),
            None => first_free(slots@) == slots@.len(),
        },
{
    let n: usize = slots.len();
    let mut i: usize = 0;
    while i < n
        invariant
            i <= n,
            n == slots@.len(),
            forall|j: int| 0 <= j < i ==> (#[trigger] slots@[j]) is Some,
        decreases n - i,
    {
        if slots[i].is_none() {
            proof {
                lemma_first_free_is(slots@, i as int);
            }
            return Some(i);
        }
        i = i + 1;
    }
    proof {
        lemma_first_free_is(slots@, n as int);
    }
    None
}

} // verus!
