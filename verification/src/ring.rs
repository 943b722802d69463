//! The ring: which places the links run through, in order, and what taking a link off and
//! putting one on do to that order.
use vstd::prelude::*;
use crate::acquisition::{readable, set_lock};
use crate::link::Slot;
use crate::lock_state::{law_decode_inverts_code, LinkLockState, LockState};
use crate::locking::{left_right_result, three_result, two_result};
use crate::relink::{emptied, linked_in, put_after, taken_off};

verus! {

/// The position after `k` on a ring of `n`.
pub open spec fn succ(k: int, n: int) -> int {
    if k + 1 == n {
        0
    } else {
        k + 1
    }
}

/// The position before `k` on a ring of `n`.
pub open spec fn pred(k: int, n: int) -> int {
    if k == 0 {
        n - 1
    } else {
        k - 1
    }
}

/// The link at position `k` of `order` has its value and lies between the links at the
/// positions around it.
pub open spec fn in_order<T>(slots: Seq<Slot<T>>, order: Seq<usize>, k: int) -> bool {
    let n = order.len() as int;
    let slot = slots[order[k] as int];
    &&& slot.post == order[succ(k, n)]
    &&& slot.prev == order[pred(k, n)]
    &&& slot.data is Some
}

/// The links run through the places in `order`, each once and round in a circle, and all
/// other places are empty. What is locked on the circle does not matter.
pub open spec fn is_linked<T>(slots: Seq<Slot<T>>, order: Seq<usize>) -> bool {
    &&& slots.len() <= usize::MAX
    &&& order.no_duplicates()
    &&& forall|k: int| 0 <= k < order.len() ==> #[trigger] order[k] < slots.len()
    &&& forall|i: int| 0 <= i < slots.len() ==> (#[trigger] slots[i]).index == i
    &&& forall|k: int| 0 <= k < order.len() ==> #[trigger] in_order(slots, order, k)
    &&& forall|i: int|
        0 <= i < slots.len() && !order.contains(i as usize) ==> #[trigger] slots[i] == emptied::<T>(
            i as usize,
        )
}

/// The links are a circle through `order`, and nothing on it is locked.
pub open spec fn is_ring<T>(slots: Seq<Slot<T>>, order: Seq<usize>) -> bool {
    &&& is_linked(slots, order)
    &&& forall|i: int|
        0 <= i < slots.len() && order.contains(i as usize) ==> (#[trigger] slots[i]).lock_state
            == LinkLockState::free().code()
}

/// A ring is readable.
pub proof fn lemma_ring_readable<T>(slots: Seq<Slot<T>>, order: Seq<usize>)
    requires
        is_ring(slots, order),
    ensures
        readable(slots),
        forall|i: int|
            0 <= i < slots.len() ==> (#[trigger] slots[i]).lock() == if order.contains(i as usize) {
                LinkLockState::free()
            } else {
                LinkLockState::gone()
            },
{
    law_decode_inverts_code(LinkLockState::free());
    law_decode_inverts_code(LinkLockState::gone());
    assert forall|i: int| #![trigger slots[i]] 0 <= i < slots.len() implies {
        &&& slots[i].index == i
        &&& slots[i].well_coded()
        &&& slots[i].prev < slots.len()
        &&& slots[i].post < slots.len()
        &&& slots[i].lock() == if order.contains(i as usize) {
            LinkLockState::free()
        } else {
            LinkLockState::gone()
        }
    } by {
        if order.contains(i as usize) {
            let k = order.index_of(i as usize);
            assert(in_order(slots, order, k));
        }
    }
}

/// Taking a position out of a sequence without repetition takes out that entry and no other.
proof fn lemma_order_without(order: Seq<usize>, k: int)
    requires
        order.no_duplicates(),
        0 <= k < order.len(),
    ensures
        order.remove(k).no_duplicates(),
        forall|x: usize| #[trigger]
            order.remove(k).contains(x) <==> order.contains(x) && x != order[k],
{
    let rest = order.remove(k);
    assert forall|x: usize| #[trigger] rest.contains(x) <==> order.contains(x) && x
        != order[k] by {
        if order.contains(x) && x != order[k] {
            let j = order.index_of(x);
            if j < k {
                assert(rest[j] == x);
            } else {
                assert(rest[j - 1] == x);
            }
        }
        if rest.contains(x) {
            let j = rest.index_of(x);
            if j < k {
                assert(order[j] == x);
            } else {
                assert(order[j + 1] == x);
            }
        }
    }
}

/// Taking the link at position `k` off the circle takes that position out of the order.
pub proof fn lemma_taken_off<T>(slots: Seq<Slot<T>>, order: Seq<usize>, k: int)
    requires
        is_linked(slots, order),
        0 <= k < order.len(),
    ensures
        is_linked(taken_off(order[k], slots), order.remove(k)),
        is_ring(slots, order) ==> is_ring(taken_off(order[k], slots), order.remove(k)),
{
    let index = order[k];
    let n = order.len() as int;
    let rest = order.remove(k);
    let after = taken_off(index, slots);
    lemma_order_without(order, k);
    assert(in_order(slots, order, k));
    assert forall|j: int| 0 <= j < rest.len() implies #[trigger] in_order(after, rest, j) by {
        let j0 = if j < k {
            j
        } else {
            j + 1
        };
        assert(in_order(slots, order, j0));
        assert(rest[j] == order[j0]);
    }
    assert forall|i: int| 0 <= i < after.len() && !rest.contains(i as usize) implies #[trigger]
    after[i] == emptied::<T>(i as usize) by {
        if i != index {
            assert(!order.contains(i as usize));
            assert(slots[i] == emptied::<T>(i as usize));
        }
    }
    assert forall|i: int| 0 <= i < after.len() && rest.contains(i as usize) implies (
    #[trigger] after[i]).lock_state == slots[i].lock_state by {}
}

/// Putting a place behind another in a sequence without repetition adds that entry and no
/// other.
proof fn lemma_order_with(order: Seq<usize>, k: int, place: usize)
    requires
        order.no_duplicates(),
        0 <= k < order.len(),
        !order.contains(place),
    ensures
        order.insert(k + 1, place).no_duplicates(),
        forall|x: usize| #[trigger]
            order.insert(k + 1, place).contains(x) <==> order.contains(x) || x == place,
{
    let more = order.insert(k + 1, place);
    assert(forall|j: int| 0 <= j < order.len() ==> order[j] != place);
    assert forall|x: usize| #[trigger] more.contains(x) <==> order.contains(x) || x == place by {
        if order.contains(x) {
            let j = order.index_of(x);
            if j <= k {
                assert(more[j] == x);
            } else {
                assert(more[j + 1] == x);
            }
        }
        if more.contains(x) {
            let j = more.index_of(x);
            if j <= k {
                assert(order[j] == x);
            } else if j > k + 1 {
                assert(order[j - 1] == x);
            }
        }
        assert(more[k + 1] == place);
    }
}

/// Putting a value into an empty place behind the link at position `k` puts the place behind
/// that position in the order.
pub proof fn lemma_put_after<T>(
    slots: Seq<Slot<T>>,
    order: Seq<usize>,
    k: int,
    place: usize,
    value: T,
)
    requires
        is_linked(slots, order),
        0 <= k < order.len(),
        place < slots.len(),
        !order.contains(place),
    ensures
        is_linked(put_after(order[k], place, value, slots), order.insert(k + 1, place)),
        is_ring(slots, order) ==> is_ring(
            put_after(order[k], place, value, slots),
            order.insert(k + 1, place),
        ),
{
    let n = order.len() as int;
    let more = order.insert(k + 1, place);
    let after = put_after(order[k], place, value, slots);
    let right = slots[order[k] as int].post;
    lemma_order_with(order, k, place);
    assert(in_order(slots, order, k));
    assert(order.contains(order[k]));
    assert(order.contains(right));
    assert forall|j: int| 0 <= j < more.len() implies #[trigger] in_order(after, more, j) by {
        if j != k + 1 {
            let j0 = if j <= k {
                j
            } else {
                j - 1
            };
            assert(in_order(slots, order, j0));
            assert(more[j] == order[j0]);
        }
    }
    assert forall|i: int| 0 <= i < after.len() && !more.contains(i as usize) implies #[trigger]
    after[i] == emptied::<T>(i as usize) by {
        assert(!order.contains(i as usize));
        assert(slots[i] == emptied::<T>(i as usize));
    }
    assert forall|i: int|
        0 <= i < after.len() && more.contains(i as usize) && i != place implies (
    #[trigger] after[i]).lock_state == slots[i].lock_state by {}
}

/// Filling a place of an empty ring makes a ring of one.
pub proof fn lemma_put_alone<T>(slots: Seq<Slot<T>>, place: usize, value: T)
    requires
        is_ring(slots, Seq::<usize>::empty()),
        place < slots.len(),
    ensures
        is_ring(
            slots.update(
                place as int,
                Slot {
                    post: place,
                    prev: place,
                    lock_state: LinkLockState::free().code(),
                    index: place,
                    data: Some(value),
                },
            ),
            seq![place],
        ),
{
    let alone = seq![place];
    let after = slots.update(
        place as int,
        Slot {
            post: place,
            prev: place,
            lock_state: LinkLockState::free().code(),
            index: place,
            data: Some(value),
        },
    );
    assert(in_order(after, alone, 0));
    assert forall|i: int| 0 <= i < after.len() && !alone.contains(i as usize) implies #[trigger]
    after[i] == emptied::<T>(i as usize) by {
        assert(alone[0] == place);
        assert(slots[i] == emptied::<T>(i as usize));
    }
}

/// On a ring every link can be locked with its neighbours and taken off.
pub proof fn lemma_three_on_ring<T>(slots: Seq<Slot<T>>, order: Seq<usize>, index: usize)
    requires
        is_ring(slots, order),
        index < slots.len(),
    ensures
        three_result(index, slots) is Some,
        !(three_result(index, slots)->0.outcome is BackOff),
        three_result(index, slots)->0.outcome is Success <==> order.contains(index),
        order.contains(index) ==> {
            let held = set_lock(slots, index as int, LinkLockState::held());
            &&& linked_in(index, slots)
            &&& left_right_result(index, held) is Some
            &&& left_right_result(index, held)->0.outcome is Success
        },
{
    lemma_ring_readable(slots, order);
    law_decode_inverts_code(LinkLockState::held());
    if order.contains(index) {
        let n = order.len() as int;
        let k = order.index_of(index);
        assert(in_order(slots, order, k));
        assert(in_order(slots, order, succ(k, n)));
        assert(in_order(slots, order, pred(k, n)));
        assert(order.contains(slots[index as int].post));
        assert(order.contains(slots[index as int].prev));
    }
}

/// On a ring every link can be locked together with the one after it.
pub proof fn lemma_two_on_ring<T>(slots: Seq<Slot<T>>, order: Seq<usize>, index: usize)
    requires
        is_ring(slots, order),
        index < slots.len(),
    ensures
        two_result(index, slots) is Some,
        !(two_result(index, slots)->0.outcome is BackOff),
        two_result(index, slots)->0.outcome is Success <==> order.contains(index),
        order.contains(index) ==> slots[slots[index as int].post as int].prev == index,
{
    lemma_ring_readable(slots, order);
    if order.contains(index) {
        let n = order.len() as int;
        let k = order.index_of(index);
        assert(in_order(slots, order, k));
        assert(in_order(slots, order, succ(k, n)));
        assert(order.contains(slots[index as int].post));
    }
}

/// On a ring the places in order are the places that have a value.
pub proof fn lemma_ring_values<T>(slots: Seq<Slot<T>>, order: Seq<usize>)
    requires
        is_ring(slots, order),
    ensures
        forall|i: int|
            0 <= i < slots.len() ==> ((#[trigger] slots[i]).data is Some <==> order.contains(
                i as usize,
            )),
{
    assert forall|i: int| 0 <= i < slots.len() implies ((#[trigger] slots[i]).data is Some
        <==> order.contains(i as usize)) by {
        if order.contains(i as usize) {
            assert(in_order(slots, order, order.index_of(i as usize)));
        }
    }
}

/// The links of a ring go round: from each place in order one comes to the next by its
/// `post`, and back by its `prev`, and from the last to the first; each has its value and
/// nothing of it is locked. Every place that is not in order is empty, points at itself and
/// is marked as handed out.
pub proof fn law_ring_goes_round<T>(slots: Seq<Slot<T>>, order: Seq<usize>)
    requires
        is_ring(slots, order),
    ensures
        forall|k: int|
            #![trigger order[k]]
            0 <= k < order.len() ==> {
                let slot = slots[order[k] as int];
                let next = if k + 1 < order.len() {
                    order[k + 1]
                } else {
                    order[0]
                };
                &&& order[k] < slots.len()
                &&& slot.post == next
                &&& slots[next as int].prev == order[k]
                &&& slot.data is Some
                &&& !slot.lock().link_taken
                &&& slot.lock().prev == LockState::Free
                &&& slot.lock().post == LockState::Free
            },
        forall|i: int|
            #![trigger slots[i]]
            0 <= i < slots.len() ==> slots[i].index == i && (!order.contains(i as usize) ==> {
                &&& slots[i].data is None
                &&& slots[i].post == i
                &&& slots[i].prev == i
                &&& slots[i].lock().link_taken
                &&& slots[i].lock().prev == LockState::Taken
                &&& slots[i].lock().post == LockState::Taken
            }),
{
    lemma_ring_readable(slots, order);
    let n = order.len() as int;
    assert forall|k: int| #![trigger order[k]] 0 <= k < n implies {
        let slot = slots[order[k] as int];
        let next = if k + 1 < n {
            order[k + 1]
        } else {
            order[0]
        };
        &&& order[k] < slots.len()
        &&& slot.post == next
        &&& slots[next as int].prev == order[k]
        &&& slot.data is Some
        &&& !slot.lock().link_taken
        &&& slot.lock().prev == LockState::Free
        &&& slot.lock().post == LockState::Free
    } by {
        assert(in_order(slots, order, k));
        assert(in_order(slots, order, succ(k, n)));
        assert(order.contains(order[k]));
    }
    assert forall|i: int|
        #![trigger slots[i]]
        0 <= i < slots.len() && !order.contains(i as usize) implies slots[i].data is None
        && slots[i].post == i && slots[i].prev == i by {
        assert(slots[i] == emptied::<T>(i as usize));
    }
}

} // verus!
