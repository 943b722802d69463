//! Taking a link off the ring and putting one on it, under the locks around it.
use vstd::prelude::*;
use crate::acquisition::{compare_exchange, readable, set_lock, LockReturn};
use crate::link::{Link, Slot};
use crate::lock_state::{
    law_code_inverts_decode, law_decode_inverts_code, LinkLockState, LockState,
};
use crate::locking::{
    conclusive, ends_locked, ends_unlocked, law_left_right_is_undone, law_three_is_undone,
    law_two_is_undone, left_right_result, lock_three, lock_two, pair_locked, pair_unlocked,
    temp_lock_left_right, three_result, two_result, unlock_prev_post,
};

verus! {

/// Replaces an index by `new` if it is `current`; says what it was, as `Ok` if it was
/// replaced and as `Err` if not.
pub fn compare_exchange_index(cell: &mut usize, current: usize, new: usize) -> (seen: Result<
    usize,
    usize,
>)
    ensures
        *old(cell) == current ==> seen == Ok::<usize, usize>(current) && *final(cell) == new,
        *old(cell) != current ==> seen == Err::<usize, usize>(*old(cell)) && *final(cell) == *old(
            cell,
        ),
{
    let seen: usize = *cell;
    if seen == current {
        *cell = new;
        Ok(seen)
    } else {
        Err(seen)
    }
}

/// A place whose value is handed out.
pub open spec fn emptied<T>(index: usize) -> Slot<T> {
    Slot {
        post: index,
        prev: index,
        lock_state: LinkLockState::gone().code(),
        index,
        data: None,
    }
}

/// The ring with `prev` and `post` made neighbours.
pub open spec fn joined<T>(prev: usize, post: usize, slots: Seq<Slot<T>>) -> Seq<Slot<T>> {
    let a = slots.update(prev as int, slots[prev as int].with_post(post));
    a.update(post as int, a[post as int].with_prev(prev))
}

/// The ring without the link at `index`: its neighbours are joined, and it is empty.
pub open spec fn taken_off<T>(index: usize, slots: Seq<Slot<T>>) -> Seq<Slot<T>> {
    joined(slots[index as int].prev, slots[index as int].post, slots).update(
        index as int,
        emptied(index),
    )
}

/// The link at `index` has its value, and its neighbours have it for a neighbour.
pub open spec fn linked_in<T>(index: usize, slots: Seq<Slot<T>>) -> bool {
    &&& slots[index as int].data is Some
    &&& slots[slots[index as int].prev as int].post == index
    &&& slots[slots[index as int].post as int].prev == index
}

/// Takes the locked link `center` from between its neighbours `prev` and `post`, marks it
/// taken, unlocks the neighbours and hands the link out.
pub fn remove_unchecked<T>(
    center: usize,
    prev: usize,
    post: usize,
    others: &mut Vec<Slot<T>>,
) -> (link: Link<T>)
    requires
        readable(old(others)@),
        center < old(others)@.len(),
        prev == old(others)@[center as int].prev,
        post == old(others)@[center as int].post,
        linked_in(center, old(others)@),
        old(others)@[center as int].lock() == LinkLockState::held(),
        ends_locked(center, old(others)@),
    ensures
        link.place() == center,
        link.before() == center,
        link.after() == center,
        link.lock() == LinkLockState::gone(),
        Some(link.value()) == old(others)@[center as int].data,
        final(others)@ == taken_off(center, ends_unlocked(center, old(others)@)),
        readable(final(others)@),
{
    let _ = compare_exchange_index(&mut others[prev].post, center, post);
    let _ = compare_exchange_index(&mut others[post].prev, center, prev);
    let _ = compare_exchange(
        &mut others[center].lock_state,
        LinkLockState::held().to_u8(),
        LinkLockState::gone().to_u8(),
    );
    if !(prev == post && prev == center) {
        unlock_prev_post(center, others);
    }
    others[center].prev = center;
    others[center].post = center;
    let data: T = others[center].data.take().unwrap();
    Link { post: center, prev: center, lock_state: LinkLockState::gone(), index: center, data }
}

/// A link that was taken off, with the places that were around it.
pub struct Removed<T> {
    pub link: Link<T>,
    pub prev: usize,
    pub post: usize,
}

/// Takes the link at `index` off the ring, or nothing if the link or one of its neighbours
/// is taken.
pub fn remove<T>(index: usize, others: &mut Vec<Slot<T>>) -> (removed: Option<Removed<T>>)
    requires
        readable(old(others)@),
        index < old(others)@.len(),
        conclusive(three_result(index, old(others)@)),
        three_result(index, old(others)@)->0.outcome is Success ==> linked_in(
            index,
            old(others)@,
        ),
    ensures
        removed is Some <==> three_result(index, old(others)@)->0.outcome is Success,
        removed is None ==> final(others)@ == old(others)@,
        removed matches Some(r) ==> {
            &&& r.prev == old(others)@[index as int].prev
            &&& r.post == old(others)@[index as int].post
            &&& r.link.place() == index
            &&& r.link.before() == index
            &&& r.link.after() == index
            &&& r.link.lock() == LinkLockState::gone()
            &&& Some(r.link.value()) == old(others)@[index as int].data
            &&& final(others)@ == taken_off(index, old(others)@)
        },
        readable(final(others)@),
{
    proof {
        law_three_is_undone(index, others@);
    }
    match lock_three(index, others) {
        None => None,
        Some((prev, post)) => {
            let link: Link<T> = remove_unchecked(index, prev, post, others);
            Some(Removed { link, prev, post })
        },
    }
}

/// Takes the link at `index`, which is locked already, off the ring, or nothing if one of
/// its neighbours is taken: then the link is unlocked.
pub fn remove_prelocked<T>(index: usize, others: &mut Vec<Slot<T>>) -> (removed: Option<
    Removed<T>,
>)
    requires
        readable(old(others)@),
        index < old(others)@.len(),
        old(others)@[index as int].lock() == LinkLockState::held(),
        conclusive(left_right_result(index, old(others)@)),
        left_right_result(index, old(others)@)->0.outcome is Success ==> linked_in(
            index,
            old(others)@,
        ),
    ensures
        removed is Some <==> left_right_result(index, old(others)@)->0.outcome is Success,
        removed is None ==> final(others)@ == set_lock(
            old(others)@,
            index as int,
            LinkLockState::free(),
        ),
        removed matches Some(r) ==> {
            &&& r.prev == old(others)@[index as int].prev
            &&& r.post == old(others)@[index as int].post
            &&& r.link.place() == index
            &&& r.link.before() == index
            &&& r.link.after() == index
            &&& r.link.lock() == LinkLockState::gone()
            &&& Some(r.link.value()) == old(others)@[index as int].data
            &&& final(others)@ == taken_off(index, old(others)@)
        },
        readable(final(others)@),
{
    proof {
        law_left_right_is_undone(index, others@);
    }
    match temp_lock_left_right(index, others) {
        LockReturn::Success { prev, post } => {
            let link: Link<T> = remove_unchecked(index, prev, post, others);
            Some(Removed { link, prev, post })
        },
        _ => None,
    }
}

/// The place of a link that is back, with its value and its neighbours, and unlocked.
pub open spec fn filled<T>(link: Link<T>) -> Slot<T> {
    Slot {
        post: link.after(),
        prev: link.before(),
        lock_state: LinkLockState::free().code(),
        index: link.place(),
        data: Some(link.value()),
    }
}

/// Puts a link back into the place it was taken from.
pub fn write_into<T>(link: &mut Slot<T>, val: Link<T>)
    requires
        old(link).well_coded(),
        val.place() == old(link).index,
        old(link).lock() == LinkLockState::gone(),
    ensures
        *final(link) == filled(val),
{
    let Link { post, prev, data, .. } = val;
    proof {
        law_code_inverts_decode(link.lock_state);
    }
    link.data = Some(data);
    link.post = post;
    link.prev = prev;
    let _ = compare_exchange(
        &mut link.lock_state,
        LinkLockState::gone().to_u8(),
        LinkLockState::free().to_u8(),
    );
}

/// The ring with a value put into the empty place `place`, behind the link at `index`.
pub open spec fn put_after<T>(index: usize, place: usize, value: T, slots: Seq<Slot<T>>) -> Seq<
    Slot<T>,
> {
    let right = slots[index as int].post;
    let back = Slot {
        post: right,
        prev: index,
        lock_state: LinkLockState::free().code(),
        index: place,
        data: Some(value),
    };
    let a = slots.update(place as int, back);
    let b = a.update(index as int, a[index as int].with_post(place));
    b.update(right as int, b[right as int].with_prev(place))
}

/// Puts a link between the link at `index` and the one after it, `right`, both of whose
/// sides that face each other are locked, and unlocks those.
pub fn insert_unchecked<T>(index: usize, right: usize, others: &mut Vec<Slot<T>>, val: Link<T>)
    requires
        readable(old(others)@),
        index < old(others)@.len(),
        right == old(others)@[index as int].post,
        old(others)@[right as int].prev == index,
        pair_locked(index, old(others)@),
        val.place() < old(others)@.len(),
        old(others)@[val.place() as int].lock() == LinkLockState::gone(),
    ensures
        final(others)@ == put_after(
            index,
            val.place(),
            val.value(),
            pair_unlocked(index, old(others)@),
        ),
        readable(final(others)@),
{
    let val_index: usize = val.index;
    let mut val: Link<T> = val;
    val.prev = index;
    val.post = right;
    write_into(&mut others[val_index], val);
    let _ = compare_exchange_index(&mut others[index].post, right, val_index);
    let _ = compare_exchange_index(&mut others[right].prev, index, val_index);
    unlock_prev_post(val_index, others);
}

/// Puts a link back on the ring behind the link at `index`, or gives it back if that link or
/// the one after it is taken.
pub fn insert_after<T>(index: usize, others: &mut Vec<Slot<T>>, val: Link<T>) -> (done: Result<
    (),
    Link<T>,
>)
    requires
        readable(old(others)@),
        index < old(others)@.len(),
        conclusive(two_result(index, old(others)@)),
        two_result(index, old(others)@)->0.outcome is Success ==> {
            &&& val.place() < old(others)@.len()
            &&& old(others)@[val.place() as int].lock() == LinkLockState::gone()
            &&& old(others)@[old(others)@[index as int].post as int].prev == index
        },
    ensures
        done is Ok <==> two_result(index, old(others)@)->0.outcome is Success,
        done matches Err(link) ==> link == val && final(others)@ == old(others)@,
        done is Ok ==> final(others)@ == put_after(index, val.place(), val.value(), old(others)@),
        readable(final(others)@),
{
    proof {
        law_two_is_undone(index, others@);
    }
    match lock_two(index, others) {
        Some(right) => {
            insert_unchecked(index, right, others, val);
            Ok(())
        },
        None => Err(val),
    }
}

/// Taking a link off leaves its place empty, pointing at itself and marked as handed out;
/// makes its neighbours each other's; and changes nothing else, no lock word, no value and no
/// other pointer.
pub proof fn law_taking_off_joins_the_neighbours<T>(index: usize, slots: Seq<Slot<T>>)
    requires
        readable(slots),
        index < slots.len(),
    ensures
        ({
            let prev = slots[index as int].prev;
            let post = slots[index as int].post;
            let after = taken_off(index, slots);
            let empty = after[index as int];
            &&& after.len() == slots.len()
            &&& empty.data is None
            &&& empty.post == index
            &&& empty.prev == index
            &&& empty.index == index
            &&& empty.lock().link_taken
            &&& empty.lock().prev == LockState::Taken
            &&& empty.lock().post == LockState::Taken
            &&& forall|i: int|
                #![trigger after[i]]
                0 <= i < slots.len() && i != index ==> {
                    &&& after[i].data == slots[i].data
                    &&& after[i].index == slots[i].index
                    &&& after[i].lock_state == slots[i].lock_state
                    &&& after[i].post == if i == prev {
                        post
                    } else {
                        slots[i].post
                    }
                    &&& after[i].prev == if i == post {
                        prev
                    } else {
                        slots[i].prev
                    }
                }
        }),
{
    law_decode_inverts_code(LinkLockState::gone());
}

/// Putting a value into an empty place behind a link leaves it there, between that link and
/// the one that was after it, with nothing locked; and changes nothing else, no lock word, no
/// value and no other pointer.
pub proof fn law_putting_on_goes_between<T>(
    index: usize,
    place: usize,
    value: T,
    slots: Seq<Slot<T>>,
)
    requires
        readable(slots),
        index < slots.len(),
        place < slots.len(),
        place != index,
        place != slots[index as int].post,
    ensures
        ({
            let right = slots[index as int].post;
            let after = put_after(index, place, value, slots);
            let back = after[place as int];
            &&& after.len() == slots.len()
            &&& back.data == Some(value)
            &&& back.prev == index
            &&& back.post == right
            &&& back.index == place
            &&& !back.lock().link_taken
            &&& back.lock().prev == LockState::Free
            &&& back.lock().post == LockState::Free
            &&& forall|i: int|
                #![trigger after[i]]
                0 <= i < slots.len() && i != place ==> {
                    &&& after[i].data == slots[i].data
                    &&& after[i].index == slots[i].index
                    &&& after[i].lock_state == slots[i].lock_state
                    &&& after[i].post == if i == index {
                        place
                    } else {
                        slots[i].post
                    }
                    &&& after[i].prev == if i == right {
                        place
                    } else {
                        slots[i].prev
                    }
                }
        }),
{
    law_decode_inverts_code(LinkLockState::free());
}

/// Putting a link back behind the link it was taken from behind restores the ring.
pub proof fn law_putting_back_undoes_taking_off<T>(index: usize, slots: Seq<Slot<T>>)
    requires
        readable(slots),
        index < slots.len(),
        linked_in(index, slots),
        slots[index as int].prev != index,
        slots[index as int].lock() == LinkLockState::free(),
    ensures
        put_after(
            slots[index as int].prev,
            index,
            slots[index as int].data->0,
            taken_off(index, slots),
        ) == slots,
{
    law_code_inverts_decode(slots[index as int].lock_state);
    assert(put_after(
        slots[index as int].prev,
        index,
        slots[index as int].data->0,
        taken_off(index, slots),
    ) =~= slots);
}

} // verus!
