//! Looking at the value of a link on the ring, and acting on what is seen.
use vstd::prelude::*;
use crate::acquisition::{
    center_attempt, compare_exchange, readable, set_lock, unlock_one, LockReturn,
};
use crate::link::{Link, Slot};
use crate::lock_state::{law_code_inverts_decode, LinkLockState};
use crate::locking::{
    law_left_right_is_undone, left_right_result, temp_lock_left_right, temp_lock_wait_one,
};
use crate::relink::{linked_in, remove_unchecked, taken_off};

verus! {

/// Shows a link's value to `f` and gives back what `f` says, or nothing if the link is taken.
pub fn inspect<T, F, R>(link: &mut Slot<T>, f: F) -> (seen: Option<R>) where F: FnOnce(&T) -> R
    requires
        old(link).well_coded(),
        !(center_attempt(old(link).lock()) is Retry),
        center_attempt(old(link).lock()) is Acquired ==> {
            &&& old(link).data is Some
            &&& call_requires(f, (&old(link).data->0,))
        },
    ensures
        seen is Some <==> center_attempt(old(link).lock()) is Acquired,
        seen matches Some(r) ==> call_ensures(f, (&old(link).data->0,), r),
        *final(link) == *old(link),
{
    proof {
        law_code_inverts_decode(link.lock_state);
    }
    if temp_lock_wait_one(link).is_none() {
        return None;
    }
    let val: R = f(link.data.as_ref().unwrap());
    let _ = compare_exchange(
        &mut link.lock_state,
        LinkLockState::held().to_u8(),
        LinkLockState::free().to_u8(),
    );
    Some(val)
}

/// What to do with a link that was looked at.
#[derive(Copy, Clone, Debug, PartialEq, Eq, Structural)]
pub enum UpgradeMode {
    /// Keep it locked.
    LeaveLocked,
    /// Take it off the ring.
    Remove,
    /// Let it be.
    False,
}

/// What came of looking at a link.
pub enum InspectUpgradeResult<T> {
    /// It was taken off the ring.
    Success(Link<T>),
    /// It was let be.
    DidNotUpgrade,
    /// It was taken, so that it could not be looked at.
    CouldNotAcquireOne,
    /// It was to be taken off, but a neighbour was not to be had.
    BackOffOrMutex,
    /// It is kept locked.
    LeaveLocked,
}

/// Does with the locked link at `index` what `mode` says.
pub fn upgrade<T>(index: usize, others: &mut Vec<Slot<T>>, mode: UpgradeMode) -> (result:
    InspectUpgradeResult<T>)
    requires
        readable(old(others)@),
        index < old(others)@.len(),
        old(others)@[index as int].lock() == LinkLockState::held(),
        mode is Remove ==> left_right_result(index, old(others)@) is Some,
        mode is Remove && left_right_result(index, old(others)@)->0.outcome is Success
            ==> linked_in(index, old(others)@),
    ensures
        match result {
            InspectUpgradeResult::Success(link) => {
                &&& mode is Remove
                &&& left_right_result(index, old(others)@)->0.outcome is Success
                &&& link.place() == index
                &&& link.before() == index
                &&& link.after() == index
                &&& link.lock() == LinkLockState::gone()
                &&& Some(link.value()) == old(others)@[index as int].data
                &&& final(others)@ == taken_off(index, old(others)@)
            },
            InspectUpgradeResult::BackOffOrMutex => {
                &&& mode is Remove
                &&& !(left_right_result(index, old(others)@)->0.outcome is Success)
                &&& final(others)@ == set_lock(
                    old(others)@,
                    index as int,
                    LinkLockState::free(),
                )
            },
            InspectUpgradeResult::DidNotUpgrade => {
                &&& mode is False
                &&& final(others)@ == set_lock(
                    old(others)@,
                    index as int,
                    LinkLockState::free(),
                )
            },
            InspectUpgradeResult::LeaveLocked => {
                &&& mode is LeaveLocked
                &&& final(others)@ == old(others)@
            },
            InspectUpgradeResult::CouldNotAcquireOne => false,
        },
        readable(final(others)@),
{
    match mode {
        UpgradeMode::False => {
            unlock_one(&mut others[index]);
            InspectUpgradeResult::DidNotUpgrade
        },
        UpgradeMode::LeaveLocked => InspectUpgradeResult::LeaveLocked,
        UpgradeMode::Remove => {
            proof {
                law_left_right_is_undone(index, others@);
            }
            match temp_lock_left_right(index, others) {
                LockReturn::Success { prev, post } => {
                    let link: Link<T> = remove_unchecked(index, prev, post, others);
                    InspectUpgradeResult::Success(link)
                },
                _ => InspectUpgradeResult::BackOffOrMutex,
            }
        },
    }
}

/// Shows the value of the link at `index` to `f` and does with the link what `f` says.
pub fn inspect_upgrade<T, F>(index: usize, others: &mut Vec<Slot<T>>, f: F) -> (result:
    InspectUpgradeResult<T>) where F: FnOnce(&T) -> UpgradeMode
    requires
        readable(old(others)@),
        index < old(others)@.len(),
        !(center_attempt(old(others)@[index as int].lock()) is Retry),
        center_attempt(old(others)@[index as int].lock()) is Acquired ==> {
            let held = set_lock(old(others)@, index as int, LinkLockState::held());
            let data = old(others)@[index as int].data;
            &&& data is Some
            &&& call_requires(f, (&data->0,))
            &&& call_ensures(f, (&data->0,), UpgradeMode::Remove) ==> {
                &&& left_right_result(index, held) is Some
                &&& left_right_result(index, held)->0.outcome is Success ==> linked_in(
                    index,
                    old(others)@,
                )
            }
        },
    ensures
        result is CouldNotAcquireOne <==> !(center_attempt(old(others)@[index as int].lock()) is
            Acquired),
        ({
            let held = set_lock(old(others)@, index as int, LinkLockState::held());
            let data = old(others)@[index as int].data->0;
            match result {
                InspectUpgradeResult::Success(link) => {
                    &&& call_ensures(f, (&data,), UpgradeMode::Remove)
                    &&& left_right_result(index, held)->0.outcome is Success
                    &&& link.place() == index
                    &&& link.before() == index
                    &&& link.after() == index
                    &&& link.lock() == LinkLockState::gone()
                    &&& link.value() == data
                    &&& final(others)@ == taken_off(index, old(others)@)
                },
                InspectUpgradeResult::BackOffOrMutex => {
                    &&& call_ensures(f, (&data,), UpgradeMode::Remove)
                    &&& !(left_right_result(index, held)->0.outcome is Success)
                    &&& final(others)@ == old(others)@
                },
                InspectUpgradeResult::DidNotUpgrade => {
                    &&& call_ensures(f, (&data,), UpgradeMode::False)
                    &&& final(others)@ == old(others)@
                },
                InspectUpgradeResult::LeaveLocked => {
                    &&& call_ensures(f, (&data,), UpgradeMode::LeaveLocked)
                    &&& final(others)@ == held
                },
                InspectUpgradeResult::CouldNotAcquireOne => final(others)@ == old(others)@,
            }
        }),
        readable(final(others)@),
{
    proof {
        law_code_inverts_decode(others@[index as int].lock_state);
    }
    if temp_lock_wait_one(&mut others[index]).is_none() {
        return InspectUpgradeResult::CouldNotAcquireOne;
    }
    let mode: UpgradeMode = f(others[index].data.as_ref().unwrap());
    upgrade(index, others, mode)
}

} // verus!
