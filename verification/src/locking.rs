//! Locking by a party that has the ring to itself: nobody else moves, so an acquisition
//! either comes to its end or would spin for ever.
use vstd::prelude::*;
use crate::acquisition::{
    center_attempt, readable, set_lock, with_post_side, with_prev_side, Acquisition, Attempt,
    LockReturn, Stage,
};
use crate::link::Slot;
use crate::lock_state::{
    law_code_inverts_decode, law_decode_inverts_code, LinkLockState, LockState,
};

verus! {

/// The end of an acquisition: how it came out, and what the ring is like then.
pub struct Settled<T> {
    pub outcome: LockReturn,
    pub slots: Seq<Slot<T>>,
}

/// The ring after a failed acquisition gave up the link, if that was locked, and the link
/// before.
pub open spec fn given_up<T>(
    whole: bool,
    center: usize,
    prev: usize,
    slots: Seq<Slot<T>>,
) -> Seq<Slot<T>> {
    let dropped = if whole {
        set_lock(slots, center as int, LinkLockState::free())
    } else {
        slots
    };
    set_lock(dropped, prev as int, with_post_side(dropped[prev as int].lock(), LockState::Free))
}

/// How insisting on the `prev` side of `post` ends, and what becomes of the ring; nothing
/// if it never ends.
pub open spec fn post_result<T>(
    whole: bool,
    center: usize,
    prev: usize,
    post: usize,
    slots: Seq<Slot<T>>,
) -> Option<Settled<T>> {
    let lock = slots[post as int].lock();
    if !lock.link_taken && lock.prev == LockState::Free {
        Some(
            Settled {
                outcome: LockReturn::Success { post, prev },
                slots: set_lock(slots, post as int, with_prev_side(lock, LockState::Temp)),
            },
        )
    } else if lock.prev == LockState::Taken {
        Some(
            Settled {
                outcome: LockReturn::WaitOnMutex,
                slots: given_up(whole, center, prev, slots),
            },
        )
    } else {
        None
    }
}

/// How taking the sides that face the held link `center` ends, its neighbours being `prev`
/// and `post`, and what becomes of the ring.
pub open spec fn sides_result<T>(
    center: usize,
    prev: usize,
    post: usize,
    slots: Seq<Slot<T>>,
) -> Option<Settled<T>> {
    let lock = slots[prev as int].lock();
    if lock.link_taken || lock.post == LockState::Taken {
        Some(
            Settled {
                outcome: LockReturn::WaitOnMutex,
                slots: set_lock(slots, center as int, LinkLockState::free()),
            },
        )
    } else if lock.post == LockState::Temp {
        Some(
            Settled {
                outcome: LockReturn::BackOff,
                slots: set_lock(slots, center as int, LinkLockState::free()),
            },
        )
    } else {
        let locked = set_lock(slots, prev as int, with_post_side(lock, LockState::Temp));
        if prev == post {
            Some(Settled { outcome: LockReturn::Success { post, prev }, slots: locked })
        } else {
            post_result(true, center, prev, post, locked)
        }
    }
}

/// How locking the neighbours of the held link `center` ends, and what becomes of the ring.
/// A link that is alone on its ring has no neighbours to lock.
pub open spec fn left_right_result<T>(center: usize, slots: Seq<Slot<T>>) -> Option<Settled<T>> {
    let prev = slots[center as int].prev;
    let post = slots[center as int].post;
    if prev == post && prev == center {
        Some(Settled { outcome: LockReturn::Success { post, prev }, slots })
    } else {
        sides_result(center, prev, post, slots)
    }
}

/// How locking the link `center` and its neighbours ends, and what becomes of the ring.
pub open spec fn three_result<T>(center: usize, slots: Seq<Slot<T>>) -> Option<Settled<T>> {
    match center_attempt(slots[center as int].lock()) {
        Attempt::Acquired => left_right_result(
            center,
            set_lock(slots, center as int, LinkLockState::held()),
        ),
        Attempt::Taken => Some(Settled { outcome: LockReturn::WaitOnMutex, slots }),
        _ => None,
    }
}

/// How locking the `post` side of `left` and the side that faces it ends, and what becomes
/// of the ring. A link that is alone on its ring faces itself and is locked once.
pub open spec fn two_result<T>(left: usize, slots: Seq<Slot<T>>) -> Option<Settled<T>> {
    let lock = slots[left as int].lock();
    if lock.link_taken || lock.post == LockState::Taken {
        Some(Settled { outcome: LockReturn::WaitOnMutex, slots })
    } else if lock.post == LockState::Temp {
        Some(Settled { outcome: LockReturn::BackOff, slots })
    } else {
        right_result(
            left,
            set_lock(slots, left as int, with_post_side(lock, LockState::Temp)),
        )
    }
}

/// How the acquisition of two goes on once the `post` side of `left` is held.
pub open spec fn right_result<T>(left: usize, slots: Seq<Slot<T>>) -> Option<Settled<T>> {
    let post = slots[left as int].post;
    if post == left {
        Some(Settled { outcome: LockReturn::Success { post, prev: left }, slots })
    } else {
        post_result(false, left, left, post, slots)
    }
}

impl Acquisition {
    /// How this acquisition ends when nobody else moves, and what becomes of the ring.
    pub open spec fn settled<T>(self, slots: Seq<Slot<T>>) -> Option<Settled<T>> {
        match self.stage {
            Stage::Center => three_result(self.center, slots),
            Stage::Ends => left_right_result(self.center, slots),
            Stage::Prev { prev, post, guess } => if self.whole {
                sides_result(self.center, prev, post, slots)
            } else {
                two_result(self.center, slots)
            },
            Stage::Right { prev } => right_result(self.center, slots),
            Stage::Post { prev, post, guess } => post_result(
                self.whole,
                self.center,
                prev,
                post,
                slots,
            ),
            Stage::DropCenter { prev, prev_held, outcome } => if prev_held {
                Some(Settled { outcome, slots: given_up(true, self.center, prev, slots) })
            } else {
                Some(
                    Settled {
                        outcome,
                        slots: set_lock(slots, self.center as int, LinkLockState::free()),
                    },
                )
            },
            Stage::DropPrev { prev, outcome } => Some(
                Settled { outcome, slots: given_up(false, self.center, prev, slots) },
            ),
            Stage::Done { outcome } => Some(Settled { outcome, slots }),
        }
    }

    /// How many steps are left at most.
    pub open spec fn steps_left<T>(self, slots: Seq<Slot<T>>) -> nat {
        match self.stage {
            Stage::Center => 9,
            Stage::Ends => 8,
            Stage::Prev { prev, post, guess } => if guess == slots[prev as int].lock().prev {
                6
            } else {
                7
            },
            Stage::Right { .. } => 5,
            Stage::Post { prev, post, guess } => if guess == slots[post as int].lock().post {
                3
            } else {
                4
            },
            Stage::DropCenter { .. } => 2,
            Stage::DropPrev { .. } => 1,
            Stage::Done { .. } => 0,
        }
    }

    /// Steps until the acquisition ends.
    #[verifier::rlimit(30)]
    pub fn settle<T>(self, links: &mut Vec<Slot<T>>) -> (outcome: LockReturn)
        requires
            readable(old(links)@),
            self.fits(old(links)@.len() as int),
            self.settled(old(links)@) is Some,
        ensures
            self.settled(old(links)@) == Some((Settled { outcome, slots: final(links)@ })),
            readable(final(links)@),
    {
        let mut acquisition: Acquisition = self;
        loop
            invariant
                readable(links@),
                acquisition.fits(links@.len() as int),
                acquisition.settled(links@) == self.settled(old(links)@),
                self.settled(old(links)@) is Some,
            decreases acquisition.steps_left(links@),
        {
            if let Stage::Done { outcome } = acquisition.stage {
                return outcome;
            }
            acquisition = acquisition.step(links);
        }
    }
}

/// Locks one link by itself, for a look at it: `None` if it is taken. Never backs off.
pub fn temp_lock_wait_one<T>(center: &mut Slot<T>) -> (locked: Option<()>)
    requires
        old(center).well_coded(),
        !(center_attempt(old(center).lock()) is Retry),
    ensures
        locked is Some <==> center_attempt(old(center).lock()) is Acquired,
        locked is Some ==> *final(center) == old(center).with_lock(LinkLockState::held()),
        locked is None ==> *final(center) == *old(center),
{
    match center.attempt_center() {
        Attempt::Acquired => Some(()),
        _ => None,
    }
}

/// Locks the neighbours of the link `center`, which is locked already. If it fails, the link
/// is unlocked.
pub fn temp_lock_left_right<T>(center: usize, others: &mut Vec<Slot<T>>) -> (outcome: LockReturn)
    requires
        readable(old(others)@),
        center < old(others)@.len(),
        left_right_result(center, old(others)@) is Some,
    ensures
        left_right_result(center, old(others)@) == Some(
            (Settled { outcome, slots: final(others)@ }),
        ),
        readable(final(others)@),
{
    Acquisition::left_right(center).settle(others)
}

/// Locks the link `center` and its neighbours. Backs off of the link before, remains
/// persistent on the link after.
pub fn temp_lock_wait_three<T>(center: usize, others: &mut Vec<Slot<T>>) -> (outcome: LockReturn)
    requires
        readable(old(others)@),
        center < old(others)@.len(),
        three_result(center, old(others)@) is Some,
    ensures
        three_result(center, old(others)@) == Some((Settled { outcome, slots: final(others)@ })),
        readable(final(others)@),
{
    Acquisition::three(center).settle(others)
}

/// Locks the `post` side of `left` and the side of the next link that faces it. Once again,
/// left backs off, right presses forward.
pub fn temp_lock_wait_two<T>(left: usize, others: &mut Vec<Slot<T>>) -> (outcome: LockReturn)
    requires
        readable(old(others)@),
        left < old(others)@.len(),
        two_result(left, old(others)@) is Some,
    ensures
        two_result(left, old(others)@) == Some((Settled { outcome, slots: final(others)@ })),
        readable(final(others)@),
{
    Acquisition::two(left).settle(others)
}

/// An acquisition with this end does not call for another try.
pub open spec fn conclusive<T>(result: Option<Settled<T>>) -> bool {
    result is Some && !(result->0.outcome is BackOff)
}

/// Locks the link `center` and its neighbours: `Some` with the places before and after, or
/// `None` if one of the three is taken.
pub fn lock_three<T>(center: usize, others: &mut Vec<Slot<T>>) -> (ends: Option<(usize, usize)>)
    requires
        readable(old(others)@),
        center < old(others)@.len(),
        conclusive(three_result(center, old(others)@)),
    ensures
        ends == (match three_result(center, old(others)@)->0.outcome {
            LockReturn::Success { post, prev } => Some((prev, post)),
            _ => None,
        }),
        final(others)@ == three_result(center, old(others)@)->0.slots,
        readable(final(others)@),
{
    match temp_lock_wait_three(center, others) {
        LockReturn::Success { prev, post } => Some((prev, post)),
        _ => None,
    }
}

/// Locks the `post` side of `left` and the side that faces it: `Some` with the place after,
/// or `None` if one of the two is taken.
pub fn lock_two<T>(left: usize, others: &mut Vec<Slot<T>>) -> (right: Option<usize>)
    requires
        readable(old(others)@),
        left < old(others)@.len(),
        conclusive(two_result(left, old(others)@)),
    ensures
        right == (match two_result(left, old(others)@)->0.outcome {
            LockReturn::Success { post, prev } => Some(post),
            _ => None,
        }),
        final(others)@ == two_result(left, old(others)@)->0.slots,
        readable(final(others)@),
{
    match temp_lock_wait_two(left, others) {
        LockReturn::Success { post, .. } => Some(post),
        _ => None,
    }
}

/// The sides that face the link `center` are locked, so that they can be unlocked.
pub open spec fn ends_locked<T>(center: usize, slots: Seq<Slot<T>>) -> bool {
    let prev = slots[center as int].prev;
    let post = slots[center as int].post;
    if prev == post && prev == center {
        true
    } else {
        &&& slots[prev as int].lock().post != LockState::Free
        &&& prev != post ==> slots[post as int].lock().prev != LockState::Free
    }
}

/// The ring with the sides that face the link `center` freed.
pub open spec fn ends_unlocked<T>(center: usize, slots: Seq<Slot<T>>) -> Seq<Slot<T>> {
    let prev = slots[center as int].prev;
    let post = slots[center as int].post;
    if prev == post && prev == center {
        slots
    } else {
        let freed = set_lock(
            slots,
            prev as int,
            with_post_side(slots[prev as int].lock(), LockState::Free),
        );
        if prev == post {
            freed
        } else {
            set_lock(
                freed,
                post as int,
                with_prev_side(freed[post as int].lock(), LockState::Free),
            )
        }
    }
}

/// The `post` side of `left` and the side that faces it are held for a moment.
pub open spec fn pair_locked<T>(left: usize, slots: Seq<Slot<T>>) -> bool {
    let right = slots[left as int].post;
    &&& slots[left as int].lock().post == LockState::Temp
    &&& right != left ==> slots[right as int].lock().prev == LockState::Temp
}

/// The ring with the `post` side of `left` and the side that faces it freed.
pub open spec fn pair_unlocked<T>(left: usize, slots: Seq<Slot<T>>) -> Seq<Slot<T>> {
    let right = slots[left as int].post;
    let freed = set_lock(
        slots,
        left as int,
        with_post_side(slots[left as int].lock(), LockState::Free),
    );
    if right == left {
        freed
    } else {
        set_lock(
            freed,
            right as int,
            with_prev_side(freed[right as int].lock(), LockState::Free),
        )
    }
}

/// Unlocks the sides that face the link `center`.
pub fn unlock_prev_post<T>(center: usize, others: &mut Vec<Slot<T>>)
    requires
        readable(old(others)@),
        center < old(others)@.len(),
        ends_locked(center, old(others)@),
    ensures
        final(others)@ == ends_unlocked(center, old(others)@),
        readable(final(others)@),
{
    let prev: usize = others[center].prev;
    let post: usize = others[center].post;
    if !(prev == post && prev == center) {
        others[prev].release_post_side();
        if prev == post {
            return;
        }
        others[post].release_prev_side();
    }
}

/// Locking the neighbours of a held link either succeeds with the places around the link,
/// and then unlocking them restores the ring; or it fails, and then the link is free and all
/// else is as it was.
pub proof fn law_left_right_is_undone<T>(center: usize, slots: Seq<Slot<T>>)
    requires
        readable(slots),
        center < slots.len(),
        slots[center as int].lock() == LinkLockState::held(),
        left_right_result(center, slots) is Some,
    ensures
        ({
            let end = left_right_result(center, slots)->0;
            if end.outcome is Success {
                &&& end.outcome == (LockReturn::Success {
                    post: slots[center as int].post,
                    prev: slots[center as int].prev,
                })
                &&& end.slots[center as int] == slots[center as int]
                &&& ends_locked(center, end.slots)
                &&& ends_unlocked(center, end.slots) == slots
            } else {
                end.slots == set_lock(slots, center as int, LinkLockState::free())
            }
        }),
{
    let prev = slots[center as int].prev;
    let post = slots[center as int].post;
    let end = left_right_result(center, slots)->0;
    law_code_inverts_decode(slots[center as int].lock_state);
    law_code_inverts_decode(slots[prev as int].lock_state);
    law_code_inverts_decode(slots[post as int].lock_state);
    if end.outcome is Success {
        assert(ends_unlocked(center, end.slots) =~= slots);
    } else {
        assert(end.slots =~= set_lock(slots, center as int, LinkLockState::free()));
    }
}

/// Locking a link with its neighbours either succeeds with the places around the link, and
/// then unlocking the neighbours and the link restores the ring; or it fails, and then the
/// ring is as it was.
pub proof fn law_three_is_undone<T>(center: usize, slots: Seq<Slot<T>>)
    requires
        readable(slots),
        center < slots.len(),
        three_result(center, slots) is Some,
    ensures
        ({
            let end = three_result(center, slots)->0;
            if end.outcome is Success {
                &&& end.outcome == (LockReturn::Success {
                    post: slots[center as int].post,
                    prev: slots[center as int].prev,
                })
                &&& end.slots[center as int] == slots[center as int].with_lock(
                    LinkLockState::held(),
                )
                &&& ends_locked(center, end.slots)
                &&& ends_unlocked(center, end.slots) == set_lock(
                    slots,
                    center as int,
                    LinkLockState::held(),
                )
                &&& set_lock(
                    ends_unlocked(center, end.slots),
                    center as int,
                    LinkLockState::free(),
                ) == slots
            } else {
                end.slots == slots
            }
        }),
{
    law_code_inverts_decode(slots[center as int].lock_state);
    if center_attempt(slots[center as int].lock()) is Acquired {
        let held = set_lock(slots, center as int, LinkLockState::held());
        law_left_right_is_undone(center, held);
        assert(set_lock(held, center as int, LinkLockState::free()) =~= slots);
    }
}

/// Locking the `post` side of a link and the side that faces it either succeeds with the
/// place after the link, and then freeing both sides restores the ring; or it fails, and
/// then the ring is as it was.
#[verifier::rlimit(30)]
pub proof fn law_two_is_undone<T>(left: usize, slots: Seq<Slot<T>>)
    requires
        readable(slots),
        left < slots.len(),
        two_result(left, slots) is Some,
    ensures
        ({
            let end = two_result(left, slots)->0;
            if end.outcome is Success {
                let right = slots[left as int].post;
                &&& end.outcome == (LockReturn::Success { post: right, prev: left })
                &&& end.slots[left as int].post == right
                &&& pair_locked(left, end.slots)
                &&& pair_unlocked(left, end.slots) == slots
            } else {
                end.slots == slots
            }
        }),
{
    let right = slots[left as int].post;
    let end = two_result(left, slots)->0;
    law_code_inverts_decode(slots[left as int].lock_state);
    law_code_inverts_decode(slots[right as int].lock_state);
    if end.outcome is Success {
        assert(pair_unlocked(left, end.slots) =~= slots);
    } else {
        assert(end.slots =~= slots);
    }
}

/// Two rings differ in lock words only.
pub open spec fn same_but_words<T>(before: Seq<Slot<T>>, after: Seq<Slot<T>>) -> bool {
    &&& after.len() == before.len()
    &&& forall|i: int|
        #![trigger after[i]]
        0 <= i < before.len() ==> {
            &&& after[i].post == before[i].post
            &&& after[i].prev == before[i].prev
            &&& after[i].index == before[i].index
            &&& after[i].data == before[i].data
        }
}

/// Unlocking the neighbours of a link frees the sides that face it and changes nothing else.
/// A neighbour on both sides is freed on the side that it was locked on; a link that is alone
/// has none.
pub proof fn law_unlocking_frees_facing_sides<T>(center: usize, slots: Seq<Slot<T>>)
    requires
        readable(slots),
        center < slots.len(),
    ensures
        ({
            let prev = slots[center as int].prev;
            let post = slots[center as int].post;
            let alone = prev == center && post == center;
            let after = ends_unlocked(center, slots);
            &&& same_but_words(slots, after)
            &&& forall|i: int|
                #![trigger after[i]]
                0 <= i < slots.len() ==> {
                    &&& after[i].lock().link_taken == slots[i].lock().link_taken
                    &&& after[i].lock().post == if i == prev && !alone {
                        LockState::Free
                    } else {
                        slots[i].lock().post
                    }
                    &&& after[i].lock().prev == if i == post && prev != post {
                        LockState::Free
                    } else {
                        slots[i].lock().prev
                    }
                }
        }),
{
    lemma_words_read_back();
}

/// Unlocking two links that lie side by side frees the sides on which they face each other
/// and changes nothing else.
pub proof fn law_unlocking_two_frees_facing_sides<T>(left: usize, slots: Seq<Slot<T>>)
    requires
        readable(slots),
        left < slots.len(),
    ensures
        ({
            let right = slots[left as int].post;
            let after = pair_unlocked(left, slots);
            &&& same_but_words(slots, after)
            &&& forall|i: int|
                #![trigger after[i]]
                0 <= i < slots.len() ==> {
                    &&& after[i].lock().link_taken == slots[i].lock().link_taken
                    &&& after[i].lock().post == if i == left {
                        LockState::Free
                    } else {
                        slots[i].lock().post
                    }
                    &&& after[i].lock().prev == if i == right && right != left {
                        LockState::Free
                    } else {
                        slots[i].lock().prev
                    }
                }
        }),
{
    lemma_words_read_back();
}

/// Every word is read back from its byte.
proof fn lemma_words_read_back()
    ensures
        forall|word: LinkLockState|
            LinkLockState::decode(#[trigger] word.code()) == word,
{
    assert forall|word: LinkLockState| LinkLockState::decode(#[trigger] word.code()) == word by {
        law_decode_inverts_code(word);
    }
}

/// How locking the neighbours of a held link comes out, by the words of the neighbours. It
/// gives up if the link before or its side is taken, or the side of the link after is; backs
/// off if the side of the link before is held for a moment; never ends if the link after or
/// its side is held for ever; and succeeds in all other cases. Success locks the sides that
/// face the link and nothing else; failure frees the link and changes nothing else.
pub proof fn law_left_right_by_words<T>(center: usize, slots: Seq<Slot<T>>)
    requires
        readable(slots),
        center < slots.len(),
        slots[center as int].lock() == LinkLockState::held(),
    ensures
        ({
            let prev = slots[center as int].prev;
            let post = slots[center as int].post;
            let alone = prev == center && post == center;
            let before = slots[prev as int].lock();
            let behind = slots[post as int].lock();
            let result = left_right_result(center, slots);
            let free_before = !before.link_taken && before.post == LockState::Free;
            &&& result is None <==> !alone && free_before && prev != post && (behind.prev
                == LockState::Temp || behind.prev == LockState::Free && behind.link_taken)
            &&& result matches Some(end) ==> {
                &&& end.outcome == LockReturn::WaitOnMutex <==> !alone && (before.link_taken
                    || before.post == LockState::Taken || free_before && prev != post
                    && behind.prev == LockState::Taken)
                &&& end.outcome == LockReturn::BackOff <==> !alone && !before.link_taken
                    && before.post == LockState::Temp
                &&& end.outcome is Success ==> end.outcome == (LockReturn::Success { post, prev })
                &&& same_but_words(slots, end.slots)
                &&& forall|i: int|
                    #![trigger end.slots[i]]
                    0 <= i < slots.len() ==> {
                        let was = slots[i].lock();
                        let now = end.slots[i].lock();
                        if end.outcome is Success {
                            &&& now.link_taken == was.link_taken
                            &&& now.post == if i == prev && !alone {
                                LockState::Temp
                            } else {
                                was.post
                            }
                            &&& now.prev == if i == post && prev != post {
                                LockState::Temp
                            } else {
                                was.prev
                            }
                        } else if i == center {
                            &&& !now.link_taken
                            &&& now.prev == LockState::Free
                            &&& now.post == LockState::Free
                        } else {
                            now == was
                        }
                    }
            }
        }),
{
    lemma_words_read_back();
    law_code_inverts_decode(slots[slots[center as int].prev as int].lock_state);
    let result = left_right_result(center, slots);
    if result is Some {
        law_left_right_is_undone(center, slots);
    }
}

/// How locking a link with its neighbours comes out, by their words. It gives up if the link
/// or a side of it is taken, and never ends while one is held for ever; if nothing of the
/// link is held, it is as with the neighbours of a held link. Success holds the whole link
/// and the sides that face it and changes nothing else; failure changes nothing. A link that
/// is its own neighbour on one side only counts as held there.
pub proof fn law_three_by_words<T>(center: usize, slots: Seq<Slot<T>>)
    requires
        readable(slots),
        center < slots.len(),
    ensures
        ({
            let prev = slots[center as int].prev;
            let post = slots[center as int].post;
            let alone = prev == center && post == center;
            let word = slots[center as int].lock();
            let before = slots[prev as int].lock();
            let behind = slots[post as int].lock();
            let result = three_result(center, slots);
            let taken = word.link_taken || word.prev == LockState::Taken || word.post
                == LockState::Taken;
            let free = !word.link_taken && word.prev == LockState::Free && word.post
                == LockState::Free;
            let free_before = prev != center && !before.link_taken && before.post
                == LockState::Free;
            let held_behind = post == center || behind.prev == LockState::Temp || behind.prev
                == LockState::Free && behind.link_taken;
            &&& result is None <==> !taken && !free || free && !alone && free_before && prev
                != post && held_behind
            &&& result matches Some(end) ==> {
                &&& end.outcome == LockReturn::WaitOnMutex <==> taken || !alone && (prev == center
                    || before.link_taken || before.post == LockState::Taken || free_before && prev
                    != post && behind.prev == LockState::Taken)
                &&& end.outcome == LockReturn::BackOff <==> !taken && !alone && !before.link_taken
                    && before.post == LockState::Temp
                &&& end.outcome is Success ==> end.outcome == (LockReturn::Success { post, prev })
                &&& !(end.outcome is Success) ==> end.slots == slots
                &&& end.outcome is Success ==> {
                    &&& same_but_words(slots, end.slots)
                    &&& forall|i: int|
                        #![trigger end.slots[i]]
                        0 <= i < slots.len() ==> {
                            let was = slots[i].lock();
                            let now = end.slots[i].lock();
                            if i == center {
                                &&& now.link_taken
                                &&& now.prev == LockState::Temp
                                &&& now.post == LockState::Temp
                            } else {
                                &&& now.link_taken == was.link_taken
                                &&& now.post == if i == prev {
                                    LockState::Temp
                                } else {
                                    was.post
                                }
                                &&& now.prev == if i == post && prev != post {
                                    LockState::Temp
                                } else {
                                    was.prev
                                }
                            }
                        }
                }
            }
        }),
{
    lemma_words_read_back();
    let word = slots[center as int].lock();
    if word == LinkLockState::free() {
        let held = set_lock(slots, center as int, LinkLockState::held());
        law_left_right_by_words(center, held);
    }
    if three_result(center, slots) is Some {
        law_three_is_undone(center, slots);
    }
}

/// How locking the `post` side of a link and the side that faces it comes out, by their
/// words: the link is backed off from and the one after it insisted on. Success locks the two
/// sides and changes nothing else; failure changes nothing.
#[verifier::rlimit(30)]
pub proof fn law_two_by_words<T>(left: usize, slots: Seq<Slot<T>>)
    requires
        readable(slots),
        left < slots.len(),
    ensures
        ({
            let right = slots[left as int].post;
            let word = slots[left as int].lock();
            let behind = slots[right as int].lock();
            let result = two_result(left, slots);
            let free = !word.link_taken && word.post == LockState::Free;
            &&& result is None <==> free && right != left && (behind.prev == LockState::Temp
                || behind.prev == LockState::Free && behind.link_taken)
            &&& result matches Some(end) ==> {
                &&& end.outcome == LockReturn::WaitOnMutex <==> word.link_taken || word.post
                    == LockState::Taken || free && right != left && behind.prev == LockState::Taken
                &&& end.outcome == LockReturn::BackOff <==> !word.link_taken && word.post
                    == LockState::Temp
                &&& end.outcome is Success ==> end.outcome == (LockReturn::Success {
                    post: right,
                    prev: left,
                })
                &&& !(end.outcome is Success) ==> end.slots == slots
                &&& end.outcome is Success ==> {
                    &&& same_but_words(slots, end.slots)
                    &&& forall|i: int|
                        #![trigger end.slots[i]]
                        0 <= i < slots.len() ==> {
                            let was = slots[i].lock();
                            let now = end.slots[i].lock();
                            &&& now.link_taken == was.link_taken
                            &&& now.post == if i == left {
                                LockState::Temp
                            } else {
                                was.post
                            }
                            &&& now.prev == if i == right && right != left {
                                LockState::Temp
                            } else {
                                was.prev
                            }
                        }
                }
            }
        }),
{
    lemma_words_read_back();
    if two_result(left, slots) is Some {
        law_two_is_undone(left, slots);
    }
}

/// Where an acquisition ends when nobody else moves is where its steps lead: a step more or
/// less makes no difference, and what is done has come to its end.
#[verifier::rlimit(30)]
pub proof fn law_settling_follows_the_steps<T>(party: Acquisition, slots: Seq<Slot<T>>)
    requires
        readable(slots),
        party.fits(slots.len() as int),
    ensures
        !(party.stage is Done) ==> party.next(slots).settled(party.effect(slots)) == party.settled(
            slots,
        ),
        party.stage matches Stage::Done { outcome } ==> party.settled(slots) == Some(
            (Settled { outcome, slots }),
        ),
{
}

} // verus!
