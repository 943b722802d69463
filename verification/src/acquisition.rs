//! Taking the locks around a link, one attempt on one lock word at a time.
//!
//! A link is taken off the ring under three locks: the link itself, the `post` side of the
//! link before it and the `prev` side of the link after it. A link is put on the ring under
//! two: the `post` side of the link it goes behind and the `prev` side of the link after
//! that one. Either way the earlier link is backed off from when somebody else holds it for
//! a moment, and the later one is insisted on, whatever the state of its far side, so that
//! neighbours that all acquire at once do not wait for each other in a circle.
//!
//! An [`Acquisition`] is where one party stands in this. Each [`Acquisition::step`] touches
//! one lock word, once, so any number of acquisitions may advance in turns on one ring.
use vstd::prelude::*;
use crate::link::Slot;
use crate::lock_state::{
    law_code_inverts_decode, law_decode_inverts_code, LinkLockState, LockState,
};

verus! {

/// How an acquisition ends.
#[derive(Copy, Clone, Debug, PartialEq, Eq, Structural)]
pub enum LockReturn {
    /// All the locks are held; the link's neighbours stay what they are until release.
    Success { post: usize, prev: usize },
    /// A link that is needed is taken: wait to be woken. Nothing is held.
    WaitOnMutex,
    /// The link before is held by somebody for a moment: try again. Nothing is held.
    BackOff,
}

/// What came of one attempt on a lock word.
#[derive(Copy, Clone, Debug, PartialEq, Eq, Structural)]
pub enum Attempt {
    /// The lock word was as expected and has been changed.
    Acquired,
    /// What is wanted is taken.
    Taken,
    /// What is wanted is held for a moment by somebody who may need us to yield.
    BackOff,
    /// The lock word was not as expected; this is what it was.
    Retry { seen: LinkLockState },
}

/// An attempt on a whole link: it must be free altogether.
pub open spec fn center_attempt(seen: LinkLockState) -> Attempt {
    if seen == LinkLockState::free() {
        Attempt::Acquired
    } else if seen.link_taken || seen.prev == LockState::Taken || seen.post == LockState::Taken {
        Attempt::Taken
    } else {
        Attempt::Retry { seen }
    }
}

/// An attempt on the `post` side of a link whose `prev` side is expected to be in state
/// `guess`.
pub open spec fn post_side_attempt(seen: LinkLockState, guess: LockState) -> Attempt {
    if seen == (LinkLockState { prev: guess, post: LockState::Free, link_taken: false }) {
        Attempt::Acquired
    } else if seen.link_taken || seen.post == LockState::Taken {
        Attempt::Taken
    } else if seen.post == LockState::Temp {
        Attempt::BackOff
    } else {
        Attempt::Retry { seen }
    }
}

/// An attempt on the `prev` side of a link whose `post` side is expected to be in state
/// `guess`.
pub open spec fn prev_side_attempt(seen: LinkLockState, guess: LockState) -> Attempt {
    if seen == (LinkLockState { prev: LockState::Free, post: guess, link_taken: false }) {
        Attempt::Acquired
    } else if seen.prev == LockState::Taken {
        Attempt::Taken
    } else {
        Attempt::Retry { seen }
    }
}

/// A lock word with the `post` side in another state.
pub open spec fn with_post_side(lock: LinkLockState, post: LockState) -> LinkLockState {
    LinkLockState { post, ..lock }
}

/// A lock word with the `prev` side in another state.
pub open spec fn with_prev_side(lock: LinkLockState, prev: LockState) -> LinkLockState {
    LinkLockState { prev, ..lock }
}

/// Replaces a word by `new` if it is `current`; says what it was, as `Ok` if it was
/// replaced and as `Err` if not.
pub fn compare_exchange(word: &mut u8, current: u8, new: u8) -> (seen: Result<u8, u8>)
    ensures
        *old(word) == current ==> seen == Ok::<u8, u8>(current) && *final(word) == new,
        *old(word) != current ==> seen == Err::<u8, u8>(*old(word)) && *final(word) == *old(word),
{
    let seen: u8 = *word;
    if seen == current {
        *word = new;
        Ok(seen)
    } else {
        Err(seen)
    }
}

impl<T> Slot<T> {
    /// Tries to take the whole link.
    pub fn attempt_center(&mut self) -> (attempt: Attempt)
        requires
            old(self).well_coded(),
        ensures
            attempt == center_attempt(old(self).lock()),
            attempt is Acquired ==> *final(self) == old(self).with_lock(LinkLockState::held()),
            !(attempt is Acquired) ==> *final(self) == *old(self),
    {
        proof {
            law_code_inverts_decode(self.lock_state);
            law_decode_inverts_code(LinkLockState::free());
        }
        match compare_exchange(
            &mut self.lock_state,
            LinkLockState::free().to_u8(),
            LinkLockState::held().to_u8(),
        ) {
            Ok(_) => Attempt::Acquired,
            Err(other_state) => {
                let state: LinkLockState = LinkLockState::from_u8(other_state);
                if state.link_taken || state.prev == LockState::Taken || state.post
                    == LockState::Taken {
                    Attempt::Taken
                } else {
                    Attempt::Retry { seen: state }
                }
            },
        }
    }

    /// Tries to take the `post` side, the `prev` side being expected in state `guess`.
    pub fn attempt_post_side(&mut self, guess: LockState) -> (attempt: Attempt)
        requires
            old(self).well_coded(),
        ensures
            attempt == post_side_attempt(old(self).lock(), guess),
            attempt is Acquired ==> *final(self) == old(self).with_lock(
                with_post_side(old(self).lock(), LockState::Temp),
            ),
            !(attempt is Acquired) ==> *final(self) == *old(self),
    {
        let expected: LinkLockState = LinkLockState {
            prev: guess,
            post: LockState::Free,
            link_taken: false,
        };
        let wanted: LinkLockState = LinkLockState {
            prev: guess,
            post: LockState::Temp,
            link_taken: false,
        };
        proof {
            law_code_inverts_decode(self.lock_state);
            law_decode_inverts_code(expected);
        }
        match compare_exchange(&mut self.lock_state, expected.to_u8(), wanted.to_u8()) {
            Ok(_) => Attempt::Acquired,
            Err(other_state) => {
                let state: LinkLockState = LinkLockState::from_u8(other_state);
                if state.link_taken || state.post == LockState::Taken {
                    Attempt::Taken
                } else if state.post == LockState::Temp {
                    Attempt::BackOff
                } else {
                    Attempt::Retry { seen: state }
                }
            },
        }
    }

    /// Tries to take the `prev` side, the `post` side being expected in state `guess`.
    pub fn attempt_prev_side(&mut self, guess: LockState) -> (attempt: Attempt)
        requires
            old(self).well_coded(),
        ensures
            attempt == prev_side_attempt(old(self).lock(), guess),
            attempt is Acquired ==> *final(self) == old(self).with_lock(
                with_prev_side(old(self).lock(), LockState::Temp),
            ),
            !(attempt is Acquired) ==> *final(self) == *old(self),
    {
        let expected: LinkLockState = LinkLockState {
            prev: LockState::Free,
            post: guess,
            link_taken: false,
        };
        let wanted: LinkLockState = LinkLockState {
            prev: LockState::Temp,
            post: guess,
            link_taken: false,
        };
        proof {
            law_code_inverts_decode(self.lock_state);
            law_decode_inverts_code(expected);
        }
        match compare_exchange(&mut self.lock_state, expected.to_u8(), wanted.to_u8()) {
            Ok(_) => Attempt::Acquired,
            Err(other_state) => {
                let state: LinkLockState = LinkLockState::from_u8(other_state);
                if state.prev == LockState::Taken {
                    Attempt::Taken
                } else {
                    Attempt::Retry { seen: state }
                }
            },
        }
    }

    /// Frees the `post` side and leaves the rest of the lock word as it is.
    pub fn release_post_side(&mut self)
        requires
            old(self).well_coded(),
        ensures
            *final(self) == old(self).with_lock(with_post_side(old(self).lock(), LockState::Free)),
    {
        let mut state: LinkLockState = LinkLockState::from_u8(self.lock_state);
        state.post = LockState::Free;
        self.lock_state = state.to_u8();
    }

    /// Frees the `prev` side and leaves the rest of the lock word as it is.
    pub fn release_prev_side(&mut self)
        requires
            old(self).well_coded(),
        ensures
            *final(self) == old(self).with_lock(with_prev_side(old(self).lock(), LockState::Free)),
    {
        let mut state: LinkLockState = LinkLockState::from_u8(self.lock_state);
        state.prev = LockState::Free;
        self.lock_state = state.to_u8();
    }
}

/// Frees a whole link.
pub fn unlock_one<T>(link: &mut Slot<T>)
    ensures
        *final(link) == old(link).with_lock(LinkLockState::free()),
{
    link.lock_state = LinkLockState::free().to_u8();
}

/// The ring with one lock word changed.
pub open spec fn set_lock<T>(slots: Seq<Slot<T>>, i: int, lock: LinkLockState) -> Seq<Slot<T>> {
    slots.update(i, slots[i].with_lock(lock))
}

/// Every place carries its own number and a lock word that can be unpacked, and has places
/// of the ring for neighbours.
pub open spec fn readable<T>(slots: Seq<Slot<T>>) -> bool {
    &&& slots.len() <= usize::MAX
    &&& forall|i: int|
        #![trigger slots[i]]
        0 <= i < slots.len() ==> {
            &&& slots[i].index == i
            &&& slots[i].well_coded()
            &&& slots[i].prev < slots.len()
            &&& slots[i].post < slots.len()
        }
}

/// What an acquisition does next.
#[derive(Copy, Clone, Debug, PartialEq, Eq, Structural)]
pub enum Stage {
    /// Try to take the link itself.
    Center,
    /// The link is held: see which places are around it.
    Ends,
    /// Try to take the `post` side of the link before, its `prev` side being expected in
    /// state `guess`.
    Prev { prev: usize, post: usize, guess: LockState },
    /// The `post` side of the link is held: see which place is after it.
    Right { prev: usize },
    /// Insist on the `prev` side of the link after, its `post` side being expected in state
    /// `guess`.
    Post { prev: usize, post: usize, guess: LockState },
    /// Give the link up again, and the link before as well if that is held.
    DropCenter { prev: usize, prev_held: bool, outcome: LockReturn },
    /// Give the link before up again.
    DropPrev { prev: usize, outcome: LockReturn },
    /// Nothing more to do, except to start over after backing off.
    Done { outcome: LockReturn },
}

/// Where one party stands in taking the locks around a link.
#[derive(Copy, Clone, Debug, PartialEq, Eq, Structural)]
pub struct Acquisition {
    /// The link to take off the ring, or the link to put another behind.
    pub center: usize,
    /// Whether the link itself is locked with its neighbours.
    pub whole: bool,
    pub stage: Stage,
}

impl Acquisition {
    /// Takes a link and the sides that face it.
    #[verifier::allow_in_spec]
    pub fn three(center: usize) -> Acquisition
        returns
            (Acquisition { center, whole: true, stage: Stage::Center }),
    {
        Acquisition { center, whole: true, stage: Stage::Center }
    }

    /// Takes the sides that face a link that is held already.
    #[verifier::allow_in_spec]
    pub fn left_right(center: usize) -> Acquisition
        returns
            (Acquisition { center, whole: true, stage: Stage::Ends }),
    {
        Acquisition { center, whole: true, stage: Stage::Ends }
    }

    /// Takes the `post` side of a link and the side that faces it.
    #[verifier::allow_in_spec]
    pub fn two(left: usize) -> Acquisition
        returns
            (Acquisition {
                center: left,
                whole: false,
                stage: Stage::Prev { prev: left, post: left, guess: LockState::Free },
            }),
    {
        Acquisition {
            center: left,
            whole: false,
            stage: Stage::Prev { prev: left, post: left, guess: LockState::Free },
        }
    }

    /// The stage fits the kind of acquisition and speaks of places on a ring of `n`.
    pub open spec fn fits(self, n: int) -> bool {
        &&& self.center < n
        &&& match self.stage {
            Stage::Center => self.whole,
            Stage::Ends => self.whole,
            Stage::Prev { prev, post, guess } => {
                &&& prev < n
                &&& post < n
                &&& !self.whole ==> prev == self.center
            },
            Stage::Right { prev } => !self.whole && prev == self.center,
            Stage::Post { prev, post, guess } => {
                &&& prev < n
                &&& post < n
                &&& prev != post
                &&& !self.whole ==> prev == self.center
            },
            Stage::DropCenter { prev, prev_held, outcome } => {
                &&& self.whole
                &&& prev < n
                &&& !(outcome is Success)
            },
            Stage::DropPrev { prev, outcome } => {
                &&& prev < n
                &&& !(outcome is Success)
                &&& !self.whole ==> prev == self.center
            },
            Stage::Done { outcome } => match outcome {
                LockReturn::Success { post, prev } => {
                    &&& prev < n
                    &&& post < n
                    &&& !self.whole ==> prev == self.center
                },
                _ => true,
            },
        }
    }

    /// The same acquisition at another stage.
    pub open spec fn at(self, stage: Stage) -> Acquisition {
        Acquisition { stage, ..self }
    }

    /// Gives up with `outcome` while the link before is not held.
    pub open spec fn fail(self, prev: usize, outcome: LockReturn) -> Acquisition {
        if self.whole {
            self.at(Stage::DropCenter { prev, prev_held: false, outcome })
        } else {
            self.at(Stage::Done { outcome })
        }
    }

    /// Where the acquisition stands after one step on the ring `slots`.
    pub open spec fn next<T>(self, slots: Seq<Slot<T>>) -> Acquisition {
        match self.stage {
            Stage::Center => match center_attempt(slots[self.center as int].lock()) {
                Attempt::Acquired => self.at(Stage::Ends),
                Attempt::Taken => self.at(Stage::Done { outcome: LockReturn::WaitOnMutex }),
                _ => self,
            },
            Stage::Ends => {
                let prev = slots[self.center as int].prev;
                let post = slots[self.center as int].post;
                if prev == post && prev == self.center {
                    self.at(Stage::Done { outcome: LockReturn::Success { post, prev } })
                } else {
                    self.at(Stage::Prev { prev, post, guess: LockState::Free })
                }
            },
            Stage::Prev { prev, post, guess } => match post_side_attempt(
                slots[prev as int].lock(),
                guess,
            ) {
                Attempt::Acquired => if !self.whole {
                    self.at(Stage::Right { prev })
                } else if prev == post {
                    self.at(Stage::Done { outcome: LockReturn::Success { post, prev } })
                } else {
                    self.at(Stage::Post { prev, post, guess: LockState::Free })
                },
                Attempt::Taken => self.fail(prev, LockReturn::WaitOnMutex),
                Attempt::BackOff => self.fail(prev, LockReturn::BackOff),
                Attempt::Retry { seen } => self.at(Stage::Prev { prev, post, guess: seen.prev }),
            },
            Stage::Right { prev } => {
                let post = slots[prev as int].post;
                if post == self.center {
                    self.at(Stage::Done { outcome: LockReturn::Success { post, prev } })
                } else {
                    self.at(Stage::Post { prev, post, guess: LockState::Free })
                }
            },
            Stage::Post { prev, post, guess } => match prev_side_attempt(
                slots[post as int].lock(),
                guess,
            ) {
                Attempt::Acquired => self.at(
                    Stage::Done { outcome: LockReturn::Success { post, prev } },
                ),
                Attempt::Taken => if self.whole {
                    self.at(
                        Stage::DropCenter {
                            prev,
                            prev_held: true,
                            outcome: LockReturn::WaitOnMutex,
                        },
                    )
                } else {
                    self.at(Stage::DropPrev { prev, outcome: LockReturn::WaitOnMutex })
                },
                Attempt::Retry { seen } => self.at(Stage::Post { prev, post, guess: seen.post }),
                Attempt::BackOff => self,
            },
            Stage::DropCenter { prev, prev_held, outcome } => if prev_held {
                self.at(Stage::DropPrev { prev, outcome })
            } else {
                self.at(Stage::Done { outcome })
            },
            Stage::DropPrev { prev, outcome } => self.at(Stage::Done { outcome }),
            Stage::Done { outcome } => if outcome is BackOff {
                if self.whole {
                    Acquisition::three(self.center)
                } else {
                    Acquisition::two(self.center)
                }
            } else {
                self
            },
        }
    }

    /// The ring after one step on the ring `slots`.
    pub open spec fn effect<T>(self, slots: Seq<Slot<T>>) -> Seq<Slot<T>> {
        match self.stage {
            Stage::Center => if center_attempt(slots[self.center as int].lock()) is Acquired {
                set_lock(slots, self.center as int, LinkLockState::held())
            } else {
                slots
            },
            Stage::Prev { prev, post, guess } => {
                let lock = slots[prev as int].lock();
                if post_side_attempt(lock, guess) is Acquired {
                    set_lock(slots, prev as int, with_post_side(lock, LockState::Temp))
                } else {
                    slots
                }
            },
            Stage::Post { prev, post, guess } => {
                let lock = slots[post as int].lock();
                if prev_side_attempt(lock, guess) is Acquired {
                    set_lock(slots, post as int, with_prev_side(lock, LockState::Temp))
                } else {
                    slots
                }
            },
            Stage::DropCenter { .. } => set_lock(
                slots,
                self.center as int,
                LinkLockState::free(),
            ),
            Stage::DropPrev { prev, .. } => set_lock(
                slots,
                prev as int,
                with_post_side(slots[prev as int].lock(), LockState::Free),
            ),
            _ => slots,
        }
    }

    /// Makes one attempt on one lock word, or one read of a link's neighbours.
    pub fn step<T>(self, links: &mut Vec<Slot<T>>) -> (acquisition: Acquisition)
        requires
            readable(old(links)@),
            self.fits(old(links)@.len() as int),
        ensures
            acquisition == self.next(old(links)@),
            final(links)@ == self.effect(old(links)@),
            readable(final(links)@),
            acquisition.fits(final(links)@.len() as int),
    {
        proof {
            lemma_effect_frame(self, links@);
            lemma_next_fits(self, links@);
        }
        let center: usize = self.center;
        let whole: bool = self.whole;
        let stage: Stage = match self.stage {
            Stage::Center => match links[center].attempt_center() {
                Attempt::Acquired => Stage::Ends,
                Attempt::Taken => Stage::Done { outcome: LockReturn::WaitOnMutex },
                _ => self.stage,
            },
            Stage::Ends => {
                let prev: usize = links[center].prev;
                let post: usize = links[center].post;
                if prev == post && prev == center {
                    Stage::Done { outcome: LockReturn::Success { post, prev } }
                } else {
                    Stage::Prev { prev, post, guess: LockState::Free }
                }
            },
            Stage::Prev { prev, post, guess } => match links[prev].attempt_post_side(guess) {
                Attempt::Acquired => if !whole {
                    Stage::Right { prev }
                } else if prev == post {
                    Stage::Done { outcome: LockReturn::Success { post, prev } }
                } else {
                    Stage::Post { prev, post, guess: LockState::Free }
                },
                Attempt::Taken => Self::failing(whole, prev, LockReturn::WaitOnMutex),
                Attempt::BackOff => Self::failing(whole, prev, LockReturn::BackOff),
                Attempt::Retry { seen } => Stage::Prev { prev, post, guess: seen.prev },
            },
            Stage::Right { prev } => {
                let post: usize = links[prev].post;
                if post == center {
                    Stage::Done { outcome: LockReturn::Success { post, prev } }
                } else {
                    Stage::Post { prev, post, guess: LockState::Free }
                }
            },
            Stage::Post { prev, post, guess } => match links[post].attempt_prev_side(guess) {
                Attempt::Acquired => Stage::Done { outcome: LockReturn::Success { post, prev } },
                Attempt::Taken => if whole {
                    Stage::DropCenter { prev, prev_held: true, outcome: LockReturn::WaitOnMutex }
                } else {
                    Stage::DropPrev { prev, outcome: LockReturn::WaitOnMutex }
                },
                Attempt::Retry { seen } => Stage::Post { prev, post, guess: seen.post },
                Attempt::BackOff => self.stage,
            },
            Stage::DropCenter { prev, prev_held, outcome } => {
                unlock_one(&mut links[center]);
                if prev_held {
                    Stage::DropPrev { prev, outcome }
                } else {
                    Stage::Done { outcome }
                }
            },
            Stage::DropPrev { prev, outcome } => {
                links[prev].release_post_side();
                Stage::Done { outcome }
            },
            Stage::Done { outcome: LockReturn::BackOff } => if whole {
                Stage::Center
            } else {
                Stage::Prev { prev: center, post: center, guess: LockState::Free }
            },
            Stage::Done { .. } => self.stage,
        };
        Acquisition { center, whole, stage }
    }

    /// The stage at which an acquisition gives up while the link before is not held.
    fn failing(whole: bool, prev: usize, outcome: LockReturn) -> (stage: Stage)
        ensures
            stage == (if whole {
                Stage::DropCenter { prev, prev_held: false, outcome }
            } else {
                Stage::Done { outcome }
            }),
    {
        if whole {
            Stage::DropCenter { prev, prev_held: false, outcome }
        } else {
            Stage::Done { outcome }
        }
    }
}

/// A step changes lock words and nothing else.
#[verifier::rlimit(30)]
pub proof fn lemma_effect_frame<T>(party: Acquisition, slots: Seq<Slot<T>>)
    requires
        readable(slots),
        party.fits(slots.len() as int),
    ensures
        readable(party.effect(slots)),
        party.effect(slots).len() == slots.len(),
        forall|i: int|
            #![trigger party.effect(slots)[i]]
            0 <= i < slots.len() ==> party.effect(slots)[i] == (Slot {
                lock_state: party.effect(slots)[i].lock_state,
                ..slots[i]
            }),
{
    let after = party.effect(slots);
    assert forall|i: int| #![trigger after[i]] 0 <= i < slots.len() implies after[i] == (Slot {
        lock_state: after[i].lock_state,
        ..slots[i]
    }) && after[i].well_coded() by {
        assert(slots[i].well_coded());
    }
}

/// After a step the stage speaks of places on the ring again.
proof fn lemma_next_fits<T>(party: Acquisition, slots: Seq<Slot<T>>)
    requires
        readable(slots),
        party.fits(slots.len() as int),
    ensures
        party.next(slots).fits(slots.len() as int),
{
    assert(slots[party.center as int].prev < slots.len());
}

/// An attempt on a whole link succeeds only if nothing of it is held or taken, fails only if
/// it is taken or one of its sides is, and is to be repeated if a side is held for a moment.
pub proof fn law_center_gives_up_only_if_taken(seen: LinkLockState)
    ensures
        center_attempt(seen) == Attempt::Acquired <==> !seen.link_taken && seen.prev
            == LockState::Free && seen.post == LockState::Free,
        center_attempt(seen) == Attempt::Taken <==> seen.link_taken || seen.prev
            == LockState::Taken || seen.post == LockState::Taken,
        !(center_attempt(seen) is BackOff),
        center_attempt(seen) matches Attempt::Retry { seen: told } ==> told == seen,
{
}

/// An attempt on the `post` side of a link comes to its end whatever is expected of the other
/// side, unless the `post` side is free: then it succeeds if the other side is as expected,
/// and tells how it is if not.
pub proof fn law_earlier_link_is_backed_off_from(seen: LinkLockState, guess: LockState)
    ensures
        post_side_attempt(seen, guess) == Attempt::Taken <==> seen.link_taken || seen.post
            == LockState::Taken,
        post_side_attempt(seen, guess) == Attempt::BackOff <==> !seen.link_taken && seen.post
            == LockState::Temp,
        post_side_attempt(seen, guess) == Attempt::Acquired <==> !seen.link_taken && seen.post
            == LockState::Free && seen.prev == guess,
        post_side_attempt(seen, guess) matches Attempt::Retry { seen: told } ==> told == seen,
        !(post_side_attempt(seen, seen.prev) is Retry),
{
}

/// An attempt on the `prev` side of a link is never backed off from. It gives up only if that
/// side is taken, and succeeds, whatever the `post` side, once that is expected to be as it
/// is, unless the link or its `prev` side is held.
pub proof fn law_later_link_is_insisted_on(seen: LinkLockState, guess: LockState)
    ensures
        prev_side_attempt(seen, guess) == Attempt::Taken <==> seen.prev == LockState::Taken,
        !(prev_side_attempt(seen, guess) is BackOff),
        prev_side_attempt(seen, guess) == Attempt::Acquired <==> !seen.link_taken && seen.prev
            == LockState::Free && seen.post == guess,
        prev_side_attempt(seen, guess) matches Attempt::Retry { seen: told } ==> told == seen,
        prev_side_attempt(seen, seen.post) is Acquired <==> !seen.link_taken && seen.prev
            == LockState::Free,
{
}

/// A step changes nothing of what an acquisition is for, at whatever stage and on whatever
/// ring.
pub proof fn law_step_keeps_purpose<T>(party: Acquisition, slots: Seq<Slot<T>>)
    ensures
        party.next(slots).center == party.center,
        party.next(slots).whole == party.whole,
{
}

/// Nothing but the lock word at `i` differs between two rings.
pub open spec fn same_but_word<T>(before: Seq<Slot<T>>, after: Seq<Slot<T>>, i: int) -> bool {
    &&& after.len() == before.len()
    &&& forall|j: int| 0 <= j < before.len() && j != i ==> #[trigger] after[j] == before[j]
    &&& after[i].post == before[i].post
    &&& after[i].prev == before[i].prev
    &&& after[i].index == before[i].index
    &&& after[i].data == before[i].data
}

/// A step on the link itself: it gives the link up only if the link or a side of it is taken,
/// takes it only if nothing of it is held, and stays where it is while a side of it is held
/// for a moment.
pub proof fn law_center_step<T>(party: Acquisition, slots: Seq<Slot<T>>)
    requires
        readable(slots),
        party.fits(slots.len() as int),
        party.stage is Center,
    ensures
        ({
            let c = party.center as int;
            let word = slots[c].lock();
            let next = party.next(slots).stage;
            let after = party.effect(slots);
            &&& (next is Done) <==> word.link_taken || word.prev == LockState::Taken || word.post
                == LockState::Taken
            &&& next is Done ==> next == (Stage::Done { outcome: LockReturn::WaitOnMutex })
            &&& (next is Ends) <==> !word.link_taken && word.prev == LockState::Free && word.post
                == LockState::Free
            &&& !(next is Done) && !(next is Ends) ==> next is Center
            &&& next is Ends ==> {
                &&& same_but_word(slots, after, c)
                &&& after[c].lock().link_taken
                &&& after[c].lock().prev == LockState::Temp
                &&& after[c].lock().post == LockState::Temp
            }
            &&& !(next is Ends) ==> after == slots
        }),
{
    law_decode_inverts_code(LinkLockState::held());
}

/// A step that looks around: the neighbours are those of the link, and a link that is its own
/// neighbour on both sides is all there is to lock.
pub proof fn law_looking_step<T>(party: Acquisition, slots: Seq<Slot<T>>)
    requires
        readable(slots),
        party.fits(slots.len() as int),
        party.stage is Ends || party.stage is Right,
    ensures
        ({
            let link = slots[party.center as int];
            let next = party.next(slots).stage;
            let alone = link.post == party.center && (party.stage is Ends ==> link.prev
                == party.center);
            &&& party.effect(slots) == slots
            &&& (next is Done) <==> alone
            &&& alone ==> next == (Stage::Done {
                outcome: LockReturn::Success { post: party.center, prev: party.center },
            })
            &&& !alone && party.stage is Ends ==> next == (Stage::Prev {
                prev: link.prev,
                post: link.post,
                guess: LockState::Free,
            })
            &&& !alone && party.stage is Right ==> next == (Stage::Post {
                prev: party.center,
                post: link.post,
                guess: LockState::Free,
            })
        }),
{
}

/// A step on the link before: it gives up if that link or its side is taken, backs off if the
/// side is held for a moment, and goes on to hold the side if it is free and the other side is
/// as expected; if the other side is not, that is how it is expected next.
pub proof fn law_earlier_link_step<T>(
    party: Acquisition,
    slots: Seq<Slot<T>>,
    prev: usize,
    post: usize,
    guess: LockState,
)
    requires
        readable(slots),
        party.fits(slots.len() as int),
        party.stage == (Stage::Prev { prev, post, guess }),
    ensures
        ({
            let word = slots[prev as int].lock();
            let next = party.next(slots).stage;
            let after = party.effect(slots);
            let given_up = |outcome: LockReturn|
                if party.whole {
                    next == (Stage::DropCenter { prev, prev_held: false, outcome })
                } else {
                    next == (Stage::Done { outcome })
                };
            let got = !word.link_taken && word.post == LockState::Free && word.prev == guess;
            &&& word.link_taken || word.post == LockState::Taken ==> given_up(
                LockReturn::WaitOnMutex,
            )
            &&& !word.link_taken && word.post == LockState::Temp ==> given_up(LockReturn::BackOff)
            &&& !word.link_taken && word.post == LockState::Free && !got ==> next
                == (Stage::Prev { prev, post, guess: word.prev })
            &&& got ==> {
                &&& same_but_word(slots, after, prev as int)
                &&& after[prev as int].lock().post == LockState::Temp
                &&& after[prev as int].lock().prev == word.prev
                &&& !after[prev as int].lock().link_taken
                &&& !party.whole ==> next == (Stage::Right { prev })
                &&& party.whole && prev == post ==> next == (Stage::Done {
                    outcome: LockReturn::Success { post, prev },
                })
                &&& party.whole && prev != post ==> next == (Stage::Post {
                    prev,
                    post,
                    guess: LockState::Free,
                })
            }
            &&& !got ==> after == slots
        }),
{
    let wanted = LinkLockState { prev: guess, post: LockState::Temp, link_taken: false };
    law_decode_inverts_code(wanted);
}

/// A step on the link after: it gives up only if the side is taken, never backs off, and
/// succeeds if neither the link nor the side is held and the other side is as expected; if
/// the other side is not, that is how it is expected next.
pub proof fn law_later_link_step<T>(
    party: Acquisition,
    slots: Seq<Slot<T>>,
    prev: usize,
    post: usize,
    guess: LockState,
)
    requires
        readable(slots),
        party.fits(slots.len() as int),
        party.stage == (Stage::Post { prev, post, guess }),
    ensures
        ({
            let word = slots[post as int].lock();
            let next = party.next(slots).stage;
            let after = party.effect(slots);
            let got = !word.link_taken && word.prev == LockState::Free && word.post == guess;
            &&& word.prev == LockState::Taken && party.whole ==> next == (Stage::DropCenter {
                prev,
                prev_held: true,
                outcome: LockReturn::WaitOnMutex,
            })
            &&& word.prev == LockState::Taken && !party.whole ==> next == (Stage::DropPrev {
                prev,
                outcome: LockReturn::WaitOnMutex,
            })
            &&& word.prev != LockState::Taken && !got ==> next == (Stage::Post {
                prev,
                post,
                guess: word.post,
            })
            &&& got ==> {
                &&& next == (Stage::Done { outcome: LockReturn::Success { post, prev } })
                &&& same_but_word(slots, after, post as int)
                &&& after[post as int].lock().prev == LockState::Temp
                &&& after[post as int].lock().post == word.post
                &&& !after[post as int].lock().link_taken
            }
            &&& !got ==> after == slots
        }),
{
    let wanted = LinkLockState { prev: LockState::Temp, post: guess, link_taken: false };
    law_decode_inverts_code(wanted);
}

/// A step of giving up frees what is held, the link first and the link before next, and no
/// more than that, and keeps the reason.
pub proof fn law_giving_up_step<T>(party: Acquisition, slots: Seq<Slot<T>>)
    requires
        readable(slots),
        party.fits(slots.len() as int),
        party.stage is DropCenter || party.stage is DropPrev,
    ensures
        ({
            let next = party.next(slots).stage;
            let after = party.effect(slots);
            &&& party.stage matches Stage::DropCenter { prev, prev_held, outcome } ==> {
                let c = party.center as int;
                &&& same_but_word(slots, after, c)
                &&& !after[c].lock().link_taken
                &&& after[c].lock().prev == LockState::Free
                &&& after[c].lock().post == LockState::Free
                &&& prev_held ==> next == (Stage::DropPrev { prev, outcome })
                &&& !prev_held ==> next == (Stage::Done { outcome })
            }
            &&& party.stage matches Stage::DropPrev { prev, outcome } ==> {
                let p = prev as int;
                &&& same_but_word(slots, after, p)
                &&& after[p].lock().post == LockState::Free
                &&& after[p].lock().prev == slots[p].lock().prev
                &&& after[p].lock().link_taken == slots[p].lock().link_taken
                &&& next == (Stage::Done { outcome })
            }
        }),
{
    law_decode_inverts_code(LinkLockState::free());
    if let Stage::DropPrev { prev, outcome } = party.stage {
        law_decode_inverts_code(with_post_side(slots[prev as int].lock(), LockState::Free));
    }
}

/// What is done stays done, except that an acquisition that backed off begins again, for the
/// same link and with nothing held.
pub proof fn law_only_backing_off_begins_again<T>(party: Acquisition, slots: Seq<Slot<T>>)
    requires
        party.stage is Done,
    ensures
        party.effect(slots) == slots,
        !(party.stage->Done_outcome is BackOff) ==> party.next(slots) == party,
        party.stage->Done_outcome is BackOff && party.whole ==> party.next(slots)
            == Acquisition::three(party.center),
        party.stage->Done_outcome is BackOff && !party.whole ==> party.next(slots)
            == Acquisition::two(party.center),
{
}

/// The link that `party` is for had `post` after it, and `prev` before it if it is locked
/// itself, on one of the first `k` rings.
pub open spec fn saw<T>(
    party: Acquisition,
    rings: Seq<Seq<Slot<T>>>,
    k: int,
    prev: usize,
    post: usize,
) -> bool {
    exists|j: int|
        #![trigger rings[j]]
        0 <= j < k && rings[j][party.center as int].post == post && (party.whole
            ==> rings[j][party.center as int].prev == prev)
}

/// The neighbours that an acquisition goes by, once it does, are those it saw.
spec fn told_by<T>(party: Acquisition, rings: Seq<Seq<Slot<T>>>, k: int) -> bool {
    match party.stage {
        Stage::Center => party.whole,
        Stage::Ends => party.whole,
        Stage::Prev { prev, post, .. } => if party.whole {
            saw(party, rings, k, prev, post)
        } else {
            prev == party.center
        },
        Stage::Right { prev } => !party.whole && prev == party.center,
        Stage::Post { prev, post, .. } => saw(party, rings, k, prev, post) && (!party.whole
            ==> prev == party.center),
        Stage::DropCenter { outcome, .. } => party.whole && !(outcome is Success),
        Stage::DropPrev { outcome, .. } => !(outcome is Success),
        Stage::Done { outcome: LockReturn::Success { post, prev } } => saw(
            party,
            rings,
            k,
            prev,
            post,
        ) && (!party.whole ==> prev == party.center),
        Stage::Done { .. } => true,
    }
}

/// However the ring changes between its steps, and however often it backs off, an acquisition
/// stays with the link it began with. If it succeeds, then with that link, and with
/// neighbours that the link had at one of the steps.
pub proof fn law_run_keeps_purpose<T>(run: Seq<Acquisition>, rings: Seq<Seq<Slot<T>>>, k: int)
    requires
        run.len() == rings.len() + 1,
        run[0] == Acquisition::three(run[0].center) || run[0] == Acquisition::two(run[0].center)
            || run[0] == Acquisition::left_right(run[0].center),
        forall|j: int|
            #![trigger rings[j]]
            0 <= j < rings.len() ==> run[j + 1] == run[j].next(rings[j]),
        0 <= k < run.len(),
    ensures
        run[k].center == run[0].center,
        run[k].whole == run[0].whole,
        run[k].stage matches Stage::Done { outcome: LockReturn::Success { post, prev } } ==> {
            &&& !run[0].whole ==> prev == run[0].center
            &&& saw(run[0], rings, k, prev, post)
        },
{
    lemma_told_by(run, rings, k);
}

proof fn lemma_told_by<T>(run: Seq<Acquisition>, rings: Seq<Seq<Slot<T>>>, k: int)
    requires
        run.len() == rings.len() + 1,
        run[0] == Acquisition::three(run[0].center) || run[0] == Acquisition::two(run[0].center)
            || run[0] == Acquisition::left_right(run[0].center),
        forall|j: int|
            #![trigger rings[j]]
            0 <= j < rings.len() ==> run[j + 1] == run[j].next(rings[j]),
        0 <= k < run.len(),
    ensures
        run[k].center == run[0].center,
        run[k].whole == run[0].whole,
        told_by(run[k], rings, k),
    decreases k,
{
    if k > 0 {
        lemma_told_by(run, rings, k - 1);
        let before = run[k - 1];
        let ring = rings[k - 1];
        assert(run[k] == before.next(ring));
        let link = ring[before.center as int];
        assert(saw(run[k], rings, k, link.prev, link.post));
        assert(!before.whole ==> saw(run[k], rings, k, before.center, link.post));
        assert forall|prev: usize, post: usize| #[trigger]
            saw(before, rings, k - 1, prev, post) implies saw(run[k], rings, k, prev, post) by {
            let j = choose|j: int|
                #![trigger rings[j]]
                0 <= j < k - 1 && rings[j][before.center as int].post == post && (before.whole
                    ==> rings[j][before.center as int].prev == prev);
            assert(rings[j][run[k].center as int].post == post);
        }
    }
}

/// Where acquisitions begin: one of three at the link itself, one of the sides around a held
/// link by looking which those are, and one of two at the `post` side of its link.
pub proof fn law_beginnings(place: usize)
    ensures
        Acquisition::three(place).center == place,
        Acquisition::three(place).whole,
        Acquisition::three(place).stage is Center,
        Acquisition::left_right(place).center == place,
        Acquisition::left_right(place).whole,
        Acquisition::left_right(place).stage is Ends,
        Acquisition::two(place).center == place,
        !Acquisition::two(place).whole,
        Acquisition::two(place).stage is Prev,
        Acquisition::two(place).stage->Prev_prev == place,
        Acquisition::two(place).stage->Prev_guess == LockState::Free,
{
}

} // verus!
