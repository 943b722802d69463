//! Any number of acquisitions on one ring, advancing in turns: no part of a link is ever
//! held by two of them.
use vstd::prelude::*;
use crate::acquisition::{readable, Acquisition, LockReturn, Stage};
use crate::link::Slot;
use crate::lock_state::{law_code_inverts_decode, LinkLockState, LockState};

verus! {

/// A part of a link that can be held by itself.
pub enum Part {
    Link,
    Prev,
    Post,
}

/// The lock word says that somebody holds this part for a moment.
pub open spec fn shows_held(lock: LinkLockState, part: Part) -> bool {
    match part {
        Part::Link => lock.link_taken,
        Part::Prev => lock.prev == LockState::Temp,
        Part::Post => lock.post == LockState::Temp,
    }
}

/// Two lock words agree on a part.
pub open spec fn same_part(a: LinkLockState, b: LinkLockState, part: Part) -> bool {
    match part {
        Part::Link => a.link_taken == b.link_taken,
        Part::Prev => a.prev == b.prev,
        Part::Post => a.post == b.post,
    }
}

impl Acquisition {
    /// The link itself is held.
    pub open spec fn holds_center(self) -> bool {
        &&& self.whole
        &&& match self.stage {
            Stage::Ends => true,
            Stage::Prev { .. } => true,
            Stage::Post { .. } => true,
            Stage::DropCenter { .. } => true,
            Stage::Done { outcome } => outcome is Success,
            _ => false,
        }
    }

    /// The `post` side of link `i` is held on account of its being the link before.
    pub open spec fn holds_as_prev(self, i: int) -> bool {
        match self.stage {
            Stage::Right { prev } => i == prev,
            Stage::Post { prev, post, guess } => i == prev,
            Stage::DropCenter { prev, prev_held, outcome } => prev_held && i == prev,
            Stage::DropPrev { prev, outcome } => i == prev,
            Stage::Done { outcome: LockReturn::Success { post, prev } } => {
                &&& i == prev
                &&& !(self.whole && prev == post && prev == self.center)
            },
            _ => false,
        }
    }

    /// The `prev` side of link `i` is held on account of its being the link after.
    pub open spec fn holds_as_post(self, i: int) -> bool {
        match self.stage {
            Stage::Done { outcome: LockReturn::Success { post, prev } } => {
                &&& i == post
                &&& prev != post
            },
            _ => false,
        }
    }

    /// What this acquisition holds.
    pub open spec fn owns(self, i: int, part: Part) -> bool {
        ||| self.holds_center() && i == self.center
        ||| part is Post && self.holds_as_prev(i)
        ||| part is Prev && self.holds_as_post(i)
    }

    /// Everything that this acquisition holds shows in the lock words, and the link is not
    /// its own neighbour.
    pub open spec fn backed<T>(self, slots: Seq<Slot<T>>) -> bool {
        &&& self.fits(slots.len() as int)
        &&& forall|i: int, part: Part| #[trigger]
            self.owns(i, part) ==> shows_held(slots[i].lock(), part)
        &&& self.whole ==> forall|i: int|
            #![trigger self.holds_as_prev(i)]
            #![trigger self.holds_as_post(i)]
            self.holds_as_prev(i) || self.holds_as_post(i) ==> i != self.center
    }
}

/// No part of any link is held by both.
pub open spec fn exclusive(a: Acquisition, b: Acquisition) -> bool {
    forall|i: int, part: Part| !(#[trigger] a.owns(i, part) && b.owns(i, part))
}

/// All acquisitions on the ring hold what they should, and no two hold the same part.
pub open spec fn all_exclusive<T>(acquisitions: Seq<Acquisition>, slots: Seq<Slot<T>>) -> bool {
    &&& forall|k: int|
        0 <= k < acquisitions.len() ==> (#[trigger] acquisitions[k]).backed(slots)
    &&& forall|j: int, k: int|
        0 <= j < acquisitions.len() && 0 <= k < acquisitions.len() && j != k ==> exclusive(
            #[trigger] acquisitions[j],
            #[trigger] acquisitions[k],
        )
}

/// A step changes no part of a link but those that the acquisition holds before or after.
pub proof fn law_step_touches_only_its_own<T>(
    acquisition: Acquisition,
    slots: Seq<Slot<T>>,
    i: int,
    part: Part,
)
    requires
        readable(slots),
        acquisition.backed(slots),
        0 <= i < slots.len(),
        !acquisition.owns(i, part),
        !acquisition.next(slots).owns(i, part),
    ensures
        same_part(slots[i].lock(), acquisition.effect(slots)[i].lock(), part),
{
    lemma_effect_on_lock(acquisition, slots, i);
    if acquisition.stage is Post {
        assert(acquisition.owns(acquisition.stage->Post_prev as int, Part::Post));
    }
}

/// The lock words after a step, read back from the bytes.
#[verifier::rlimit(30)]
pub proof fn lemma_effect_on_lock<T>(acquisition: Acquisition, slots: Seq<Slot<T>>, i: int)
    requires
        readable(slots),
        acquisition.fits(slots.len() as int),
        0 <= i < slots.len(),
    ensures
        acquisition.effect(slots).len() == slots.len(),
        ({
            let old_lock = slots[i].lock();
            let new_lock = acquisition.effect(slots)[i].lock();
            match acquisition.stage {
                Stage::Center => if i == acquisition.center && old_lock == LinkLockState::free() {
                    new_lock == LinkLockState::held()
                } else {
                    new_lock == old_lock
                },
                Stage::Prev { prev, post, guess } => if i == prev && old_lock == (LinkLockState {
                    prev: guess,
                    post: LockState::Free,
                    link_taken: false,
                }) {
                    new_lock == LinkLockState { post: LockState::Temp, ..old_lock }
                } else {
                    new_lock == old_lock
                },
                Stage::Post { prev, post, guess } => if i == post && old_lock == (LinkLockState {
                    prev: LockState::Free,
                    post: guess,
                    link_taken: false,
                }) {
                    new_lock == LinkLockState { prev: LockState::Temp, ..old_lock }
                } else {
                    new_lock == old_lock
                },
                Stage::DropCenter { .. } => new_lock == if i == acquisition.center {
                    LinkLockState::free()
                } else {
                    old_lock
                },
                Stage::DropPrev { prev, .. } => new_lock == if i == prev {
                    LinkLockState { post: LockState::Free, ..old_lock }
                } else {
                    old_lock
                },
                _ => new_lock == old_lock,
            }
        }),
{
    law_code_inverts_decode(slots[i].lock_state);
}

/// A step of one acquisition keeps what another holds, and takes nothing of it.
proof fn lemma_step_keeps_pair<T>(a: Acquisition, b: Acquisition, slots: Seq<Slot<T>>)
    requires
        readable(slots),
        a.backed(slots),
        b.backed(slots),
        exclusive(a, b),
    ensures
        a.backed(b.effect(slots)),
        exclusive(a, b.next(slots)),
{
    let after = b.effect(slots);
    let b2 = b.next(slots);
    lemma_effect_on_lock(b, slots, b.center as int);
    assert forall|i: int, part: Part| #[trigger] a.owns(i, part) implies shows_held(
        after[i].lock(),
        part,
    ) && !b2.owns(i, part) by {
        assert(0 <= i < slots.len());
        lemma_effect_on_lock(b, slots, i);
        assert(!b.owns(i, part));
        assert(shows_held(slots[i].lock(), part));
    }
}

/// A step of an acquisition leaves it holding what it should.
#[verifier::rlimit(30)]
proof fn lemma_step_keeps_self<T>(b: Acquisition, slots: Seq<Slot<T>>)
    requires
        readable(slots),
        b.backed(slots),
    ensures
        b.next(slots).backed(b.effect(slots)),
{
    let after = b.effect(slots);
    let b2 = b.next(slots);
    lemma_effect_on_lock(b, slots, b.center as int);
    assert(b.holds_center() ==> b.owns(b.center as int, Part::Post));
    assert(b.holds_center() ==> b.owns(b.center as int, Part::Link));
    assert forall|i: int, part: Part| #[trigger] b2.owns(i, part) implies shows_held(
        after[i].lock(),
        part,
    ) by {
        assert(0 <= i < slots.len());
        lemma_effect_on_lock(b, slots, i);
        if b.owns(i, part) {
            assert(shows_held(slots[i].lock(), part));
        }
    }
    assert forall|i: int| (b2.whole && (b2.holds_as_prev(i) || b2.holds_as_post(i))) implies i
        != b2.center by {
        if 0 <= i < slots.len() {
            lemma_effect_on_lock(b, slots, i);
        }
        assert(b.holds_as_prev(i) || b.holds_as_post(i) ==> i != b.center);
    }
}

/// Mutual exclusion: whichever of the acquisitions on a ring steps next, no part of a link
/// comes to be held by two of them, and none loses what it holds.
pub proof fn law_step_keeps_exclusion<T>(
    acquisitions: Seq<Acquisition>,
    slots: Seq<Slot<T>>,
    k: int,
)
    requires
        readable(slots),
        all_exclusive(acquisitions, slots),
        0 <= k < acquisitions.len(),
    ensures
        all_exclusive(
            acquisitions.update(k, acquisitions[k].next(slots)),
            acquisitions[k].effect(slots),
        ),
{
    let after = acquisitions[k].effect(slots);
    let stepped = acquisitions.update(k, acquisitions[k].next(slots));
    assert forall|j: int| 0 <= j < stepped.len() implies (#[trigger] stepped[j]).backed(after) by {
        if j == k {
            lemma_step_keeps_self(acquisitions[k], slots);
        } else {
            lemma_step_keeps_pair(acquisitions[j], acquisitions[k], slots);
        }
    }
    assert forall|i: int, j: int|
        0 <= i < stepped.len() && 0 <= j < stepped.len() && i != j implies exclusive(
        #[trigger] stepped[i],
        #[trigger] stepped[j],
    ) by {
        if i == k {
            lemma_step_keeps_pair(acquisitions[j], acquisitions[k], slots);
        } else if j == k {
            lemma_step_keeps_pair(acquisitions[i], acquisitions[k], slots);
        }
    }
}

/// Acquisitions that begin with nothing held exclude each other.
pub proof fn law_fresh_acquisitions_are_exclusive<T>(
    acquisitions: Seq<Acquisition>,
    slots: Seq<Slot<T>>,
)
    requires
        forall|k: int|
            #![trigger acquisitions[k]]
            0 <= k < acquisitions.len() ==> acquisitions[k].center < slots.len() && (
            acquisitions[k] == Acquisition::three(acquisitions[k].center) || acquisitions[k]
                == Acquisition::two(acquisitions[k].center)),
    ensures
        all_exclusive(acquisitions, slots),
{
}

/// An acquisition that failed holds nothing.
pub proof fn law_failure_holds_nothing(acquisition: Acquisition, i: int, part: Part)
    requires
        acquisition.stage == (Stage::Done { outcome: LockReturn::WaitOnMutex })
            || acquisition.stage == (Stage::Done { outcome: LockReturn::BackOff }),
    ensures
        !acquisition.owns(i, part),
{
}

/// An acquisition that succeeded holds the sides that face the link, and the link itself if
/// that was to be locked, and they show as held, until its holder gives them up.
pub proof fn law_success_holds_both_sides<T>(
    acquisition: Acquisition,
    slots: Seq<Slot<T>>,
    prev: usize,
    post: usize,
)
    requires
        acquisition.backed(slots),
        acquisition.stage == (Stage::Done { outcome: LockReturn::Success { post, prev } }),
    ensures
        acquisition.whole ==> slots[acquisition.center as int].lock() == LinkLockState::held(),
        acquisition.whole && (prev != post || prev != acquisition.center)
            ==> slots[prev as int].lock().post == LockState::Temp,
        !acquisition.whole ==> slots[prev as int].lock().post == LockState::Temp,
        prev != post ==> slots[post as int].lock().prev == LockState::Temp,
{
    let c = acquisition.center as int;
    assert(acquisition.whole ==> acquisition.owns(c, Part::Link));
    assert(acquisition.whole ==> acquisition.owns(c, Part::Prev));
    assert(acquisition.whole ==> acquisition.owns(c, Part::Post));
    assert(acquisition.holds_as_prev(prev as int) ==> acquisition.owns(prev as int, Part::Post));
    assert(acquisition.holds_as_post(post as int) ==> acquisition.owns(post as int, Part::Prev));
}

/// Whoever changes only parts that one acquisition holds takes nothing from another that
/// excludes it.
pub proof fn law_release_keeps_others<T>(
    a: Acquisition,
    b: Acquisition,
    before: Seq<Slot<T>>,
    after: Seq<Slot<T>>,
)
    requires
        a.backed(before),
        exclusive(a, b),
        after.len() == before.len(),
        forall|i: int, part: Part|
            0 <= i < before.len() && !#[trigger] b.owns(i, part) ==> same_part(
                before[i].lock(),
                after[i].lock(),
                part,
            ),
    ensures
        a.backed(after),
{
    assert forall|i: int, part: Part| #[trigger] a.owns(i, part) implies shows_held(
        after[i].lock(),
        part,
    ) by {
        assert(0 <= i < before.len());
        assert(!b.owns(i, part));
    }
}

} // verus!
