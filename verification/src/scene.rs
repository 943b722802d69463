//! A ring on which any number of parties acquire locks, take links off and put links on, in
//! turns. Whatever the turns, the links stay one circle, no part of a link is held by two
//! parties, and once nobody holds anything the ring is at rest.
//!
//! An attempt on a lock word is one step. Taking a link off and putting one on count as one
//! step each, though they write several cells. The pointers and the value that they write are
//! under the party's locks. The neighbours' lock words are not the party's alone: others may
//! read them meanwhile, and change their far sides. A link that is put on is unlocked before
//! its neighbours point at it; a party that gets hold of it so early meets a side of a
//! neighbour that is still held, and backs off or waits until the pointers are written. That
//! the finer steps come to the same as one is not proved here.
use vstd::prelude::*;
use crate::acquisition::{
    lemma_effect_frame, readable, set_lock, Acquisition, LockReturn, Stage,
};
use crate::exclusion::{
    all_exclusive, exclusive, law_step_keeps_exclusion, lemma_effect_on_lock, same_part,
    shows_held, Part,
};
use crate::link::Slot;
use crate::lock_state::{
    law_code_inverts_decode, law_decode_inverts_code, LinkLockState, LockState,
};
use crate::locking::{ends_unlocked, pair_unlocked};
use crate::relink::{emptied, put_after, taken_off};
use crate::ring::{
    in_order, is_linked, is_ring, lemma_put_after, lemma_ring_readable, lemma_taken_off, succ,
};

verus! {

/// A ring and the parties that are at work on it.
pub struct Scene<T> {
    pub slots: Seq<Slot<T>>,
    pub order: Seq<usize>,
    pub parties: Seq<Acquisition>,
}

/// What a party that holds a link, or its `post` side, knows of its neighbours is so.
pub open spec fn informed<T>(party: Acquisition, slots: Seq<Slot<T>>) -> bool {
    let center = slots[party.center as int];
    match party.stage {
        Stage::Prev { prev, post, .. } => party.whole ==> prev == center.prev && post
            == center.post,
        Stage::Post { prev, post, .. } => {
            &&& post == center.post
            &&& party.whole ==> prev == center.prev
        },
        Stage::Done { outcome: LockReturn::Success { post, prev } } => {
            &&& post == center.post
            &&& party.whole ==> prev == center.prev
        },
        _ => true,
    }
}

/// A party that has not begun.
pub open spec fn fresh(party: Acquisition) -> bool {
    ||| party == Acquisition::three(party.center)
    ||| party == Acquisition::two(party.center)
}

/// A party waits for something that only another party's move can give it.
#[verifier::opaque]
pub open spec fn stuck<T>(party: Acquisition, slots: Seq<Slot<T>>) -> bool {
    party.next(slots) == party
}

/// The party is at work and does not wait.
pub open spec fn moves<T>(party: Acquisition, slots: Seq<Slot<T>>) -> bool {
    !(party.stage is Done) && !stuck(party, slots)
}

/// The party is at work, or it backed off and is to start over.
pub open spec fn unfinished(party: Acquisition) -> bool {
    party.stage matches Stage::Done { outcome } ==> outcome is BackOff
}

impl<T> Scene<T> {
    /// Some party holds this part.
    pub open spec fn owned(self, i: int, part: Part) -> bool {
        exists|k: int| 0 <= k < self.parties.len() && (#[trigger] self.parties[k]).owns(i, part)
    }

    /// Whatever shows as held on the circle is held by some party.
    pub open spec fn accounted(self) -> bool {
        forall|i: int|
            #![trigger self.slots[i]]
            0 <= i < self.slots.len() && self.order.contains(i as usize) ==> {
                let lock = self.slots[i].lock();
                &&& lock.prev != LockState::Taken
                &&& lock.post != LockState::Taken
                &&& lock.prev == LockState::Temp ==> self.owned(i, Part::Prev)
                &&& lock.post == LockState::Temp ==> self.owned(i, Part::Post)
                &&& lock.link_taken ==> self.owned(i, Part::Link)
            }
    }

    /// The links are one circle, all parties hold what they should and exclude each other,
    /// and nothing else is locked.
    pub open spec fn orderly(self) -> bool {
        &&& is_linked(self.slots, self.order)
        &&& readable(self.slots)
        &&& all_exclusive(self.parties, self.slots)
        &&& self.accounted()
        &&& forall|k: int|
            0 <= k < self.parties.len() ==> informed(#[trigger] self.parties[k], self.slots)
    }

    /// Another party comes.
    pub open spec fn joined_by(self, party: Acquisition) -> Scene<T> {
        Scene { parties: self.parties.push(party), ..self }
    }

    /// A party makes a step.
    pub open spec fn stepped(self, k: int) -> Scene<T> {
        Scene {
            slots: self.parties[k].effect(self.slots),
            parties: self.parties.update(k, self.parties[k].next(self.slots)),
            ..self
        }
    }

    /// A party that holds nothing goes.
    pub open spec fn left_by(self, k: int) -> Scene<T> {
        Scene { parties: self.parties.remove(k), ..self }
    }

    /// A party that holds a link and the sides that face it takes the link off the ring,
    /// unlocks its neighbours and goes: the whole of `remove_unchecked`, as one step.
    pub open spec fn removed_by(self, k: int) -> Scene<T> {
        let center = self.parties[k].center;
        Scene {
            slots: taken_off(center, ends_unlocked(center, self.slots)),
            order: self.order.remove(self.order.index_of(center)),
            parties: self.parties.remove(k),
        }
    }

    /// A party that holds the `post` side of a link and the side that faces it puts a value
    /// into an empty place between the two, unlocks both and goes: the whole of
    /// `insert_unchecked`, as one step.
    pub open spec fn inserted_by(self, k: int, place: usize, value: T) -> Scene<T> {
        let left = self.parties[k].center;
        Scene {
            slots: put_after(left, place, value, pair_unlocked(left, self.slots)),
            order: self.order.insert(self.order.index_of(left) + 1, place),
            parties: self.parties.remove(k),
        }
    }

    /// A party that holds no more than a link lets it be and goes.
    pub open spec fn let_be(self, k: int) -> Scene<T> {
        Scene {
            slots: set_lock(
                self.slots,
                self.parties[k].center as int,
                LinkLockState::free(),
            ),
            parties: self.parties.remove(k),
            ..self
        }
    }
}

/// A place that is not on the circle has the lock word of a link that is handed out.
proof fn lemma_off_circle<T>(slots: Seq<Slot<T>>, order: Seq<usize>, i: int)
    requires
        is_linked(slots, order),
        0 <= i < slots.len(),
        !order.contains(i as usize),
    ensures
        slots[i].lock() == LinkLockState::gone(),
{
    law_decode_inverts_code(LinkLockState::gone());
    assert(slots[i] == emptied::<T>(i as usize));
}

/// Changing lock words on the circle keeps the circle.
proof fn lemma_relocked<T>(before: Seq<Slot<T>>, after: Seq<Slot<T>>, order: Seq<usize>)
    requires
        is_linked(before, order),
        after.len() == before.len(),
        forall|i: int|
            #![trigger after[i]]
            0 <= i < before.len() ==> after[i] == (Slot {
                lock_state: after[i].lock_state,
                ..before[i]
            }),
        forall|i: int|
            0 <= i < before.len() && !order.contains(i as usize) ==> #[trigger] after[i]
                == before[i],
    ensures
        is_linked(after, order),
{
    assert forall|k: int| 0 <= k < order.len() implies #[trigger] in_order(after, order, k) by {
        assert(in_order(before, order, k));
        assert(after[order[k] as int].post == before[order[k] as int].post);
    }
    assert forall|i: int| 0 <= i < after.len() && !order.contains(i as usize) implies #[trigger]
    after[i] == emptied::<T>(i as usize) by {
        assert(before[i] == emptied::<T>(i as usize));
    }
}

/// A step changes lock words on the circle only.
proof fn lemma_step_relocks<T>(party: Acquisition, slots: Seq<Slot<T>>, order: Seq<usize>)
    requires
        is_linked(slots, order),
        readable(slots),
        party.backed(slots),
    ensures
        is_linked(party.effect(slots), order),
        readable(party.effect(slots)),
        forall|i: int|
            #![trigger party.effect(slots)[i]]
            0 <= i < slots.len() ==> party.effect(slots)[i] == (Slot {
                lock_state: party.effect(slots)[i].lock_state,
                ..slots[i]
            }),
{
    let after = party.effect(slots);
    lemma_effect_frame(party, slots);
    assert forall|i: int| 0 <= i < slots.len() && !order.contains(i as usize) implies #[trigger]
    after[i] == slots[i] by {
        lemma_off_circle(slots, order, i);
        assert(!party.owns(i, Part::Prev)) by {
            assert(party.owns(i, Part::Prev) ==> shows_held(slots[i].lock(), Part::Prev));
        }
        assert(!party.owns(i, Part::Post)) by {
            assert(party.owns(i, Part::Post) ==> shows_held(slots[i].lock(), Part::Post));
        }
    }
    lemma_relocked(slots, after, order);
}

/// A ring at rest without any party is an orderly scene.
pub proof fn law_rest_is_orderly<T>(slots: Seq<Slot<T>>, order: Seq<usize>)
    requires
        is_ring(slots, order),
    ensures
        (Scene { slots, order, parties: Seq::empty() }).orderly(),
{
    lemma_ring_readable(slots, order);
}

/// When no party is left on an orderly scene, the ring is at rest.
pub proof fn law_nobody_left_is_rest<T>(scene: Scene<T>)
    requires
        scene.orderly(),
        scene.parties.len() == 0,
    ensures
        is_ring(scene.slots, scene.order),
{
    assert forall|i: int|
        0 <= i < scene.slots.len() && scene.order.contains(i as usize) implies (
    #[trigger] scene.slots[i]).lock_state == LinkLockState::free().code() by {
        law_code_inverts_decode(scene.slots[i].lock_state);
        assert(scene.slots[i].lock() == LinkLockState::free());
    }
}

/// A party that has not begun may come at any time.
pub proof fn law_joining_keeps_order<T>(scene: Scene<T>, party: Acquisition)
    requires
        scene.orderly(),
        fresh(party),
        party.center < scene.slots.len(),
    ensures
        scene.joined_by(party).orderly(),
{
    let after = scene.joined_by(party);
    assert forall|i: int, part: Part| scene.owned(i, part) implies #[trigger] after.owned(
        i,
        part,
    ) by {
        let k = choose|k: int|
            0 <= k < scene.parties.len() && (#[trigger] scene.parties[k]).owns(i, part);
        assert(after.parties[k].owns(i, part));
    }
}

/// Whichever party makes the next step, the scene stays orderly.
pub proof fn law_stepping_keeps_order<T>(scene: Scene<T>, k: int)
    requires
        scene.orderly(),
        0 <= k < scene.parties.len(),
    ensures
        scene.stepped(k).orderly(),
{
    let after = scene.stepped(k);
    let party = scene.parties[k];
    law_step_keeps_exclusion(scene.parties, scene.slots, k);
    lemma_step_relocks(party, scene.slots, scene.order);
    assert forall|i: int|
        #![trigger after.slots[i]]
        0 <= i < after.slots.len() && after.order.contains(i as usize) implies {
        let lock = after.slots[i].lock();
        &&& lock.prev != LockState::Taken
        &&& lock.post != LockState::Taken
        &&& lock.prev == LockState::Temp ==> after.owned(i, Part::Prev)
        &&& lock.post == LockState::Temp ==> after.owned(i, Part::Post)
        &&& lock.link_taken ==> after.owned(i, Part::Link)
    } by {
        lemma_effect_on_lock(party, scene.slots, i);
        lemma_still_owned(scene, k, i, Part::Prev);
        lemma_still_owned(scene, k, i, Part::Post);
        lemma_still_owned(scene, k, i, Part::Link);
    }
    assert forall|j: int| 0 <= j < after.parties.len() implies informed(
        #[trigger] after.parties[j],
        after.slots,
    ) by {
        assert(informed(scene.parties[j], scene.slots));
    }
}

/// A part that shows as held after a step of party `k` is held by somebody then.
proof fn lemma_still_owned<T>(scene: Scene<T>, k: int, i: int, part: Part)
    requires
        scene.orderly(),
        0 <= k < scene.parties.len(),
        0 <= i < scene.slots.len(),
        scene.order.contains(i as usize),
    ensures
        shows_held(scene.parties[k].effect(scene.slots)[i].lock(), part) ==> scene.stepped(
            k,
        ).owned(i, part),
{
    let after = scene.stepped(k);
    let party = scene.parties[k];
    lemma_effect_on_lock(party, scene.slots, i);
    if !shows_held(after.slots[i].lock(), part) {
    } else if shows_held(scene.slots[i].lock(), part) {
        let j = choose|j: int|
            0 <= j < scene.parties.len() && (#[trigger] scene.parties[j]).owns(i, part);
        assert(after.parties[j].owns(i, part));
    } else {
        if party.stage is Post {
            assert(party.owns(party.stage->Post_prev as int, Part::Post));
        }
        assert(after.parties[k].owns(i, part));
    }
}

/// A party that frees all it holds, and changes nothing that another party holds or knows,
/// may go.
proof fn lemma_departure<T>(scene: Scene<T>, k: int, slots: Seq<Slot<T>>, order: Seq<usize>)
    requires
        scene.orderly(),
        0 <= k < scene.parties.len(),
        is_linked(slots, order),
        readable(slots),
        slots.len() == scene.slots.len(),
        forall|j: int, i: int, part: Part|
            0 <= j < scene.parties.len() && j != k && (#[trigger] scene.parties[j].owns(i, part))
                ==> same_part(scene.slots[i].lock(), slots[i].lock(), part),
        forall|i: int|
            #![trigger slots[i]]
            0 <= i < slots.len() && order.contains(i as usize) ==> {
                let old_lock = scene.slots[i].lock();
                let lock = slots[i].lock();
                ||| lock == LinkLockState::free()
                ||| {
                    &&& scene.order.contains(i as usize)
                    &&& lock.prev != LockState::Taken
                    &&& lock.post != LockState::Taken
                    &&& shows_held(lock, Part::Prev) ==> shows_held(old_lock, Part::Prev)
                        && !scene.parties[k].owns(i, Part::Prev)
                    &&& shows_held(lock, Part::Post) ==> shows_held(old_lock, Part::Post)
                        && !scene.parties[k].owns(i, Part::Post)
                    &&& shows_held(lock, Part::Link) ==> shows_held(old_lock, Part::Link)
                        && !scene.parties[k].owns(i, Part::Link)
                }
            },
        forall|j: int|
            0 <= j < scene.parties.len() && j != k ==> informed(
                #[trigger] scene.parties[j],
                slots,
            ),
    ensures
        (Scene { slots, order, parties: scene.parties.remove(k) }).orderly(),
{
    let after = Scene { slots, order, parties: scene.parties.remove(k) };
    assert forall|j: int| 0 <= j < after.parties.len() implies (
    #[trigger] after.parties[j]).backed(slots) && informed(after.parties[j], slots) by {
        let j0 = if j < k {
            j
        } else {
            j + 1
        };
        let party = scene.parties[j0];
        assert(party == after.parties[j]);
        assert(party.backed(scene.slots));
        assert forall|i: int, part: Part| #[trigger] party.owns(i, part) implies shows_held(
            slots[i].lock(),
            part,
        ) by {
            assert(shows_held(scene.slots[i].lock(), part));
        }
    }
    assert forall|a: int, b: int|
        0 <= a < after.parties.len() && 0 <= b < after.parties.len() && a != b implies exclusive(
        #[trigger] after.parties[a],
        #[trigger] after.parties[b],
    ) by {
        let a0 = if a < k {
            a
        } else {
            a + 1
        };
        let b0 = if b < k {
            b
        } else {
            b + 1
        };
        assert(exclusive(scene.parties[a0], scene.parties[b0]));
    }
    assert forall|i: int, part: Part|
        scene.owned(i, part) && !scene.parties[k].owns(i, part) implies #[trigger] after.owned(
        i,
        part,
    ) by {
        let j = choose|j: int|
            0 <= j < scene.parties.len() && (#[trigger] scene.parties[j]).owns(i, part);
        let j1 = if j < k {
            j
        } else {
            j - 1
        };
        assert(after.parties[j1].owns(i, part));
    }
    assert forall|i: int|
        #![trigger after.slots[i]]
        0 <= i < after.slots.len() && after.order.contains(i as usize) implies {
        let lock = after.slots[i].lock();
        &&& lock.prev != LockState::Taken
        &&& lock.post != LockState::Taken
        &&& lock.prev == LockState::Temp ==> after.owned(i, Part::Prev)
        &&& lock.post == LockState::Temp ==> after.owned(i, Part::Post)
        &&& lock.link_taken ==> after.owned(i, Part::Link)
    } by {
        let old_lock = scene.slots[i].lock();
        let lock = slots[i].lock();
        if lock != LinkLockState::free() {
            assert(old_lock.prev == LockState::Temp ==> scene.owned(i, Part::Prev));
        }
    }
}

/// A party that holds nothing may go.
pub proof fn law_leaving_keeps_order<T>(scene: Scene<T>, k: int)
    requires
        scene.orderly(),
        0 <= k < scene.parties.len(),
        forall|i: int, part: Part| !(#[trigger] scene.parties[k].owns(i, part)),
    ensures
        scene.left_by(k).orderly(),
{
    lemma_departure(scene, k, scene.slots, scene.order);
}

/// A party that holds a link only may free it and go.
pub proof fn law_letting_be_keeps_order<T>(scene: Scene<T>, k: int)
    requires
        scene.orderly(),
        0 <= k < scene.parties.len(),
        scene.parties[k].stage is Ends,
    ensures
        scene.let_be(k).orderly(),
{
    let party = scene.parties[k];
    let c = party.center as int;
    let after = scene.let_be(k).slots;
    law_decode_inverts_code(LinkLockState::free());
    assert(party.owns(c, Part::Prev) && party.owns(c, Part::Post) && party.owns(c, Part::Link));
    assert(shows_held(scene.slots[c].lock(), Part::Prev));
    assert(scene.order.contains(c as usize)) by {
        if !scene.order.contains(c as usize) {
            lemma_off_circle(scene.slots, scene.order, c);
        }
    }
    lemma_relocked(scene.slots, after, scene.order);
    assert forall|j: int, i: int, part: Part|
        0 <= j < scene.parties.len() && j != k && (#[trigger] scene.parties[j].owns(
            i,
            part,
        )) implies same_part(scene.slots[i].lock(), after[i].lock(), part) by {
        assert(exclusive(scene.parties[j], party));
        assert(party.owns(c, part));
    }
    assert forall|j: int| 0 <= j < scene.parties.len() && j != k implies informed(
        #[trigger] scene.parties[j],
        after,
    ) by {
        assert(informed(scene.parties[j], scene.slots));
    }
    lemma_departure(scene, k, after, scene.order);
}

/// A place that a party holds is on the circle.
proof fn lemma_held_on_circle<T>(scene: Scene<T>, k: int, i: int, part: Part)
    requires
        scene.orderly(),
        0 <= k < scene.parties.len(),
        scene.parties[k].owns(i, part),
        !(part is Link),
    ensures
        0 <= i < scene.slots.len(),
        scene.order.contains(i as usize),
{
    assert(scene.parties[k].backed(scene.slots));
    assert(shows_held(scene.slots[i].lock(), part));
    if !scene.order.contains(i as usize) {
        lemma_off_circle(scene.slots, scene.order, i);
    }
}

/// What one place is like after the link `center` is off the ring and the sides that faced
/// it are freed.
proof fn lemma_removed_place<T>(center: usize, slots: Seq<Slot<T>>, i: int)
    requires
        readable(slots),
        center < slots.len(),
        slots[center as int].prev == center <==> slots[center as int].post == center,
        0 <= i < slots.len(),
    ensures
        ({
            let prev = slots[center as int].prev as int;
            let post = slots[center as int].post as int;
            let alone = prev == post && prev == center;
            let after = taken_off(center, ends_unlocked(center, slots));
            let lock = slots[i].lock();
            &&& after.len() == slots.len()
            &&& after[i].index == i
            &&& after[i].well_coded()
            &&& after[i].prev < slots.len()
            &&& after[i].post < slots.len()
            &&& after[i].lock() == if i == center {
                LinkLockState::gone()
            } else {
                LinkLockState {
                    prev: if i == post && prev != post {
                        LockState::Free
                    } else {
                        lock.prev
                    },
                    post: if i == prev && !alone {
                        LockState::Free
                    } else {
                        lock.post
                    },
                    link_taken: lock.link_taken,
                }
            }
            &&& i != center && i != prev ==> after[i].post == slots[i].post
            &&& i != center && i != post ==> after[i].prev == slots[i].prev
        }),
{
    law_decode_inverts_code(LinkLockState::gone());
    assert(slots[i].well_coded());
    assert(slots[center as int].well_coded());
    law_code_inverts_decode(slots[i].lock_state);
}

/// A party that holds a link and the sides that face it may take the link off the ring: the
/// rest stays one circle, and what other parties hold and know stays so.
#[verifier::rlimit(40)]
#[verifier::spinoff_prover]
pub proof fn law_removal_keeps_order<T>(scene: Scene<T>, k: int)
    requires
        scene.orderly(),
        0 <= k < scene.parties.len(),
        scene.parties[k].whole,
        scene.parties[k].stage matches Stage::Done { outcome } && outcome is Success,
    ensures
        scene.removed_by(k).orderly(),
{
    let party = scene.parties[k];
    let center = party.center;
    let c = center as int;
    let p = scene.slots[c].prev as int;
    let q = scene.slots[c].post as int;
    let alone = p == q && p == c;
    let freed = ends_unlocked(center, scene.slots);
    let after = scene.removed_by(k).slots;
    let order = scene.removed_by(k).order;
    assert(informed(party, scene.slots));
    assert(party.owns(c, Part::Prev) && party.owns(c, Part::Post) && party.owns(c, Part::Link));
    lemma_held_on_circle(scene, k, c, Part::Prev);
    if !alone {
        assert(party.owns(p, Part::Post));
        lemma_held_on_circle(scene, k, p, Part::Post);
        if p != q {
            assert(party.owns(q, Part::Prev));
            lemma_held_on_circle(scene, k, q, Part::Prev);
        }
    }
    lemma_relocked(scene.slots, freed, scene.order);
    let pos = scene.order.index_of(center);
    assert(in_order(scene.slots, scene.order, pos));
    lemma_taken_off(freed, scene.order, pos);
    assert forall|i: int| #![trigger after[i]] 0 <= i < after.len() implies {
        &&& after[i].index == i
        &&& after[i].well_coded()
        &&& after[i].prev < after.len()
        &&& after[i].post < after.len()
    } by {
        lemma_removed_place(center, scene.slots, i);
    }
    assert forall|j: int, i: int, part: Part|
        0 <= j < scene.parties.len() && j != k && (#[trigger] scene.parties[j].owns(
            i,
            part,
        )) implies same_part(scene.slots[i].lock(), after[i].lock(), part) by {
        assert(exclusive(scene.parties[j], party));
        assert(scene.parties[j].backed(scene.slots));
        assert(!party.owns(i, part));
        lemma_removed_place(center, scene.slots, i);
    }
    assert forall|i: int|
        #![trigger after[i]]
        0 <= i < after.len() && order.contains(i as usize) implies {
        let old_lock = scene.slots[i].lock();
        let lock = after[i].lock();
        &&& scene.order.contains(i as usize)
        &&& lock.prev != LockState::Taken
        &&& lock.post != LockState::Taken
        &&& shows_held(lock, Part::Prev) ==> shows_held(old_lock, Part::Prev) && !party.owns(
            i,
            Part::Prev,
        )
        &&& shows_held(lock, Part::Post) ==> shows_held(old_lock, Part::Post) && !party.owns(
            i,
            Part::Post,
        )
        &&& shows_held(lock, Part::Link) ==> shows_held(old_lock, Part::Link) && !party.owns(
            i,
            Part::Link,
        )
    } by {
        let j = order.index_of(i as usize);
        assert(order[j] == i);
        assert(scene.order[if j < pos {
            j
        } else {
            j + 1
        }] == i);
        assert(i != c);
        assert(scene.order.contains(i as usize));
        lemma_removed_place(center, scene.slots, i);
    }
    assert forall|j: int| 0 <= j < scene.parties.len() && j != k implies informed(
        #[trigger] scene.parties[j],
        after,
    ) by {
        let other = scene.parties[j];
        assert(informed(other, scene.slots));
        assert(exclusive(other, party));
        let o = other.center as int;
        lemma_removed_place(center, scene.slots, o);
        assert(other.owns(o, Part::Post) ==> !party.owns(o, Part::Post));
        assert(other.owns(o, Part::Prev) ==> !party.owns(o, Part::Prev));
    }
    lemma_departure(scene, k, after, order);
}

/// When a party takes its link off, the link after it is still on the circle, if any is, and
/// is not a link that another party holds. So a party that holds a link that is not first in
/// line may take it off without minding who takes the first: its own link does not come to
/// be first meanwhile.
pub proof fn law_next_in_line_is_not_held<T>(scene: Scene<T>, k: int, j: int)
    requires
        scene.orderly(),
        0 <= k < scene.parties.len(),
        scene.parties[k].whole,
        scene.parties[k].stage matches Stage::Done { outcome } && outcome is Success,
        0 <= j < scene.parties.len(),
        j != k,
        scene.parties[j].holds_center(),
    ensures
        ({
            let next = scene.slots[scene.parties[k].center as int].post;
            &&& scene.removed_by(k).order.len() > 0 ==> scene.removed_by(k).order.contains(next)
            &&& next != scene.parties[j].center
        }),
{
    let party = scene.parties[k];
    let other = scene.parties[j];
    let c = party.center as int;
    let q = scene.slots[c].post as int;
    assert(informed(party, scene.slots));
    assert(exclusive(party, other));
    assert(party.owns(c, Part::Post));
    lemma_held_on_circle(scene, k, c, Part::Post);
    let n = scene.order.len() as int;
    let pos = scene.order.index_of(c as usize);
    assert(in_order(scene.slots, scene.order, pos));
    let rest = scene.removed_by(k).order;
    if rest.len() > 0 {
        if pos + 1 == n {
            assert(rest[0] == q);
        } else {
            assert(rest[pos] == q);
        }
    }
    if q == other.center {
        assert(other.owns(q, Part::Prev) && other.owns(q, Part::Post));
        assert(party.owns(q, Part::Prev) || party.owns(q, Part::Post));
    }
}

/// Taking off a link that is not first in line leaves the first on the circle.
pub proof fn law_removal_out_of_line_keeps_first<T>(scene: Scene<T>, k: int, first: usize)
    requires
        scene.orderly(),
        0 <= k < scene.parties.len(),
        scene.parties[k].holds_center(),
        scene.order.contains(first),
        scene.parties[k].center != first,
    ensures
        scene.removed_by(k).order.contains(first),
{
    let c = scene.parties[k].center;
    assert(scene.parties[k].owns(c as int, Part::Post));
    lemma_held_on_circle(scene, k, c as int, Part::Post);
    let pos = scene.order.index_of(c);
    let at = scene.order.index_of(first);
    let rest = scene.removed_by(k).order;
    if at < pos {
        assert(rest[at] == first);
    } else {
        assert(rest[at - 1] == first);
    }
}

/// What one place is like after a value is put behind `left` and both sides are freed.
proof fn lemma_inserted_place<T>(
    left: usize,
    place: usize,
    value: T,
    slots: Seq<Slot<T>>,
    i: int,
)
    requires
        readable(slots),
        left < slots.len(),
        place < slots.len(),
        place != left,
        place != slots[left as int].post,
        0 <= i < slots.len(),
    ensures
        ({
            let right = slots[left as int].post as int;
            let after = put_after(left, place, value, pair_unlocked(left, slots));
            let lock = slots[i].lock();
            &&& after.len() == slots.len()
            &&& after[i].index == i
            &&& after[i].well_coded()
            &&& after[i].prev < slots.len()
            &&& after[i].post < slots.len()
            &&& after[i].lock() == if i == place {
                LinkLockState::free()
            } else {
                LinkLockState {
                    prev: if i == right && right != left {
                        LockState::Free
                    } else {
                        lock.prev
                    },
                    post: if i == left {
                        LockState::Free
                    } else {
                        lock.post
                    },
                    link_taken: lock.link_taken,
                }
            }
            &&& i != place && i != left ==> after[i].post == slots[i].post
            &&& i != place && i != right ==> after[i].prev == slots[i].prev
        }),
{
    law_decode_inverts_code(LinkLockState::free());
    assert(slots[i].well_coded());
    assert(slots[left as int].well_coded());
    law_code_inverts_decode(slots[i].lock_state);
}

/// A party that holds the `post` side of a link and the side that faces it may put a value
/// into an empty place between the two: the links stay one circle, and what other parties
/// hold and know stays so.
#[verifier::rlimit(40)]
#[verifier::spinoff_prover]
pub proof fn law_insertion_keeps_order<T>(scene: Scene<T>, k: int, place: usize, value: T)
    requires
        scene.orderly(),
        0 <= k < scene.parties.len(),
        !scene.parties[k].whole,
        scene.parties[k].stage matches Stage::Done { outcome } && outcome is Success,
        place < scene.slots.len(),
        !scene.order.contains(place),
    ensures
        scene.inserted_by(k, place, value).orderly(),
{
    let party = scene.parties[k];
    let left = party.center;
    let l = left as int;
    let r = scene.slots[l].post as int;
    let freed = pair_unlocked(left, scene.slots);
    let after = scene.inserted_by(k, place, value).slots;
    let order = scene.inserted_by(k, place, value).order;
    assert(informed(party, scene.slots));
    assert(party.owns(l, Part::Post));
    lemma_held_on_circle(scene, k, l, Part::Post);
    if r != l {
        assert(party.owns(r, Part::Prev));
        lemma_held_on_circle(scene, k, r, Part::Prev);
    }
    law_decode_inverts_code(LinkLockState::free());
    lemma_relocked(scene.slots, freed, scene.order);
    let pos = scene.order.index_of(left);
    lemma_put_after(freed, scene.order, pos, place, value);
    assert forall|i: int| #![trigger after[i]] 0 <= i < after.len() implies {
        &&& after[i].index == i
        &&& after[i].well_coded()
        &&& after[i].prev < after.len()
        &&& after[i].post < after.len()
    } by {
        lemma_inserted_place(left, place, value, scene.slots, i);
    }
    lemma_off_circle(scene.slots, scene.order, place as int);
    assert forall|j: int, i: int, part: Part|
        0 <= j < scene.parties.len() && j != k && (#[trigger] scene.parties[j].owns(
            i,
            part,
        )) implies same_part(scene.slots[i].lock(), after[i].lock(), part) by {
        assert(exclusive(scene.parties[j], party));
        assert(scene.parties[j].backed(scene.slots));
        assert(!party.owns(i, part));
        lemma_inserted_place(left, place, value, scene.slots, i);
        if i == place {
            assert(shows_held(scene.slots[i].lock(), part));
            assert(scene.parties[j].owns(i, Part::Prev));
            assert(shows_held(scene.slots[i].lock(), Part::Prev));
        }
    }
    assert forall|i: int|
        #![trigger after[i]]
        0 <= i < after.len() && order.contains(i as usize) implies {
        let old_lock = scene.slots[i].lock();
        let lock = after[i].lock();
        ||| lock == LinkLockState::free()
        ||| {
            &&& scene.order.contains(i as usize)
            &&& lock.prev != LockState::Taken
            &&& lock.post != LockState::Taken
            &&& shows_held(lock, Part::Prev) ==> shows_held(old_lock, Part::Prev) && !party.owns(
                i,
                Part::Prev,
            )
            &&& shows_held(lock, Part::Post) ==> shows_held(old_lock, Part::Post) && !party.owns(
                i,
                Part::Post,
            )
            &&& shows_held(lock, Part::Link) ==> shows_held(old_lock, Part::Link) && !party.owns(
                i,
                Part::Link,
            )
        }
    } by {
        lemma_inserted_place(left, place, value, scene.slots, i);
        if i != place {
            let j = order.index_of(i as usize);
            assert(order[j] == i);
            assert(scene.order[if j <= pos {
                j
            } else {
                j - 1
            }] == i);
            assert(scene.order.contains(i as usize));
        }
    }
    assert forall|j: int| 0 <= j < scene.parties.len() && j != k implies informed(
        #[trigger] scene.parties[j],
        after,
    ) by {
        let other = scene.parties[j];
        assert(informed(other, scene.slots));
        assert(exclusive(other, party));
        assert(other.backed(scene.slots));
        let o = other.center as int;
        lemma_inserted_place(left, place, value, scene.slots, o);
        assert(other.owns(o, Part::Post) ==> !party.owns(o, Part::Post));
        assert(other.owns(o, Part::Prev) ==> !party.owns(o, Part::Prev));
        assert(other.owns(o, Part::Post) ==> shows_held(scene.slots[o].lock(), Part::Post));
    }
    lemma_departure(scene, k, after, order);
}

/// A party that is not done can only be stuck trying to take its link, which somebody holds
/// a side of, or insisting on the link after, whose near side somebody holds.
proof fn lemma_stuck<T>(party: Acquisition, slots: Seq<Slot<T>>)
    requires
        stuck(party, slots),
        !(party.stage is Done),
    ensures
        party.stage is Center || party.stage is Post,
        party.stage is Center ==> {
            let lock = slots[party.center as int].lock();
            &&& lock != LinkLockState::free()
            &&& !lock.link_taken
            &&& lock.prev != LockState::Taken
            &&& lock.post != LockState::Taken
        },
        party.stage is Post ==> {
            let lock = slots[party.stage->Post_post as int].lock();
            lock.link_taken || lock.prev == LockState::Temp
        },
{
    reveal(stuck);
}

/// Parties that acquire locks on one ring never all wait for each other: as long as
/// parties are there, each at work or to start over after it backed off, some party can move.
/// If any of them is at work, one that is at work can.
pub proof fn law_some_party_can_move<T>(scene: Scene<T>)
    requires
        scene.orderly(),
        scene.parties.len() > 0,
        forall|k: int|
            0 <= k < scene.parties.len() ==> unfinished(#[trigger] scene.parties[k]),
    ensures
        exists|k: int|
            0 <= k < scene.parties.len() && !stuck(#[trigger] scene.parties[k], scene.slots),
        (exists|k: int|
            0 <= k < scene.parties.len() && !((#[trigger] scene.parties[k]).stage is Done)) ==> (
        exists|k: int|
            0 <= k < scene.parties.len() && moves(#[trigger] scene.parties[k], scene.slots)),
{
    if exists|k: int|
        0 <= k < scene.parties.len() && !((#[trigger] scene.parties[k]).stage is Done) {
        let k = choose|k: int|
            0 <= k < scene.parties.len() && !((#[trigger] scene.parties[k]).stage is Done);
        let a = scene.parties[k];
        if stuck(a, scene.slots) {
            lemma_stuck(a, scene.slots);
            if a.stage is Post {
                lemma_insisting_is_not_all(scene, k);
            } else {
                let c = a.center as int;
                let lock = scene.slots[c].lock();
                assert(a.backed(scene.slots));
                if !scene.order.contains(c as usize) {
                    lemma_off_circle(scene.slots, scene.order, c);
                }
                let part = if lock.prev == LockState::Temp {
                    Part::Prev
                } else {
                    Part::Post
                };
                assert(scene.owned(c, part));
                let b = choose|b: int|
                    0 <= b < scene.parties.len() && (#[trigger] scene.parties[b]).owns(c, part);
                assert(unfinished(scene.parties[b]));
                if stuck(scene.parties[b], scene.slots) {
                    lemma_stuck(scene.parties[b], scene.slots);
                    lemma_insisting_is_not_all(scene, b);
                } else {
                    assert(moves(scene.parties[b], scene.slots));
                }
            }
        } else {
            assert(moves(a, scene.slots));
        }
        let m = choose|m: int|
            0 <= m < scene.parties.len() && moves(#[trigger] scene.parties[m], scene.slots);
        assert(!stuck(scene.parties[m], scene.slots));
    } else {
        assert(unfinished(scene.parties[0]));
        reveal(stuck);
        assert(!stuck(scene.parties[0], scene.slots));
    }
}

/// Of parties of which one insists on the link after its own, some can move.
proof fn lemma_insisting_is_not_all<T>(scene: Scene<T>, k: int)
    requires
        scene.orderly(),
        forall|j: int|
            0 <= j < scene.parties.len() ==> unfinished(#[trigger] scene.parties[j]),
        0 <= k < scene.parties.len(),
        scene.parties[k].stage is Post,
    ensures
        exists|j: int|
            0 <= j < scene.parties.len() && moves(#[trigger] scene.parties[j], scene.slots),
{
    let a = scene.parties[k];
    let q = a.stage->Post_post as int;
    let lock = scene.slots[q].lock();
    if stuck(a, scene.slots) {
        assert(a.backed(scene.slots));
        lemma_stuck(a, scene.slots);
        lemma_insisted_on(scene, k);
        let part = if lock.link_taken {
            Part::Link
        } else {
            Part::Prev
        };
        let b = choose|b: int|
            0 <= b < scene.parties.len() && (#[trigger] scene.parties[b]).owns(q, part);
        let other = scene.parties[b];
        assert(other.backed(scene.slots));
        assert(unfinished(other));
        if stuck(other, scene.slots) {
            lemma_stuck(other, scene.slots);
            assert(other.owns(q, Part::Link));
            assert(shows_held(lock, Part::Link));
            lemma_no_two_at_once(scene, k, b);
        }
        assert(moves(scene.parties[b], scene.slots));
    } else {
        assert(moves(scene.parties[k], scene.slots));
    }
}

/// The link that a party insists on is on the circle, right after the party's own.
proof fn lemma_insisted_on<T>(scene: Scene<T>, k: int)
    requires
        scene.orderly(),
        0 <= k < scene.parties.len(),
        scene.parties[k].stage is Post,
    ensures
        ({
            let party = scene.parties[k];
            let q = party.stage->Post_post as int;
            let lock = scene.slots[q].lock();
            &&& 0 <= q < scene.slots.len()
            &&& scene.order.contains(q as usize)
            &&& scene.slots[q].prev == party.center
            &&& party.owns(party.center as int, Part::Post)
            &&& lock.post != LockState::Taken
            &&& lock.link_taken ==> scene.owned(q, Part::Link)
            &&& lock.prev == LockState::Temp ==> scene.owned(q, Part::Prev)
        }),
{
    let party = scene.parties[k];
    let c = party.center as int;
    let q = party.stage->Post_post as int;
    assert(party.backed(scene.slots));
    assert(informed(party, scene.slots));
    assert(party.owns(c, Part::Post));
    lemma_held_on_circle(scene, k, c, Part::Post);
    let n = scene.order.len() as int;
    let pos = scene.order.index_of(c as usize);
    assert(in_order(scene.slots, scene.order, pos));
    assert(in_order(scene.slots, scene.order, succ(pos, n)));
    assert(scene.order[succ(pos, n)] == q);
    assert(scene.slots[q].lock() == LinkLockState::decode(scene.slots[q].lock_state));
}

/// A party that insists on a link does not meet another that holds that link and has gone as
/// far.
proof fn lemma_no_two_at_once<T>(scene: Scene<T>, k: int, b: int)
    requires
        scene.orderly(),
        0 <= k < scene.parties.len(),
        0 <= b < scene.parties.len(),
        scene.parties[k].stage is Post,
        scene.parties[b].owns(scene.parties[k].stage->Post_post as int, Part::Link),
    ensures
        !(scene.parties[b].stage is Post),
{
    let a = scene.parties[k];
    let other = scene.parties[b];
    let c = a.center as int;
    assert(a.backed(scene.slots));
    assert(other.backed(scene.slots));
    assert(informed(a, scene.slots));
    assert(informed(other, scene.slots));
    lemma_insisted_on(scene, k);
    if other.stage is Post {
        let p = other.stage->Post_prev as int;
        assert(other.center == a.stage->Post_post);
        assert(p == c);
        assert(other.holds_as_prev(p));
        assert(other.owns(c, Part::Post));
        if b == k {
            assert(other.center == c);
            assert(false);
        } else {
            assert(exclusive(a, other));
        }
    }
}

/// A link on the circle is given up only because a party holds that link, or the one before
/// it, or backed off from because a party holds the side of the one before. That a neighbour
/// is worked on makes a party wait, and no more; the link after is never given up.
pub proof fn law_giving_up_has_a_reason<T>(scene: Scene<T>, k: int)
    requires
        scene.orderly(),
        0 <= k < scene.parties.len(),
        scene.order.contains(scene.parties[k].center),
    ensures
        ({
            let party = scene.parties[k];
            let next = party.next(scene.slots).stage;
            let waits = next == (Stage::Done { outcome: LockReturn::WaitOnMutex }) || (
            next is DropCenter && next->DropCenter_outcome is WaitOnMutex);
            let backs_off = next == (Stage::Done { outcome: LockReturn::BackOff }) || (
            next is DropCenter && next->DropCenter_outcome is BackOff);
            &&& party.stage is Center ==> (next is Done ==> scene.owned(
                party.center as int,
                Part::Link,
            )) && !backs_off
            &&& party.stage is Prev && waits ==> scene.owned(
                party.stage->Prev_prev as int,
                Part::Link,
            )
            &&& party.stage is Prev && backs_off ==> scene.owned(
                party.stage->Prev_prev as int,
                Part::Post,
            )
            &&& party.stage is Post ==> next is Post || next == (Stage::Done {
                outcome: LockReturn::Success {
                    post: party.stage->Post_post,
                    prev: party.stage->Post_prev,
                },
            })
        }),
{
    let party = scene.parties[k];
    let c = party.center as int;
    assert(party.backed(scene.slots));
    assert(informed(party, scene.slots));
    assert(scene.slots[c].lock() == LinkLockState::decode(scene.slots[c].lock_state));
    if party.stage is Prev {
        let p = party.stage->Prev_prev as int;
        let pos = scene.order.index_of(c as usize);
        assert(in_order(scene.slots, scene.order, pos));
        assert(scene.order.contains(p as usize));
        assert(scene.slots[p].lock() == LinkLockState::decode(scene.slots[p].lock_state));
    }
    if party.stage is Post {
        lemma_insisted_on(scene, k);
        let q = party.stage->Post_post as int;
        assert(scene.slots[q].lock() == LinkLockState::decode(scene.slots[q].lock_state));
    }
}

} // verus!
