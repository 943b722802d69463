//! Links: the places on the ring, and the handles that carry their values while they are
//! off the ring.
use vstd::prelude::*;
use crate::lock_state::{decodable, LinkLockState, LockState};

verus! {

/// A value that is off the ring, with the place it goes back to.
pub struct Link<T> {
    pub(crate) post: usize,
    pub(crate) prev: usize,
    pub(crate) lock_state: LinkLockState,
    pub(crate) index: usize,
    pub(crate) data: T,
}

/// What a link says of itself without showing its value.
#[derive(Copy, Clone, Debug, PartialEq, Eq, Structural)]
pub struct LinkSummary {
    pub lock_state: LinkLockState,
    pub index: usize,
    pub prev: usize,
    pub post: usize,
}

/// The place after `index` on a ring of `n` places.
pub open spec fn next_place(index: int, n: int) -> int {
    (index + 1) % n
}

/// The place before `index` on a ring of `n` places.
pub open spec fn prev_place(index: int, n: int) -> int {
    (index - 1) % n
}

impl<T> Link<T> {
    /// The place this link belongs to.
    pub open(crate) spec fn place(self) -> usize {
        self.index
    }

    /// The value this link carries.
    pub open(crate) spec fn value(self) -> T {
        self.data
    }

    /// The place after this link.
    pub open(crate) spec fn after(self) -> usize {
        self.post
    }

    /// The place before this link.
    pub open(crate) spec fn before(self) -> usize {
        self.prev
    }

    /// This link's lock word.
    pub open(crate) spec fn lock(self) -> LinkLockState {
        self.lock_state
    }

    /// This link was taken off a ring: it has no neighbours, and its lock word says that it
    /// is handed out.
    pub open(crate) spec fn loose(self) -> bool {
        &&& self.post == self.index
        &&& self.prev == self.index
        &&& self.lock_state == LinkLockState::gone()
    }

    /// A link for place `index` of `n`, between its two neighbours, with nothing locked.
    pub(crate) fn new(val: T, index: usize, n: usize) -> (link: Link<T>)
        requires
            n > 0,
            index < usize::MAX,
        ensures
            link.value() == val,
            link.place() == index,
            link.after() == next_place(index as int, n as int),
            link.before() == prev_place(index as int, n as int),
            link.lock() == LinkLockState::free(),
    {
        let prev: usize = if index == 0 {
            n - 1
        } else {
            (index - 1) % n
        };
        proof {
            if index == 0 {
                vstd::arithmetic::div_mod::lemma_mod_add_multiples_vanish(-1, n as int);
                vstd::arithmetic::div_mod::lemma_small_mod((n - 1) as nat, n as nat);
            }
        }
        Link {
            post: (index + 1) % n,
            prev,
            lock_state: LinkLockState::free(),
            index,
            data: val,
        }
    }

    /// The place that this link was taken from and goes back to.
    pub fn original_index(&self) -> (index: usize)
        ensures
            index == self.place(),
    {
        self.index
    }

    /// What this link says of itself, its value left out.
    pub fn summary(&self) -> (summary: LinkSummary)
        ensures
            summary.lock_state == self.lock(),
            summary.index == self.place(),
            summary.prev == self.before(),
            summary.post == self.after(),
    {
        LinkSummary {
            lock_state: self.lock_state,
            index: self.index,
            prev: self.prev,
            post: self.post,
        }
    }
}

impl<T> core::ops::Deref for Link<T> {
    type Target = T;

    fn deref(&self) -> (value: &T)
        ensures
            *value == self.value(),
    {
        &self.data
    }
}

impl<T> core::ops::DerefMut for Link<T> {
    fn deref_mut(&mut self) -> (value: &mut T)
        ensures
            *value == old(self).value(),
            final(self).value() == *final(value),
            final(self).place() == old(self).place(),
            final(self).after() == old(self).after(),
            final(self).before() == old(self).before(),
            final(self).lock() == old(self).lock(),
    {
        &mut self.data
    }
}

/// A place on the ring: what is stored for one link, whether its value is there or handed
/// out.
pub struct Slot<T> {
    /// The place after this one.
    pub post: usize,
    /// The place before this one.
    pub prev: usize,
    /// The packed lock word.
    pub lock_state: u8,
    /// This place's own number.
    pub index: usize,
    /// The value, unless it is handed out.
    pub data: Option<T>,
}

impl<T> Slot<T> {
    /// The lock word, unpacked.
    pub open spec fn lock(self) -> LinkLockState {
        LinkLockState::decode(self.lock_state)
    }

    /// The byte is the code of a lock word.
    pub open spec fn well_coded(self) -> bool {
        &&& self.lock_state < 32
        &&& decodable(self.lock_state)
    }

    /// The same place with another lock word.
    pub open spec fn with_lock(self, lock: LinkLockState) -> Slot<T> {
        Slot { lock_state: lock.code(), ..self }
    }

    /// The same place with another place after it.
    pub open spec fn with_post(self, post: usize) -> Slot<T> {
        Slot { post, ..self }
    }

    /// The same place with another place before it.
    pub open spec fn with_prev(self, prev: usize) -> Slot<T> {
        Slot { prev, ..self }
    }

    /// The place that a link fills.
    pub fn of_link(link: Link<T>) -> (slot: Slot<T>)
        ensures
            slot.post == link.after(),
            slot.prev == link.before(),
            slot.lock_state == link.lock().code(),
            slot.index == link.place(),
            slot.data == Some(link.value()),
    {
        Slot {
            post: link.post,
            prev: link.prev,
            lock_state: link.lock_state.to_u8(),
            index: link.index,
            data: Some(link.data),
        }
    }
}

/// A link that was taken off a ring points at its own place on both sides and is marked as
/// handed out, whole and on either side.
pub proof fn law_loose_link_points_at_itself<T>(link: Link<T>)
    requires
        link.loose(),
    ensures
        link.before() == link.place(),
        link.after() == link.place(),
        link.lock().link_taken,
        link.lock().prev == LockState::Taken,
        link.lock().post == LockState::Taken,
{
}

} // verus!
