//! The deque: the ring together with the link that is next in line and a count.
use vstd::prelude::*;
use crate::acquisition::set_lock;
use crate::inspect::{upgrade, InspectUpgradeResult, UpgradeMode};
use crate::link::{next_place, prev_place, Link, Slot};
use crate::lock_state::{law_code_inverts_decode, law_decode_inverts_code, LinkLockState};
use crate::locking::temp_lock_wait_one;
use crate::relink::{insert_after, remove, remove_prelocked, taken_off, write_into, Removed};
use crate::ring::{
    in_order, is_ring, lemma_put_after, lemma_put_alone, lemma_ring_readable,
    lemma_ring_values, lemma_taken_off, lemma_three_on_ring, lemma_two_on_ring, pred, succ,
};
use crate::scene::{law_rest_is_orderly, Scene};
use crate::search::{
    answered, askable, askable_in_turn, passed_over, picked, ruled_out, ItemState, Pass, Search,
};

verus! {

/// What a deque holds.
#[verifier::ext_equal]
pub struct DequeView<T> {
    /// For each place the value that is there, or nothing if it is handed out.
    pub slots: Seq<Option<T>>,
    /// The places that have their value, in the order in which they are next in line.
    pub order: Seq<usize>,
    /// The place that is next in line, or was last if none is.
    pub first: usize,
    /// The count that [`AtomicDeque::len`] tells.
    pub len: nat,
}

impl<T> DequeView<T> {
    /// The order runs through the places that have a value, each once, from the first on, and
    /// the count is not less than their number.
    pub open spec fn valid(self) -> bool {
        &&& self.slots.len() <= usize::MAX
        &&& self.first < self.slots.len()
        &&& self.order.no_duplicates()
        &&& forall|k: int| 0 <= k < self.order.len() ==> #[trigger] self.order[k] < self.slots.len()
        &&& forall|i: int|
            0 <= i < self.slots.len() ==> (#[trigger] self.slots[i] is Some
                <==> self.order.contains(i as usize))
        &&& self.order.len() > 0 ==> self.order[0] == self.first
        &&& self.order.len() <= self.len
    }

    /// All of `values` are there, in line in their own order.
    pub open spec fn full(values: Seq<T>) -> DequeView<T> {
        DequeView {
            slots: Seq::new(values.len(), |i: int| Some(values[i])),
            order: Seq::new(values.len(), |i: int| i as usize),
            first: 0,
            len: values.len(),
        }
    }

    /// The order without the place `i`.
    pub open spec fn order_without(self, i: usize) -> Seq<usize> {
        self.order.remove(self.order.index_of(i))
    }

    /// The value at place `i` is taken. If the place was first in line, the next one is first
    /// and the count goes down; if not, the count stays.
    pub open spec fn taking(self, i: usize) -> DequeView<T> {
        DequeView {
            slots: self.slots.update(i as int, None),
            order: self.order_without(i),
            first: if i == self.first && self.order.len() > 1 {
                self.order[1]
            } else {
                self.first
            },
            len: if i == self.first {
                (self.len - 1) as nat
            } else {
                self.len
            },
        }
    }

    /// A value is put into the empty place `place`: alone if the count is nought, and behind
    /// the first in line if not.
    pub open spec fn depositing(self, place: usize, value: T) -> DequeView<T> {
        DequeView {
            slots: self.slots.update(place as int, Some(value)),
            order: if self.len == 0 {
                seq![place]
            } else {
                self.order.insert(1, place)
            },
            first: if self.len == 0 {
                place
            } else {
                self.first
            },
            len: self.len + 1,
        }
    }

    /// Somebody asked for the first in line. If the count is not nought but no value is
    /// there, the count alone goes down.
    pub open spec fn asked_first(self) -> DequeView<T> {
        if self.order.len() > 0 {
            self.taking(self.first)
        } else if self.len > 0 {
            DequeView { len: (self.len - 1) as nat, ..self }
        } else {
            self
        }
    }
}

/// What comes of waiting for the first in line.
pub enum Turn<T> {
    /// No link is in line: wait until one is put back, then ask again.
    Wait,
    /// This link was taken.
    Taken(Link<T>),
    /// The count says that a link is in line, but none is.
    Broken,
}

/// A fixed number of values that are taken out and given back. Values that are there are
/// dropped with the deque, and values that are handed out with their links.
pub struct AtomicDeque<T, const N: usize> {
    /// The places, each with its links to the places around it.
    items: Vec<Slot<T>>,
    /// The place that is next in line.
    first: usize,
    /// Whether somebody is at the head of the line.
    first_locked: bool,
    /// The count of links in line.
    len: usize,
    /// The places on the ring, from the first on.
    order: Ghost<Seq<usize>>,
}

impl<T, const N: usize> View for AtomicDeque<T, N> {
    type V = DequeView<T>;

    closed spec fn view(&self) -> DequeView<T> {
        DequeView {
            slots: Seq::new(self.items@.len(), |i: int| self.items@[i].data),
            order: self.order@,
            first: self.first,
            len: self.len as nat,
        }
    }
}

impl<T, const N: usize> AtomicDeque<T, N> {
    /// The links make a ring of the places in order, and nobody holds the head of the line.
    pub closed spec fn inv(&self) -> bool {
        &&& self.items@.len() == N
        &&& is_ring(self.items@, self.order@)
        &&& !self.first_locked
    }

    /// The places with their links.
    pub closed spec fn links(&self) -> Seq<Slot<T>> {
        self.items@
    }

    /// The deque is at rest.
    pub open spec fn wf(&self) -> bool {
        &&& self.inv()
        &&& self@.valid()
        &&& self@.slots.len() == N
    }

    /// Between calls the links are a ring on which nobody is at work, so that any number of
    /// parties may begin there.
    pub proof fn law_at_rest_between_calls(&self)
        requires
            self.wf(),
        ensures
            self.links().len() == N,
            is_ring(self.links(), self@.order),
            (Scene { slots: self.links(), order: self@.order, parties: Seq::empty() }).orderly(),
            self@.slots == Seq::new(N as nat, |i: int| self.links()[i].data),
    {
        law_rest_is_orderly(self.items@, self.order@);
    }

    /// A deque with all of `data` there, in line in its own order.
    pub fn new(data: [T; N]) -> (deque: AtomicDeque<T, N>)
        requires
            N != 0,
        ensures
            deque.wf(),
            deque@ == DequeView::full(data@),
            deque@.slots.len() == N,
            forall|i: int| 0 <= i < N ==> #[trigger] deque@.slots[i] == Some(data@[i]),
            deque@.first == 0,
            deque@.len == N,
    {
        let boxed: Box<[T]> = Box::new(data);
        let values: Vec<T> = boxed.into_vec();
        let mut items: Vec<Slot<T>> = Vec::new();
        let mut idx: usize = 0;
        for x in it: values
            invariant
                it.seq() == data@,
                data@.len() == N,
                N != 0,
                idx == it.index(),
                items@.len() == idx,
                forall|i: int|
                    #![trigger items@[i]]
                    0 <= i < idx ==> items@[i] == (Slot {
                        post: next_place(i, N as int) as usize,
                        prev: prev_place(i, N as int) as usize,
                        lock_state: LinkLockState::free().code(),
                        index: i as usize,
                        data: Some(data@[i]),
                    }),
        {
            let this_idx: usize = idx;
            items.push(Slot::of_link(Link::new(x, this_idx, N)));
            idx = idx + 1;
        }
        let ghost order = Seq::new(N as nat, |i: int| i as usize);
        let deque = AtomicDeque {
            items,
            first: 0,
            first_locked: false,
            len: N,
            order: Ghost(order),
        };
        proof {
            assert forall|k: int| 0 <= k < order.len() implies #[trigger] in_order(
                items@,
                order,
                k,
            ) by {
                lemma_places(k, N as int);
            }
            assert forall|x: usize| x < N implies #[trigger] order.contains(x) by {
                assert(order[x as int] == x);
            }
            assert(is_ring(items@, order));
            assert(deque@ =~= DequeView::full(data@));
        }
        deque
    }

    /// What the deque is after the link at place `i` is off the ring.
    proof fn lemma_taking(before: &Self, after: &Self, i: usize)
        requires
            before.wf(),
            before.order@.contains(i),
            after.items@ == taken_off(i, before.items@),
            after.order@ == before@.order_without(i),
            after.first == before@.taking(i).first,
            after.len == before@.taking(i).len,
            !after.first_locked,
        ensures
            after.wf(),
            after@ == before@.taking(i),
    {
        let k = before.order@.index_of(i);
        lemma_ring_readable(before.items@, before.order@);
        lemma_taken_off(before.items@, before.order@, k);
        lemma_ring_values(after.items@, after.order@);
        assert(after@.slots =~= before@.taking(i).slots);
        assert(after@ =~= before@.taking(i));
        if before.first != i && before.order@.len() > 0 {
            assert(k != 0);
            assert(after.order@[0] == before.order@[0]);
        } else if before.order@.len() > 1 {
            assert(k == 0);
            assert(after.order@[0] == before.order@[1]);
        }
    }

    /// Takes the link that is first in line off the ring and puts the next one in its stead.
    /// Nothing if no link is there.
    fn take_first(&mut self) -> (taken: Option<Link<T>>)
        requires
            old(self).items@.len() == N,
            is_ring(old(self).items@, old(self).order@),
            old(self).first < N,
            old(self).order@.len() > 0 ==> old(self).order@[0] == old(self).first,
        ensures
            final(self).len == old(self).len,
            final(self).first_locked == old(self).first_locked,
            taken is Some <==> old(self).order@.len() > 0,
            taken is None ==> {
                &&& final(self).items@ == old(self).items@
                &&& final(self).order@ == old(self).order@
                &&& final(self).first == old(self).first
            },
            taken matches Some(link) ==> {
                &&& link.place() == old(self).first
                &&& link.loose()
                &&& Some(link.value()) == old(self).items@[old(self).first as int].data
                &&& final(self).items@ == taken_off(old(self).first, old(self).items@)
                &&& final(self).order@ == old(self).order@.remove(0)
                &&& final(self).first == old(self).items@[old(self).first as int].post
            },
    {
        let first: usize = self.first;
        proof {
            lemma_ring_readable(self.items@, self.order@);
            lemma_three_on_ring(self.items@, self.order@, first);
            lemma_ring_values(self.items@, self.order@);
            if self.order@.contains(first) {
                assert(self.order@.len() > 0);
            }
        }
        match remove(first, &mut self.items) {
            Some(Removed { link, post, .. }) => {
                self.first = post;
                proof {
                    self.order@ = self.order@.remove(0);
                }
                Some(link)
            },
            None => None,
        }
    }

    /// Takes the link that is first in line, if the count is not nought and the link is
    /// there.
    pub fn next_try(&mut self) -> (taken: Option<Link<T>>)
        requires
            old(self).wf(),
        ensures
            final(self).wf(),
            final(self)@ == old(self)@.asked_first(),
            taken is Some <==> old(self)@.order.len() > 0,
            taken matches Some(link) ==> {
                &&& link.place() == old(self)@.first
                &&& Some(link.value()) == old(self)@.slots[old(self)@.first as int]
                &&& link.loose()
                &&& final(self)@.slots == old(self)@.slots.update(link.place() as int, None)
                &&& final(self)@.order == old(self)@.order.drop_first()
            },
            taken is None ==> {
                &&& final(self)@.slots == old(self)@.slots
                &&& final(self)@.order == old(self)@.order
                &&& final(self)@.first == old(self)@.first
            },
            final(self)@.len == if old(self)@.len > 0 {
                old(self)@.len - 1
            } else {
                0
            },
    {
        let ghost before = *self;
        self.first_locked = true;
        match self.len.checked_sub(1) {
            Some(rest) => {
                self.len = rest;
            },
            None => {
                self.first_locked = false;
                return None;
            },
        }
        let result: Option<Link<T>> = self.take_first();
        self.first_locked = false;
        proof {
            if result is Some {
                let first = before.first;
                assert(before.order@.contains(first));
                assert(before.order@.index_of(first) == 0);
                assert(in_order(before.items@, before.order@, 0));
                Self::lemma_taking(&before, self, first);
                assert(before.order@.remove(0) =~= before.order@.drop_first());
            }
        }
        result
    }

    /// What whoever waits for the first in line does now: waits if the count is nought, and
    /// takes the link if not. If the count is not nought but no value is there, the count
    /// alone goes down.
    pub fn next_turn(&mut self) -> (turn: Turn<T>)
        requires
            old(self).wf(),
        ensures
            final(self).wf(),
            match turn {
                Turn::Wait => {
                    &&& old(self)@.len == 0
                    &&& final(self)@ == old(self)@
                },
                Turn::Taken(link) => {
                    &&& old(self)@.order.len() > 0
                    &&& final(self)@ == old(self)@.taking(old(self)@.first)
                    &&& link.place() == old(self)@.first
                    &&& Some(link.value()) == old(self)@.slots[old(self)@.first as int]
                    &&& link.loose()
                    &&& final(self)@.slots == old(self)@.slots.update(link.place() as int, None)
                    &&& final(self)@.order == old(self)@.order.drop_first()
                    &&& final(self)@.len + 1 == old(self)@.len
                },
                Turn::Broken => {
                    &&& old(self)@.len > 0
                    &&& old(self)@.order.len() == 0
                    &&& final(self)@ == old(self)@.asked_first()
                    &&& final(self)@.slots == old(self)@.slots
                    &&& final(self)@.first == old(self)@.first
                    &&& final(self)@.len + 1 == old(self)@.len
                },
            },
    {
        if self.len == 0 {
            return Turn::Wait;
        }
        match self.next_try() {
            Some(link) => Turn::Taken(link),
            None => Turn::Broken,
        }
    }

    /// Takes the link that is first in line, which must be there: with the deque to
    /// ourselves there is nobody to wait for.
    pub fn next_wait(&mut self) -> (link: Link<T>)
        requires
            old(self).wf(),
            old(self)@.order.len() > 0,
        ensures
            final(self).wf(),
            final(self)@ == old(self)@.taking(old(self)@.first),
            link.place() == old(self)@.first,
            Some(link.value()) == old(self)@.slots[old(self)@.first as int],
            link.loose(),
            final(self)@.slots == old(self)@.slots.update(link.place() as int, None),
            final(self)@.order == old(self)@.order.drop_first(),
            final(self)@.len + 1 == old(self)@.len,
    {
        self.next_try().unwrap()
    }

    /// The link that is first in line is there to be taken.
    pub fn ready(&self) -> (ready: bool)
        requires
            self.wf(),
        ensures
            ready == (self@.order.len() > 0),
    {
        proof {
            lemma_ring_readable(self.items@, self.order@);
            lemma_ring_values(self.items@, self.order@);
            if self.order@.len() > 0 {
                assert(self.order@.contains(self.first));
            }
        }
        self.items[self.first].data.is_some()
    }

    /// The link goes back to a place of this deque that is empty, and is not tied to other
    /// places if it comes to be alone; behind somebody if the count is not nought; and the
    /// count can go up.
    pub open(crate) spec fn takes_back(&self, link: &Link<T>) -> bool {
        &&& link.place() < N
        &&& self@.slots[link.place() as int] is None
        &&& self@.len == 0 ==> link.before() == link.place() && link.after() == link.place()
        &&& self@.len > 0 ==> self@.order.len() > 0
        &&& self@.len < usize::MAX
    }

    /// A link that was taken off a ring is taken back if its place here has room and the
    /// count can go up.
    pub proof fn law_loose_link_is_taken_back(&self, link: &Link<T>)
        requires
            self.wf(),
            link.loose(),
            self@.has_room(link.place()),
            self@.len < usize::MAX,
        ensures
            self.takes_back(link),
    {
    }

    /// A link that was taken off a ring is taken back just if it is of a place of this deque
    /// that is empty, there is somebody to put it behind unless the count is nought, and the
    /// count can go up.
    pub proof fn law_what_is_taken_back(&self, link: &Link<T>)
        requires
            self.wf(),
            link.loose(),
        ensures
            self.takes_back(link) <==> {
                &&& link.place() < N
                &&& self@.slots[link.place() as int] is None
                &&& self@.len == 0 || self@.order.len() > 0
                &&& self@.len < usize::MAX
            },
    {
    }

    /// Says whether [`AtomicDeque::deposit`] takes the link.
    pub fn accepts(&self, link: &Link<T>) -> (accepted: bool)
        requires
            self.wf(),
        ensures
            accepted == self.takes_back(link),
    {
        if link.index < N && self.items[link.index].data.is_none() && self.len < usize::MAX {
            if self.len == 0 {
                link.prev == link.index && link.post == link.index
            } else {
                self.ready()
            }
        } else {
            false
        }
    }

    /// Puts a link back into its place: behind the link that is first in line, or alone if
    /// the count is nought.
    pub fn deposit(&mut self, link: Link<T>)
        requires
            old(self).wf(),
            old(self).takes_back(&link),
        ensures
            final(self).wf(),
            final(self)@ == old(self)@.depositing(link.place(), link.value()),
            final(self)@.slots == old(self)@.slots.update(
                link.place() as int,
                Some(link.value()),
            ),
            final(self)@.len == old(self)@.len + 1,
            old(self)@.len == 0 ==> final(self)@.first == link.place(),
            old(self)@.len > 0 ==> final(self)@.first == old(self)@.first,
    {
        let ghost before = *self;
        let index: usize = link.index;
        self.first_locked = true;
        proof {
            lemma_ring_readable(self.items@, self.order@);
            lemma_ring_values(self.items@, self.order@);
            assert(!self.order@.contains(index));
        }
        if self.len == 0 {
            let ghost value = link.value();
            proof {
                assert(self.order@ =~= Seq::<usize>::empty());
                lemma_put_alone(self.items@, index, value);
            }
            write_into(&mut self.items[index], link);
            self.first = index;
            self.first_locked = false;
            proof {
                self.order@ = seq![index];
            }
        } else {
            let ghost value = link.value();
            proof {
                assert(self.order@.contains(self.first));
                lemma_two_on_ring(self.items@, self.order@, self.first);
                lemma_put_after(self.items@, self.order@, 0, index, value);
            }
            let _ = insert_after(self.first, &mut self.items, link);
            self.first_locked = false;
            proof {
                self.order@ = self.order@.insert(1, index);
            }
        }
        self.len = self.len + 1;
        proof {
            lemma_ring_values(self.items@, self.order@);
            assert(self@.slots =~= before@.depositing(index, link.value()).slots);
            assert(self@ =~= before@.depositing(index, link.value()));
        }
    }

    /// The count: it goes down when the first in line is taken and up when a link is put
    /// back, and does not mind links that are taken out of line.
    pub fn len(&self) -> (len: usize)
        ensures
            len == self@.len,
    {
        self.len
    }

    /// Takes the link that is first in line, which is locked already, or nothing if somebody
    /// has the head of the line.
    fn next_try_prelocked(&mut self) -> (taken: Option<Link<T>>)
        requires
            old(self).items@.len() == N,
            old(self).first < N,
            old(self).order@.len() > 0,
            old(self).order@[0] == old(self).first,
            old(self).len > 0,
            old(self).items@[old(self).first as int].lock_state == LinkLockState::held().code(),
            is_ring(
                set_lock(old(self).items@, old(self).first as int, LinkLockState::free()),
                old(self).order@,
            ),
        ensures
            old(self).first_locked ==> taken is None && *final(self) == *old(self),
            !old(self).first_locked ==> {
                &&& taken matches Some(link)
                &&& link.place() == old(self).first
                &&& link.loose()
                &&& Some(link.value()) == old(self).items@[old(self).first as int].data
                &&& final(self).items@ == taken_off(old(self).first, old(self).items@)
                &&& final(self).order@ == old(self).order@.remove(0)
                &&& final(self).first == old(self).items@[old(self).first as int].post
                &&& final(self).len == old(self).len - 1
                &&& !final(self).first_locked
            },
    {
        if self.first_locked {
            return None;
        }
        self.first_locked = true;
        self.len = self.len - 1;
        let first: usize = self.first;
        proof {
            let slots = set_lock(self.items@, first as int, LinkLockState::free());
            assert(self.items@ =~= set_lock(slots, first as int, LinkLockState::held()));
            law_decode_inverts_code(LinkLockState::held());
            lemma_ring_readable(slots, self.order@);
            assert(self.order@.contains(first));
            lemma_three_on_ring(slots, self.order@, first);
        }
        let result: Option<Link<T>> = match remove_prelocked(first, &mut self.items) {
            Some(Removed { link, post, .. }) => {
                self.first = post;
                proof {
                    self.order@ = self.order@.remove(0);
                }
                Some(link)
            },
            None => None,
        };
        self.first_locked = false;
        result
    }

    /// Looks at the link at `index` and takes it if its value meets the condition, a condition
    /// without state of its own.
    fn visit_unchecked<F: FnMut(&T, usize) -> bool>(
        &mut self,
        index: usize,
        pred: &mut F,
    ) -> (result: InspectUpgradeResult<T>)
        requires
            old(self).wf(),
            index < N,
            old(self)@.slots[index as int] matches Some(value) ==> call_requires(
                *old(pred),
                (&value, index),
            ),
        ensures
            final(self).wf(),
            *final(pred) == *old(pred),
            result is CouldNotAcquireOne <==> old(self)@.slots[index as int] is None,
            match result {
                InspectUpgradeResult::Success(link) => {
                    &&& call_ensures(*old(pred), (&old(self)@.slots[index as int]->0, index), true)
                    &&& link.place() == index
                    &&& link.loose()
                    &&& Some(link.value()) == old(self)@.slots[index as int]
                    &&& final(self)@ == old(self)@.taking(index)
                },
                InspectUpgradeResult::DidNotUpgrade => {
                    &&& call_ensures(*old(pred), (&old(self)@.slots[index as int]->0, index), false)
                    &&& final(self)@ == old(self)@
                },
                InspectUpgradeResult::CouldNotAcquireOne => final(self)@ == old(self)@,
                _ => false,
            },
    {
        let ghost before = *self;
        proof {
            lemma_ring_readable(self.items@, self.order@);
            lemma_ring_values(self.items@, self.order@);
            lemma_three_on_ring(self.items@, self.order@, index);
            law_decode_inverts_code(LinkLockState::held());
            law_code_inverts_decode(self.items@[index as int].lock_state);
        }
        if temp_lock_wait_one(&mut self.items[index]).is_none() {
            assert(self.items@ =~= before.items@);
            return InspectUpgradeResult::CouldNotAcquireOne;
        }
        let ghost held = set_lock(before.items@, index as int, LinkLockState::held());
        assert(self.items@ =~= held);
        assert(set_lock(held, index as int, LinkLockState::free()) =~= before.items@);
        let mode: UpgradeMode = if pred(self.items[index].data.as_ref().unwrap(), index) {
            if index == self.first {
                UpgradeMode::LeaveLocked
            } else {
                UpgradeMode::Remove
            }
        } else {
            UpgradeMode::False
        };
        match upgrade(index, &mut self.items, mode) {
            InspectUpgradeResult::LeaveLocked => {
                let result: Option<Link<T>> = self.next_try_prelocked();
                proof {
                    assert(before.order@.index_of(index) == 0);
                    assert(in_order(before.items@, before.order@, 0));
                    assert(self.items@ =~= taken_off(index, before.items@));
                    Self::lemma_taking(&before, self, index);
                }
                match result {
                    Some(link) => InspectUpgradeResult::Success(link),
                    None => InspectUpgradeResult::BackOffOrMutex,
                }
            },
            InspectUpgradeResult::Success(link) => {
                proof {
                    let k = before.order@.index_of(index);
                    self.order@ = before.order@.remove(k);
                    assert(self.items@ =~= taken_off(index, before.items@));
                    Self::lemma_taking(&before, self, index);
                }
                InspectUpgradeResult::Success(link)
            },
            other => other,
        }
    }

    /// Takes the link at `index`, whose value was seen to meet the condition, if it is there.
    fn visit_queued(&mut self, index: usize) -> (taken: Option<Link<T>>)
        requires
            old(self).wf(),
            index < N,
        ensures
            final(self).wf(),
            taken is Some <==> old(self)@.slots[index as int] is Some,
            taken matches Some(link) ==> {
                &&& link.place() == index
                &&& link.loose()
                &&& Some(link.value()) == old(self)@.slots[index as int]
                &&& final(self)@ == old(self)@.taking(index)
            },
            taken is None ==> final(self)@ == if index == old(self)@.first {
                old(self)@.asked_first()
            } else {
                old(self)@
            },
    {
        if index == self.first {
            proof {
                assert(self.order@.len() > 0 ==> self.order@.contains(index));
            }
            self.next_try()
        } else {
            let ghost before = *self;
            proof {
                lemma_ring_readable(self.items@, self.order@);
                lemma_ring_values(self.items@, self.order@);
                lemma_three_on_ring(self.items@, self.order@, index);
            }
            match remove(index, &mut self.items) {
                Some(Removed { link, .. }) => {
                    proof {
                        let k = before.order@.index_of(index);
                        self.order@ = before.order@.remove(k);
                        Self::lemma_taking(&before, self, index);
                    }
                    Some(link)
                },
                None => None,
            }
        }
    }

    /// Goes over the places in their own order, asks the condition of each value not seen
    /// yet, and takes the first link whose value meets it. A link that was queued is taken
    /// without being asked again, and nothing beyond the link that is taken is asked.
    ///
    /// The contract speaks of conditions without state of their own: it takes the condition to
    /// be the same after each question, and says nothing of one that counts or remembers.
    pub fn search_pass<F: FnMut(&T, usize) -> bool>(
        &mut self,
        search: &mut Search,
        pred: &mut F,
    ) -> (pass: Pass<T>)
        requires
            old(self).wf(),
            old(search).wf(),
            old(search)@.len() == N,
            askable(*old(pred), old(search)@, old(self)@.slots),
        ensures
            final(self).wf(),
            final(search).wf(),
            *final(pred) == *old(pred),
            match pass {
                Pass::Found(link) => {
                    &&& link.place() < N
                    &&& link.loose()
                    &&& Some(link.value()) == old(self)@.slots[link.place() as int]
                    &&& picked(
                        *old(pred),
                        old(search)@,
                        old(self)@.slots,
                        link.place() as int,
                    )
                    &&& forall|i: int|
                        0 <= i < link.place() ==> #[trigger] passed_over(
                            *old(pred),
                            old(search)@,
                            old(self)@.slots,
                            i,
                        )
                    &&& old(search)@[link.place() as int] != ItemState::False
                    &&& old(search)@[link.place() as int] == ItemState::Unchecked ==> call_ensures(
                        *old(pred),
                        (&link.value(), link.place()),
                        true,
                    )
                    &&& final(self)@ == old(self)@.taking(link.place())
                    &&& final(self)@.slots == old(self)@.slots.update(link.place() as int, None)
                    &&& link.place() != old(self)@.first ==> final(self)@.first
                        == old(self)@.first && final(self)@.len == old(self)@.len
                    &&& link.place() == old(self)@.first ==> final(self)@.len + 1
                        == old(self)@.len
                    &&& final(search)@ == ruled_out(
                        old(search)@,
                        old(self)@.slots,
                        link.place() as int,
                    )
                },
                _ => {
                    &&& forall|i: int|
                        0 <= i < N ==> #[trigger] passed_over(
                            *old(pred),
                            old(search)@,
                            old(self)@.slots,
                            i,
                        )
                    &&& final(self)@ == if old(search)@[old(self)@.first as int]
                        == ItemState::Queued {
                        old(self)@.asked_first()
                    } else {
                        old(self)@
                    }
                    &&& final(search)@ == ruled_out(old(search)@, old(self)@.slots, N as int)
                    &&& pass is Exhausted <==> (forall|i: int|
                        0 <= i < N ==> #[trigger] final(search)@[i] == ItemState::False)
                    &&& final(self)@.slots == old(self)@.slots
                    &&& final(self)@.order == old(self)@.order
                },
            },
            final(search)@.len() == N,
            forall|i: int|
                0 <= i < N && old(self)@.slots[i] is None ==> #[trigger] final(search)@[i]
                    == old(search)@[i],
            forall|i: int|
                0 <= i < N && #[trigger] final(search)@[i] != old(search)@[i] ==> {
                    &&& old(search)@[i] == ItemState::Unchecked
                    &&& final(search)@[i] == ItemState::False
                    &&& call_ensures(*old(pred), (&old(self)@.slots[i]->0, i as usize), false)
                },
    {
        let ghost before = self@;
        let ghost states = search@;
        let ghost p = *pred;
        let mut index: usize = 0;
        while index < N
            invariant
                index <= N,
                before == old(self)@,
                states == old(search)@,
                p == *old(pred),
                self.wf(),
                search.wf(),
                before.valid(),
                before.slots.len() == N,
                states.len() == N,
                *pred == p,
                askable(p, states, before.slots),
                search@ == ruled_out(states, before.slots, index as int),
                forall|i: int|
                    0 <= i < N && #[trigger] search@[i] != states[i] ==> {
                        &&& states[i] == ItemState::Unchecked
                        &&& search@[i] == ItemState::False
                        &&& call_ensures(p, (&before.slots[i]->0, i as usize), false)
                    },
                forall|i: int|
                    0 <= i < index ==> #[trigger] passed_over(p, states, before.slots, i),
                self@ == if states[before.first as int] == ItemState::Queued && before.first
                    < index {
                    before.asked_first()
                } else {
                    before
                },
                states[before.first as int] == ItemState::Queued && before.first < index
                    ==> before.order.len() == 0,
            decreases N - index,
        {
            assert(search@[index as int] == states[index as int]);
            match search.states[index] {
                ItemState::False => {},
                ItemState::Unchecked => match self.visit_unchecked(index, pred) {
                    InspectUpgradeResult::Success(link) => {
                        return Pass::Found(link);
                    },
                    InspectUpgradeResult::DidNotUpgrade => {
                        search.rule_out(index);
                    },
                    InspectUpgradeResult::BackOffOrMutex => {
                        search.queue(index);
                    },
                    _ => {},
                },
                ItemState::Queued => {
                    match self.visit_queued(index) {
                        Some(link) => {
                            return Pass::Found(link);
                        },
                        None => {},
                    }
                },
            }
            index = index + 1;
            assert(search@ =~= ruled_out(states, before.slots, index as int));
        }
        if search.exhausted() {
            Pass::Exhausted
        } else {
            Pass::Waiting
        }
    }

    /// Takes the first link, in the order of places, whose value meets the condition; nothing
    /// if all values are there and none meets it. Values beyond the one that is taken are not
    /// asked. With the deque to ourselves there is nobody to wait for, so one of the two must
    /// be the case.
    ///
    /// The contract speaks of conditions without state of their own.
    pub fn predicate_next_wait<F: FnMut(&T, usize) -> bool>(&mut self, pred: F) -> (taken: Option<
        Link<T>,
    >)
        requires
            old(self).wf(),
            askable_in_turn(pred, old(self)@.slots),
            old(self)@.order.len() == N || exists|i: int|
                0 <= i < N && (#[trigger] old(self)@.slots[i]) is Some && !answered(
                    pred,
                    old(self)@.slots,
                    i,
                    false,
                ),
        ensures
            final(self).wf(),
            match taken {
                Some(link) => {
                    &&& link.place() < N
                    &&& link.loose()
                    &&& Some(link.value()) == old(self)@.slots[link.place() as int]
                    &&& answered(pred, old(self)@.slots, link.place() as int, true)
                    &&& call_ensures(pred, (&link.value(), link.place()), true)
                    &&& forall|i: int|
                        0 <= i < link.place() && (#[trigger] old(self)@.slots[i]) is Some
                            ==> call_ensures(pred, (&old(self)@.slots[i]->0, i as usize), false)
                    &&& final(self)@.slots == old(self)@.slots.update(link.place() as int, None)
                    &&& link.place() != old(self)@.first ==> final(self)@.first
                        == old(self)@.first && final(self)@.len == old(self)@.len
                    &&& link.place() == old(self)@.first ==> final(self)@.len + 1
                        == old(self)@.len
                    &&& forall|i: int|
                        0 <= i < link.place() && (#[trigger] old(self)@.slots[i]) is Some
                            ==> answered(pred, old(self)@.slots, i, false)
                    &&& final(self)@ == old(self)@.taking(link.place())
                },
                None => {
                    &&& forall|i: int|
                        0 <= i < N ==> (#[trigger] old(self)@.slots[i]) is Some && answered(
                            pred,
                            old(self)@.slots,
                            i,
                            false,
                        )
                    &&& forall|i: int|
                        0 <= i < N ==> (#[trigger] old(self)@.slots[i]) is Some && call_ensures(
                            pred,
                            (&old(self)@.slots[i]->0, i as usize),
                            false,
                        )
                    &&& final(self)@ == old(self)@
                },
            },
    {
        let mut pred: F = pred;
        let mut search: Search = Search::new(N);
        let ghost before = self@;
        let ghost states = search@;
        let ghost p = pred;
        proof {
            if before.order.len() == N {
                lemma_all_there(before);
            }
            assert forall|i: int|
                #![trigger before.slots[i]]
                0 <= i < before.slots.len() && before.slots[i] is Some && (forall|j: int|
                    0 <= j < i ==> #[trigger] passed_over(
                        p,
                        states,
                        before.slots,
                        j,
                    )) implies call_requires(p, (&before.slots[i]->0, i as usize)) by {
                assert forall|j: int|
                    0 <= j < i && (#[trigger] before.slots[j]) is Some implies answered(
                    p,
                    before.slots,
                    j,
                    false,
                ) by {
                    assert(passed_over(p, states, before.slots, j));
                }
            }
        }
        match self.search_pass(&mut search, &mut pred) {
            Pass::Found(link) => {
                assert forall|i: int|
                    0 <= i < link.place() && (#[trigger] before.slots[i]) is Some implies answered(
                    p,
                    before.slots,
                    i,
                    false,
                ) by {
                    assert(passed_over(p, states, before.slots, i));
                }
                Some(link)
            },
            _ => {
                assert forall|i: int|
                    0 <= i < N && (#[trigger] before.slots[i]) is Some implies answered(
                    p,
                    before.slots,
                    i,
                    false,
                ) by {
                    assert(passed_over(p, states, before.slots, i));
                }
                None
            },
        }
    }
}

/// An order as long as there are places runs through all of them.
pub proof fn lemma_all_there<T>(view: DequeView<T>)
    requires
        view.valid(),
        view.order.len() == view.slots.len(),
    ensures
        forall|i: int| 0 <= i < view.slots.len() ==> (#[trigger] view.slots[i]) is Some,
{
    let places = view.order.to_set();
    let all = Set::new(|x: usize| x < view.slots.len());
    view.order.unique_seq_to_set();
    lemma_places_len(view.slots.len() as usize);
    vstd::set_lib::lemma_subset_equality(places, all);
    assert forall|i: int| 0 <= i < view.slots.len() implies (#[trigger] view.slots[i]) is Some by {
        assert(all.contains(i as usize));
        assert(places.contains(i as usize));
    }
}

/// There are `n` places below `n`.
pub proof fn lemma_places_len(n: usize)
    ensures
        Set::new(|x: usize| x < n).finite(),
        Set::new(|x: usize| x < n).len() == n,
    decreases n,
{
    let all = Set::new(|x: usize| x < n);
    if n == 0 {
        assert(all =~= Set::empty());
    } else {
        let m = (n - 1) as usize;
        lemma_places_len(m);
        assert(all =~= Set::new(|x: usize| x < m).insert(m));
    }
}

/// Places next to each other are positions next to each other.
proof fn lemma_places(k: int, n: int)
    requires
        0 <= k < n,
    ensures
        next_place(k, n) == succ(k, n),
        prev_place(k, n) == pred(k, n),
{
    vstd::arithmetic::div_mod::lemma_small_mod(k as nat, n as nat);
    if k + 1 == n {
        vstd::arithmetic::div_mod::lemma_mod_self_0(n);
    } else {
        vstd::arithmetic::div_mod::lemma_small_mod((k + 1) as nat, n as nat);
    }
    if k == 0 {
        vstd::arithmetic::div_mod::lemma_mod_add_multiples_vanish(-1, n);
        vstd::arithmetic::div_mod::lemma_small_mod((n - 1) as nat, n as nat);
    } else {
        vstd::arithmetic::div_mod::lemma_small_mod((k - 1) as nat, n as nat);
    }
}

} // verus!
