//! What holds of a deque over several calls.
use vstd::prelude::*;
use crate::deque::{lemma_all_there, lemma_places_len, DequeView};

verus! {

impl<T> DequeView<T> {
    /// The count is the number of values that are there.
    pub open spec fn exact(self) -> bool {
        self.len == self.order.len()
    }

    /// The value at place `place` could be put back now.
    pub open spec fn has_room(self, place: usize) -> bool {
        &&& place < self.slots.len()
        &&& self.slots[place as int] is None
        &&& self.len > 0 ==> self.order.len() > 0
    }

    /// What the deque is after the first in line was asked for `k` times.
    pub open spec fn asked_times(self, k: nat) -> DequeView<T>
        decreases k,
    {
        if k == 0 {
            self
        } else {
            self.asked_times((k - 1) as nat).asked_first()
        }
    }

    /// What the deque is after the first in line was taken and put back.
    pub open spec fn round(self) -> DequeView<T> {
        self.taking(self.first).depositing(self.first, self.slots[self.first as int]->0)
    }

    /// What the deque is after `k` such rounds.
    pub open spec fn rounds(self, k: nat) -> DequeView<T>
        decreases k,
    {
        if k == 0 {
            self
        } else {
            self.rounds((k - 1) as nat).round()
        }
    }
}

/// Where the place `i` is in line.
proof fn lemma_position<T>(view: DequeView<T>, i: usize)
    requires
        view.valid(),
        i < view.slots.len(),
        view.slots[i as int] is Some,
    ensures
        0 <= view.order.index_of(i) < view.order.len(),
        view.order[view.order.index_of(i)] == i,
        i == view.first <==> view.order.index_of(i) == 0,
{
    assert(view.order.contains(i));
}

/// A full deque is valid, and its count is exact.
pub proof fn law_full_is_valid<T>(values: Seq<T>)
    requires
        0 < values.len() <= usize::MAX,
    ensures
        DequeView::full(values).valid(),
        DequeView::full(values).exact(),
{
    let view = DequeView::full(values);
    assert forall|i: int| 0 <= i < view.slots.len() implies (#[trigger] view.slots[i] is Some
        <==> view.order.contains(i as usize)) by {
        assert(view.order[i] == i);
    }
}

/// Taking a value that is there keeps the deque valid; the value is gone, and no other is.
pub proof fn law_taking_takes_one<T>(view: DequeView<T>, i: usize)
    requires
        view.valid(),
        i < view.slots.len(),
        view.slots[i as int] is Some,
    ensures
        view.taking(i).valid(),
        view.taking(i).slots[i as int] is None,
        view.taking(i).order.len() == view.order.len() - 1,
        forall|j: int|
            0 <= j < view.slots.len() && j != i ==> #[trigger] view.taking(i).slots[j]
                == view.slots[j],
{
    let k = view.order.index_of(i);
    lemma_position(view, i);
    let rest = view.order.remove(k);
    let after = view.taking(i);
    assert forall|j: int| 0 <= j < after.slots.len() implies (#[trigger] after.slots[j] is Some
        <==> rest.contains(j as usize)) by {
        if view.order.contains(j as usize) && j != i {
            let m = view.order.index_of(j as usize);
            if m < k {
                assert(rest[m] == j);
            } else {
                assert(rest[m - 1] == j);
            }
        }
        if rest.contains(j as usize) {
            let m = rest.index_of(j as usize);
            if m < k {
                assert(view.order[m] == j);
            } else {
                assert(view.order[m + 1] == j);
            }
            assert(view.slots[j] is Some);
        }
    }
}

/// Putting a value into a place that has room keeps the deque valid; the value is there, and
/// no other changes.
pub proof fn law_depositing_adds_one<T>(view: DequeView<T>, place: usize, value: T)
    requires
        view.valid(),
        view.has_room(place),
    ensures
        view.depositing(place, value).valid(),
        view.depositing(place, value).slots[place as int] == Some(value),
        view.depositing(place, value).order.len() == view.order.len() + 1,
        forall|j: int|
            0 <= j < view.slots.len() && j != place ==> #[trigger] view.depositing(
                place,
                value,
            ).slots[j] == view.slots[j],
{
    let after = view.depositing(place, value);
    assert(!view.order.contains(place));
    assert(forall|m: int| 0 <= m < view.order.len() ==> view.order[m] != place);
    assert forall|j: int| 0 <= j < after.slots.len() implies (#[trigger] after.slots[j] is Some
        <==> after.order.contains(j as usize)) by {
        if view.len == 0 {
            assert(after.order[0] == place);
            assert(view.slots[j] is None);
        } else {
            assert(after.order[1] == place);
            if view.order.contains(j as usize) {
                let m = view.order.index_of(j as usize);
                if m < 1 {
                    assert(after.order[m] == j);
                } else {
                    assert(after.order[m + 1] == j);
                }
            }
            if after.order.contains(j as usize) && j != place {
                let m = after.order.index_of(j as usize);
                if m < 1 {
                    assert(view.order[m] == j);
                } else {
                    assert(view.order[m - 1] == j);
                }
                assert(view.slots[j] is Some);
            }
        }
    }
}

/// A value that is handed out is not first in line, so that it is not handed out again
/// before it is put back.
pub proof fn law_taken_is_not_taken_again<T>(view: DequeView<T>, i: usize)
    requires
        view.valid(),
        i < view.slots.len(),
        view.slots[i as int] is None,
    ensures
        !view.order.contains(i),
        view.order.len() > 0 ==> view.first != i,
        view.asked_first().slots[i as int] is None,
        forall|j: usize|
            j < view.slots.len() ==> (#[trigger] view.taking(j)).slots[i as int] is None,
{
    if view.order.len() > 0 {
        assert(view.order.contains(view.order[0]));
    }
}

/// A value put into a deque whose count is nought is the next to be taken.
pub proof fn law_deposited_alone_is_next<T>(view: DequeView<T>, place: usize, value: T)
    requires
        view.valid(),
        view.has_room(place),
        view.len == 0,
    ensures
        view.depositing(place, value).order.len() > 0,
        view.depositing(place, value).first == place,
        view.depositing(place, value).slots[place as int] == Some(value),
{
}

/// A value put into a deque that has others is taken right after the one that is first in
/// line.
pub proof fn law_deposited_is_next_but_one<T>(view: DequeView<T>, place: usize, value: T)
    requires
        view.valid(),
        view.has_room(place),
        view.len > 0,
    ensures
        view.depositing(place, value).first == view.first,
        view.depositing(place, value).asked_first().order.len() > 0,
        view.depositing(place, value).asked_first().first == place,
        view.depositing(place, value).asked_first().slots[place as int] == Some(value),
{
    let after = view.depositing(place, value);
    law_depositing_adds_one(view, place, value);
    assert(after.order[0] == view.first);
    assert(after.order[1] == place);
    assert(after.slots[view.first as int] is Some) by {
        assert(view.order.contains(view.first));
    }
    lemma_position(after, view.first);
    assert(after.order_without(view.first)[0] == place);
}

/// The count stays exact as long as links are only taken as the first in line and put back.
pub proof fn law_count_stays_exact<T>(view: DequeView<T>, place: usize, value: T)
    requires
        view.valid(),
        view.exact(),
    ensures
        view.asked_first().exact(),
        view.has_room(place) ==> view.depositing(place, value).exact(),
{
    if view.order.len() > 0 {
        assert(view.order.contains(view.first));
        law_taking_takes_one(view, view.first);
    }
    if view.has_room(place) {
        law_depositing_adds_one(view, place, value);
    }
}

/// Taking a link that is not the first in line leaves the count one too high.
pub proof fn law_taking_out_of_line_overcounts<T>(view: DequeView<T>, i: usize)
    requires
        view.valid(),
        i < view.slots.len(),
        view.slots[i as int] is Some,
        i != view.first,
    ensures
        view.taking(i).len - view.taking(i).order.len() == view.len - view.order.len() + 1,
{
    law_taking_takes_one(view, i);
}

/// There are never more values in line than places, and as many only if all are there.
pub proof fn law_no_more_than_places<T>(view: DequeView<T>)
    requires
        view.valid(),
    ensures
        view.order.len() <= view.slots.len(),
        view.order.len() == view.slots.len() <==> (forall|i: int|
            0 <= i < view.slots.len() ==> (#[trigger] view.slots[i]) is Some),
{
    let places = view.order.to_set();
    let all = Set::new(|x: usize| x < view.slots.len());
    view.order.unique_seq_to_set();
    lemma_places_len(view.slots.len() as usize);
    vstd::set_lib::lemma_len_subset(places, all);
    if view.order.len() == view.slots.len() {
        lemma_all_there(view);
    }
    if forall|i: int| 0 <= i < view.slots.len() ==> (#[trigger] view.slots[i]) is Some {
        assert forall|x: usize| #[trigger] all.contains(x) implies places.contains(x) by {
            assert(view.slots[x as int] is Some);
        }
        assert(places =~= all);
    }
}

/// A full deque gives its values out in the order of their places, each once, and then has
/// none.
pub proof fn law_full_deque_drains_in_order<T>(values: Seq<T>, k: nat)
    requires
        0 < values.len() <= usize::MAX,
        k <= values.len(),
    ensures
        ({
            let view = DequeView::full(values).asked_times(k);
            &&& view.valid()
            &&& view.order == Seq::new(
                (values.len() - k) as nat,
                |i: int| (k + i) as usize,
            )
            &&& view.slots == Seq::new(
                values.len(),
                |i: int|
                    if i < k {
                        None
                    } else {
                        Some(values[i])
                    },
            )
            &&& view.len == values.len() - k
            &&& k < values.len() ==> view.first == k
        }),
    decreases k,
{
    if k == 0 {
        law_full_is_valid(values);
        let view = DequeView::full(values);
        assert(view.order =~= Seq::new((values.len() - k) as nat, |i: int| (k + i) as usize));
        assert(view.slots =~= Seq::new(
            values.len(),
            |i: int|
                if i < k {
                    None
                } else {
                    Some(values[i])
                },
        ));
    } else {
        let m = (k - 1) as nat;
        law_full_deque_drains_in_order(values, m);
        let before = DequeView::full(values).asked_times(m);
        let view = DequeView::full(values).asked_times(k);
        assert(view == before.asked_first());
        assert(before.first == m);
        law_taking_takes_one(before, m as usize);
        lemma_position(before, m as usize);
        assert(view.order =~= Seq::new((values.len() - k) as nat, |i: int| (k + i) as usize));
        assert(view.slots =~= Seq::new(
            values.len(),
            |i: int|
                if i < k {
                    None
                } else {
                    Some(values[i])
                },
        ));
    }
}

/// Taking the first in line and putting it back leaves every value and the count as they
/// were, and moves the link behind the one that is first now. It does not hold of a deque
/// that has one value and a count above one: there the value cannot be put back.
pub proof fn law_round_loses_nothing<T>(view: DequeView<T>)
    requires
        view.valid(),
        view.order.len() > 1 || view.order.len() == 1 && view.len == 1,
    ensures
        view.taking(view.first).has_room(view.first),
        view.round().valid(),
        view.round().slots == view.slots,
        view.round().len == view.len,
        view.order.len() == 1 ==> view.round() == view,
        view.order.len() > 1 ==> view.round().order == view.order.update(
            0,
            view.order[1],
        ).update(1, view.order[0]),
{
    let first = view.first;
    assert(view.order.contains(first));
    lemma_position(view, first);
    law_taking_takes_one(view, first);
    law_depositing_adds_one(view.taking(first), first, view.slots[first as int]->0);
    assert(view.round().slots =~= view.slots);
    if view.order.len() == 1 {
        assert(view.round().order =~= view.order);
        assert(view.round() =~= view);
    } else {
        assert(view.round().order =~= view.order.update(0, view.order[1]).update(
            1,
            view.order[0],
        ));
    }
}

/// Any number of rounds leaves every value and the count as they were.
pub proof fn law_rounds_lose_nothing<T>(view: DequeView<T>, k: nat)
    requires
        view.valid(),
        view.order.len() > 1 || view.order.len() == 1 && view.len == 1,
    ensures
        view.rounds(k).valid(),
        view.rounds(k).slots == view.slots,
        view.rounds(k).order.len() == view.order.len(),
        view.rounds(k).len == view.len,
    decreases k,
{
    if k > 0 {
        law_rounds_lose_nothing(view, (k - 1) as nat);
        law_round_loses_nothing(view.rounds((k - 1) as nat));
    }
}

impl<T> DequeView<T> {
    /// The place `a` comes before the place `b` in line.
    pub open spec fn ahead(self, a: usize, b: usize) -> bool {
        exists|p: int, q: int|
            #![trigger self.order[p], self.order[q]]
            0 <= p < q < self.order.len() && self.order[p] == a && self.order[q] == b
    }
}

/// A new deque has every value at its own place, the places in line by number, and a count
/// of as many.
pub proof fn law_full_is_in_line_by_place<T>(values: Seq<T>)
    requires
        0 < values.len() <= usize::MAX,
    ensures
        ({
            let view = DequeView::full(values);
            &&& view.slots.len() == values.len()
            &&& view.len == values.len()
            &&& view.first == 0
            &&& forall|i: int|
                0 <= i < values.len() ==> #[trigger] view.slots[i] == Some(values[i])
            &&& forall|a: usize| #[trigger] view.order.contains(a) <==> a < values.len()
            &&& forall|a: usize, b: usize| #[trigger]
                view.ahead(a, b) <==> a < b < values.len()
        }),
{
    let view = DequeView::full(values);
    assert forall|a: usize| #[trigger] view.order.contains(a) <==> a < values.len() by {
        if a < values.len() {
            assert(view.order[a as int] == a);
        }
    }
    assert forall|a: usize, b: usize| #[trigger] view.ahead(a, b) <==> a < b < values.len() by {
        if a < b < values.len() {
            assert(view.order[a as int] == a && view.order[b as int] == b);
        }
    }
}

/// Leaving one entry out of a sequence without repetition keeps the others in their order.
proof fn lemma_precedence_without<T>(before: DequeView<T>, after: DequeView<T>, k: int)
    requires
        before.order.no_duplicates(),
        0 <= k < before.order.len(),
        after.order == before.order.remove(k),
    ensures
        forall|a: usize, b: usize| #[trigger]
            after.ahead(a, b) <==> before.ahead(a, b) && a != before.order[k] && b
                != before.order[k],
        forall|a: usize| #[trigger]
            after.order.contains(a) <==> before.order.contains(a) && a != before.order[k],
{
    let i = before.order[k];
    assert forall|a: usize, b: usize| #[trigger]
        after.ahead(a, b) <==> before.ahead(a, b) && a != i && b != i by {
        if after.ahead(a, b) {
            let (p, q) = choose|p: int, q: int|
                #![trigger after.order[p], after.order[q]]
                0 <= p < q < after.order.len() && after.order[p] == a && after.order[q] == b;
            let p0 = if p < k {
                p
            } else {
                p + 1
            };
            let q0 = if q < k {
                q
            } else {
                q + 1
            };
            assert(before.order[p0] == a && before.order[q0] == b);
        }
        if before.ahead(a, b) && a != i && b != i {
            let (p, q) = choose|p: int, q: int|
                #![trigger before.order[p], before.order[q]]
                0 <= p < q < before.order.len() && before.order[p] == a && before.order[q] == b;
            let p1 = if p < k {
                p
            } else {
                p - 1
            };
            let q1 = if q < k {
                q
            } else {
                q - 1
            };
            assert(after.order[p1] == a && after.order[q1] == b);
        }
    }
    assert forall|a: usize| #[trigger]
        after.order.contains(a) <==> before.order.contains(a) && a != i by {
        if after.order.contains(a) {
            let p = after.order.index_of(a);
            assert(before.order[if p < k {
                p
            } else {
                p + 1
            }] == a);
        }
        if before.order.contains(a) && a != i {
            let p = before.order.index_of(a);
            assert(after.order[if p < k {
                p
            } else {
                p - 1
            }] == a);
        }
    }
}

/// Taking a link keeps the line: the others stand as they stood, one before the other. If the
/// link was not first, who is first and the count stay; if it was, the count goes down by one
/// and the one that all others come after is first. All other values stay where they are.
pub proof fn law_taking_keeps_the_line<T>(view: DequeView<T>, i: usize)
    requires
        view.valid(),
        i < view.slots.len(),
        view.slots[i as int] is Some,
    ensures
        ({
            let after = view.taking(i);
            &&& after.slots.len() == view.slots.len()
            &&& after.slots[i as int] is None
            &&& forall|j: int|
                0 <= j < view.slots.len() && j != i ==> #[trigger] after.slots[j] == view.slots[j]
            &&& forall|a: usize| #[trigger]
                after.order.contains(a) <==> view.order.contains(a) && a != i
            &&& forall|a: usize, b: usize| #[trigger]
                after.ahead(a, b) <==> view.ahead(a, b) && a != i && b != i
            &&& i != view.first ==> after.first == view.first && after.len == view.len
            &&& i == view.first ==> after.len + 1 == view.len
            &&& i == view.first && view.order.len() == 1 ==> after.first == i
            &&& i == view.first && view.order.len() > 1 ==> after.first != i && (forall|a: usize|
                view.order.contains(a) && a != i && a != after.first ==> #[trigger] view.ahead(
                    after.first,
                    a,
                )) && view.order.contains(after.first)
        }),
{
    let k = view.order.index_of(i);
    lemma_position(view, i);
    let after = view.taking(i);
    lemma_precedence_without(view, after, k);
    if i == view.first && view.order.len() > 1 {
        let next = view.order[1];
        assert(view.order.contains(next));
        assert(next != i);
        assert forall|a: usize| view.order.contains(a) && a != i && a != next implies #[trigger]
        view.ahead(next, a) by {
            let q = view.order.index_of(a);
            assert(view.order[1] == next && view.order[q] == a);
        }
    }
}

/// Asking for the first in line takes it if it is there, and it is the one that no other
/// comes before; the others stand as they stood and the count goes down by one. If no value
/// is there, nothing but the count changes, and that only if it is not nought: it goes down
/// by one.
pub proof fn law_asking_takes_the_first<T>(view: DequeView<T>)
    requires
        view.valid(),
    ensures
        ({
            let after = view.asked_first();
            &&& after.len == if view.len > 0 {
                view.len - 1
            } else {
                0
            }
            &&& view.order.len() == 0 ==> after.slots == view.slots && after.order.len() == 0
                && after.first == view.first
            &&& view.order.len() > 0 ==> {
                &&& view.slots[view.first as int] is Some
                &&& after.slots.len() == view.slots.len()
                &&& after.slots[view.first as int] is None
                &&& forall|j: int|
                    0 <= j < view.slots.len() && j != view.first ==> #[trigger] after.slots[j]
                        == view.slots[j]
                &&& forall|a: usize| !#[trigger] view.ahead(a, view.first)
                &&& forall|a: usize, b: usize| #[trigger]
                    after.ahead(a, b) <==> view.ahead(a, b) && a != view.first
            }
        }),
{
    if view.order.len() > 0 {
        assert(view.order.contains(view.first));
        law_taking_keeps_the_line(view, view.first);
        assert forall|a: usize| !#[trigger] view.ahead(a, view.first) by {
            if view.ahead(a, view.first) {
                let (p, q) = choose|p: int, q: int|
                    #![trigger view.order[p], view.order[q]]
                    0 <= p < q < view.order.len() && view.order[p] == a && view.order[q]
                        == view.first;
                assert(view.order[0] == view.order[q]);
            }
        }
    }
}

/// Putting a value into an empty place raises the count by one, however exact that is, and
/// keeps the line: the others stand as they stood. If the count was nought, the value is
/// first; if not, who is first stays, and the value comes right after it and before all
/// others. All other values stay where they are.
pub proof fn law_depositing_keeps_the_line<T>(view: DequeView<T>, place: usize, value: T)
    requires
        view.valid(),
        place < view.slots.len(),
        view.slots[place as int] is None,
        view.len > 0 ==> view.order.len() > 0,
    ensures
        ({
            let after = view.depositing(place, value);
            &&& after.len == view.len + 1
            &&& after.slots.len() == view.slots.len()
            &&& after.slots[place as int] == Some(value)
            &&& forall|j: int|
                0 <= j < view.slots.len() && j != place ==> #[trigger] after.slots[j]
                    == view.slots[j]
            &&& forall|a: usize| #[trigger]
                after.order.contains(a) <==> view.order.contains(a) || a == place
            &&& forall|a: usize, b: usize|
                a != place && b != place ==> (#[trigger] after.ahead(a, b) <==> view.ahead(a, b))
            &&& view.len == 0 ==> after.first == place && after.order.len() == 1
            &&& view.len > 0 ==> {
                &&& after.first == view.first
                &&& after.ahead(view.first, place)
                &&& forall|a: usize|
                    view.order.contains(a) && a != view.first ==> #[trigger] after.ahead(place, a)
            }
        }),
{
    let after = view.depositing(place, value);
    assert(!view.order.contains(place));
    if view.len == 0 {
        assert(view.order.len() == 0);
        assert(after.order[0] == place);
    } else {
        assert(after.order[0] == view.first && after.order[1] == place);
        assert(after.order.remove(1) =~= view.order);
        assert(after.order.no_duplicates()) by {
            assert forall|p: int, q: int|
                0 <= p < after.order.len() && 0 <= q < after.order.len() && p
                    != q implies after.order[p] != after.order[q] by {
                let p0 = if p < 1 {
                    p
                } else {
                    p - 1
                };
                let q0 = if q < 1 {
                    q
                } else {
                    q - 1
                };
                if p == 1 {
                    assert(view.order.contains(view.order[q0]));
                } else if q == 1 {
                    assert(view.order.contains(view.order[p0]));
                } else {
                    assert(view.order[p0] != view.order[q0]);
                }
            }
        }
        lemma_precedence_without(after, view, 1);
        assert forall|a: usize| view.order.contains(a) && a != view.first implies #[trigger]
        after.ahead(place, a) by {
            let q = view.order.index_of(a);
            assert(after.order[1] == place && after.order[q + 1] == a);
        }
        assert(after.order.contains(place));
    }
}

/// A link that was taken out of line and put back has its value where it was, and the count
/// is one higher than before: taking it did not lower the count, and putting it back raised
/// it. It stands right behind the first in line, which is who it was.
pub proof fn law_returning_out_of_line_raises_the_count<T>(view: DequeView<T>, i: usize)
    requires
        view.valid(),
        i < view.slots.len(),
        view.slots[i as int] is Some,
        i != view.first,
    ensures
        ({
            let after = view.taking(i).depositing(i, view.slots[i as int]->0);
            &&& after.slots == view.slots
            &&& after.len == view.len + 1
            &&& after.first == view.first
            &&& forall|a: usize, b: usize|
                a != i && b != i ==> (#[trigger] after.ahead(a, b) <==> view.ahead(a, b))
            &&& forall|a: usize|
                view.order.contains(a) && a != i && a != view.first ==> #[trigger] after.ahead(i, a)
        }),
{
    let value = view.slots[i as int]->0;
    let rest = view.taking(i);
    lemma_position(view, i);
    law_taking_takes_one(view, i);
    law_taking_keeps_the_line(view, i);
    assert(view.order.contains(i) && view.order.contains(view.order[0]));
    assert(rest.order.contains(view.first));
    law_depositing_keeps_the_line(rest, i, value);
    assert(rest.depositing(i, value).slots =~= view.slots);
}

} // verus!
