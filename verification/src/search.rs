//! A search for a link whose value meets a condition: what is known of each place so far.
use vstd::prelude::*;
use crate::link::Link;

verus! {

/// What a search knows of one place.
#[derive(Copy, Clone, Debug, PartialEq, Eq, Structural)]
pub enum ItemState {
    /// Its value does not meet the condition.
    False,
    /// Its value meets the condition, but could not be had.
    Queued,
    /// Its value was not seen yet.
    Unchecked,
}

/// What a search knows of all places, and how many of them do not meet the condition.
pub struct Search {
    pub(crate) states: Vec<ItemState>,
    pub(crate) checked_count: usize,
}

/// How many places do not meet the condition.
pub open spec fn count_false(states: Seq<ItemState>) -> nat
    decreases states.len(),
{
    if states.len() == 0 {
        0
    } else {
        count_false(states.drop_last()) + if states.last() == ItemState::False {
            1nat
        } else {
            0nat
        }
    }
}

/// The states after the values at the places before `upto` were seen and did not meet the
/// condition.
pub open spec fn ruled_out<T>(
    states: Seq<ItemState>,
    slots: Seq<Option<T>>,
    upto: int,
) -> Seq<ItemState> {
    Seq::new(
        states.len(),
        |i: int|
            if i < upto && states[i] == ItemState::Unchecked && slots[i] is Some {
                ItemState::False
            } else {
                states[i]
            },
    )
}

impl View for Search {
    type V = Seq<ItemState>;

    open(crate) spec fn view(&self) -> Seq<ItemState> {
        self.states@
    }
}

impl Search {
    /// The count is that of the places that do not meet the condition.
    pub open(crate) spec fn wf(&self) -> bool {
        self.checked_count == count_false(self.states@)
    }

    /// A search of `n` places that has seen none.
    pub fn new(n: usize) -> (search: Search)
        ensures
            search.wf(),
            search@ == Seq::new(n as nat, |i: int| ItemState::Unchecked),
    {
        let mut states: Vec<ItemState> = Vec::new();
        let mut i: usize = 0;
        while i < n
            invariant
                i <= n,
                states@ == Seq::new(i as nat, |j: int| ItemState::Unchecked),
                count_false(states@) == 0,
            decreases n - i,
        {
            let ghost before = states@;
            states.push(ItemState::Unchecked);
            i = i + 1;
            assert(states@.drop_last() =~= before);
        }
        Search { states, checked_count: 0 }
    }

    /// Notes that the value at place `index`, not ruled out before, does not meet the
    /// condition.
    pub(crate) fn rule_out(&mut self, index: usize)
        requires
            old(self).wf(),
            index < old(self)@.len(),
            old(self)@[index as int] != ItemState::False,
        ensures
            final(self).wf(),
            final(self)@ == old(self)@.update(index as int, ItemState::False),
    {
        proof {
            lemma_count_update(self.states@, index as int);
            lemma_count_bound(self.states@.update(index as int, ItemState::False));
            assert(self.states.len() == self.states@.len());
        }
        self.checked_count = self.checked_count + 1;
        self.states[index] = ItemState::False;
    }

    /// Notes that the value at place `index`, not ruled out before, meets the condition but
    /// could not be had.
    pub fn queue(&mut self, index: usize)
        requires
            old(self).wf(),
            index < old(self)@.len(),
            old(self)@[index as int] != ItemState::False,
        ensures
            final(self).wf(),
            final(self)@ == old(self)@.update(index as int, ItemState::Queued),
    {
        proof {
            lemma_count_unchanged(self.states@, index as int, ItemState::Queued);
        }
        self.states[index] = ItemState::Queued;
    }

    /// All places are known not to meet the condition.
    pub fn exhausted(&self) -> (done: bool)
        requires
            self.wf(),
        ensures
            done == (forall|i: int|
                0 <= i < self@.len() ==> #[trigger] self@[i] == ItemState::False),
    {
        proof {
            lemma_count_bound(self.states@);
        }
        self.checked_count == self.states.len()
    }
}

/// Ruling out one more place raises the count by one.
proof fn lemma_count_update(states: Seq<ItemState>, i: int)
    requires
        0 <= i < states.len(),
        states[i] != ItemState::False,
    ensures
        count_false(states.update(i, ItemState::False)) == count_false(states) + 1,
    decreases states.len(),
{
    let after = states.update(i, ItemState::False);
    if i == states.len() - 1 {
        assert(after.drop_last() =~= states.drop_last());
    } else {
        lemma_count_update(states.drop_last(), i);
        assert(after.drop_last() =~= states.drop_last().update(i, ItemState::False));
    }
}

/// Changing what is known of a place that is not ruled out keeps the count, unless it is ruled
/// out then.
proof fn lemma_count_unchanged(states: Seq<ItemState>, i: int, state: ItemState)
    requires
        0 <= i < states.len(),
        states[i] != ItemState::False,
        state != ItemState::False,
    ensures
        count_false(states.update(i, state)) == count_false(states),
    decreases states.len(),
{
    let after = states.update(i, state);
    if i == states.len() - 1 {
        assert(after.drop_last() =~= states.drop_last());
    } else {
        lemma_count_unchanged(states.drop_last(), i, state);
        assert(after.drop_last() =~= states.drop_last().update(i, state));
    }
}

/// The count is at most the number of places, and equal to it only if all are ruled out.
proof fn lemma_count_bound(states: Seq<ItemState>)
    ensures
        count_false(states) <= states.len(),
        count_false(states) == states.len() <==> (forall|i: int|
            0 <= i < states.len() ==> #[trigger] states[i] == ItemState::False),
    decreases states.len(),
{
    if states.len() > 0 {
        let rest = states.drop_last();
        lemma_count_bound(rest);
        if count_false(states) == states.len() {
            assert forall|i: int| 0 <= i < states.len() implies #[trigger] states[i]
                == ItemState::False by {
                if i < rest.len() {
                    assert(rest[i] == states[i]);
                }
            }
        }
        if forall|i: int| 0 <= i < states.len() ==> #[trigger] states[i] == ItemState::False {
            assert forall|i: int| 0 <= i < rest.len() implies #[trigger] rest[i]
                == ItemState::False by {
                assert(states[i] == ItemState::False);
            }
        }
    }
}

/// What one pass over all places came to.
pub enum Pass<T> {
    /// This link was taken.
    Found(Link<T>),
    /// All values were seen, and none meets the condition.
    Exhausted,
    /// No link could be taken, and some values are not ruled out: wait until a link is put
    /// back, then pass again.
    Waiting,
}

/// Asked of the value at place `i`, the condition gave `answer`.
pub open spec fn answered<T, F: FnMut(&T, usize) -> bool>(
    pred: F,
    slots: Seq<Option<T>>,
    i: int,
    answer: bool,
) -> bool {
    call_ensures(pred, (&slots[i]->0, i as usize), answer)
}

/// The place `i` is not to be taken: its value is not there, or was ruled out before, or is
/// seen for the first time and does not meet the condition.
pub open spec fn passed_over<T, F: FnMut(&T, usize) -> bool>(
    pred: F,
    states: Seq<ItemState>,
    slots: Seq<Option<T>>,
    i: int,
) -> bool {
    ||| slots[i] is None
    ||| states[i] == ItemState::False
    ||| states[i] == ItemState::Unchecked && answered(pred, slots, i, false)
}

/// The place `i` is to be taken: its value is there and is known to meet the condition, or
/// is seen for the first time and meets it.
pub open spec fn picked<T, F: FnMut(&T, usize) -> bool>(
    pred: F,
    states: Seq<ItemState>,
    slots: Seq<Option<T>>,
    i: int,
) -> bool {
    &&& slots[i] is Some
    &&& states[i] == ItemState::Queued || states[i] == ItemState::Unchecked && answered(
        pred,
        slots,
        i,
        true,
    )
}

/// The condition can be asked of the values that a pass may come to ask it of: those that are
/// there and were not seen yet, as long as every place before was passed over. It need not be
/// asked of a value that was queued or ruled out, nor of one behind a value that is taken.
pub open spec fn askable<T, F: FnMut(&T, usize) -> bool>(
    pred: F,
    states: Seq<ItemState>,
    slots: Seq<Option<T>>,
) -> bool {
    forall|i: int|
        #![trigger slots[i]]
        0 <= i < slots.len() && slots[i] is Some && states[i] == ItemState::Unchecked
            && (forall|j: int| 0 <= j < i ==> #[trigger] passed_over(pred, states, slots, j))
            ==> call_requires(pred, (&slots[i]->0, i as usize))
}

/// The condition can be asked of every value that is there, as long as each value before may
/// answer false.
pub open spec fn askable_in_turn<T, F: FnMut(&T, usize) -> bool>(
    pred: F,
    slots: Seq<Option<T>>,
) -> bool {
    forall|i: int|
        #![trigger slots[i]]
        0 <= i < slots.len() && slots[i] is Some && (forall|j: int|
            0 <= j < i && (#[trigger] slots[j]) is Some ==> answered(pred, slots, j, false))
            ==> call_requires(pred, (&slots[i]->0, i as usize))
}

/// A pass over the first `upto` places rules out the values that were there and not seen
/// before, and leaves what is known of every other place as it was: of one whose value is
/// handed out, of one that was queued or ruled out, and of one not come to.
pub proof fn law_pass_rules_out_only_what_it_saw<T>(
    states: Seq<ItemState>,
    slots: Seq<Option<T>>,
    upto: int,
    i: int,
)
    requires
        states.len() == slots.len(),
        0 <= upto <= slots.len(),
        0 <= i < slots.len(),
    ensures
        ruled_out(states, slots, upto).len() == states.len(),
        slots[i] is None ==> ruled_out(states, slots, upto)[i] == states[i],
        states[i] != ItemState::Unchecked ==> ruled_out(states, slots, upto)[i] == states[i],
        upto <= i ==> ruled_out(states, slots, upto)[i] == states[i],
        i < upto && slots[i] is Some && states[i] == ItemState::Unchecked ==> ruled_out(
            states,
            slots,
            upto,
        )[i] == ItemState::False,
{
}

/// A search that has seen nothing and passes over all places is at its end only if every
/// place has its value and the condition answered false of each. If any value is handed out,
/// it is not: that place is still to be seen.
pub proof fn law_fresh_search_waits_for_what_is_handed_out<T, F: FnMut(&T, usize) -> bool>(
    pred: F,
    states: Seq<ItemState>,
    slots: Seq<Option<T>>,
)
    requires
        states.len() == slots.len(),
        forall|i: int|
            0 <= i < states.len() ==> #[trigger] states[i] == ItemState::Unchecked,
        forall|i: int| 0 <= i < slots.len() ==> #[trigger] passed_over(pred, states, slots, i),
    ensures
        ({
            let after = ruled_out(states, slots, slots.len() as int);
            &&& (forall|i: int| 0 <= i < slots.len() ==> #[trigger] after[i] == ItemState::False)
                <==> (forall|i: int| 0 <= i < slots.len() ==> (#[trigger] slots[i]) is Some)
            &&& forall|i: int|
                0 <= i < slots.len() && (#[trigger] slots[i]) is Some ==> call_ensures(
                    pred,
                    (&slots[i]->0, i as usize),
                    false,
                )
            &&& forall|i: int|
                0 <= i < slots.len() && slots[i] is None ==> #[trigger] after[i]
                    == ItemState::Unchecked
        }),
{
    let after = ruled_out(states, slots, slots.len() as int);
    assert forall|i: int| 0 <= i < slots.len() implies (#[trigger] after[i] == ItemState::False
        <==> slots[i] is Some) by {
        assert(states[i] == ItemState::Unchecked);
    }
    assert forall|i: int|
        0 <= i < slots.len() && (#[trigger] slots[i]) is Some implies call_ensures(
        pred,
        (&slots[i]->0, i as usize),
        false,
    ) by {
        assert(passed_over(pred, states, slots, i));
        assert(states[i] == ItemState::Unchecked);
    }
    if forall|i: int| 0 <= i < slots.len() ==> #[trigger] after[i] == ItemState::False {
        assert forall|i: int| 0 <= i < slots.len() implies (#[trigger] slots[i]) is Some by {
            assert(after[i] == ItemState::False);
        }
    }
}

/// What was ruled out in one pass stays so in the next, whatever values are there then, and
/// what was handed out in the first and is back in the second is seen in the second.
pub proof fn law_passes_see_each_value_once<T>(
    states: Seq<ItemState>,
    earlier: Seq<Option<T>>,
    later: Seq<Option<T>>,
    i: int,
)
    requires
        states.len() == earlier.len(),
        states.len() == later.len(),
        0 <= i < states.len(),
        states[i] == ItemState::Unchecked,
    ensures
        ({
            let n = states.len() as int;
            let once = ruled_out(states, earlier, n);
            let twice = ruled_out(once, later, n);
            &&& earlier[i] is Some ==> once[i] == ItemState::False && twice[i] == ItemState::False
            &&& earlier[i] is None ==> once[i] == ItemState::Unchecked
            &&& earlier[i] is None && later[i] is Some ==> twice[i] == ItemState::False
            &&& earlier[i] is None && later[i] is None ==> twice[i] == ItemState::Unchecked
        }),
{
}

/// A place that a pass goes by has no value to take, or one that was ruled out or is now: a
/// queued value that is there is never gone by. A place that it takes from has a value that
/// was not ruled out, and if it was not queued, the condition answers true of it.
pub proof fn law_passing_and_picking<T, F: FnMut(&T, usize) -> bool>(
    pred: F,
    states: Seq<ItemState>,
    slots: Seq<Option<T>>,
    i: int,
)
    requires
        states.len() == slots.len(),
        0 <= i < slots.len(),
    ensures
        passed_over(pred, states, slots, i) && slots[i] is Some ==> states[i] != ItemState::Queued,
        passed_over(pred, states, slots, i) && slots[i] is Some && states[i]
            == ItemState::Unchecked ==> call_ensures(pred, (&slots[i]->0, i as usize), false),
        slots[i] is None || states[i] == ItemState::False ==> passed_over(pred, states, slots, i),
        picked(pred, states, slots, i) ==> slots[i] is Some && states[i] != ItemState::False,
        picked(pred, states, slots, i) && states[i] == ItemState::Unchecked ==> call_ensures(
            pred,
            (&slots[i]->0, i as usize),
            true,
        ),
        slots[i] is Some && states[i] == ItemState::Queued ==> picked(pred, states, slots, i),
{
}

/// For a condition that answers one way only, the ring and what is known determine which
/// place is taken from: it is the first whose value is to be had.
pub proof fn law_one_place_is_picked<T, F: FnMut(&T, usize) -> bool>(
    pred: F,
    states: Seq<ItemState>,
    slots: Seq<Option<T>>,
    i: int,
    j: int,
)
    requires
        states.len() == slots.len(),
        forall|k: int|
            0 <= k < slots.len() && (#[trigger] slots[k]) is Some ==> !(call_ensures(
                pred,
                (&slots[k]->0, k as usize),
                true,
            ) && call_ensures(pred, (&slots[k]->0, k as usize), false)),
        0 <= i < slots.len(),
        0 <= j < slots.len(),
        picked(pred, states, slots, i),
        picked(pred, states, slots, j),
        forall|k: int| 0 <= k < i ==> #[trigger] passed_over(pred, states, slots, k),
        forall|k: int| 0 <= k < j ==> #[trigger] passed_over(pred, states, slots, k),
    ensures
        i == j,
{
    if i < j {
        assert(passed_over(pred, states, slots, i));
        assert(slots[i] is Some);
    } else if j < i {
        assert(passed_over(pred, states, slots, j));
        assert(slots[j] is Some);
    }
}

/// A pass asks nothing behind a place that it does not go by: the condition need not be
/// askable there. Nor need it be of a value that is not there, was queued or was ruled out.
pub proof fn law_asking_stops_at_the_match<T, F: FnMut(&T, usize) -> bool>(
    pred: F,
    states: Seq<ItemState>,
    slots: Seq<Option<T>>,
    stop: int,
)
    requires
        states.len() == slots.len(),
        0 <= stop <= slots.len(),
        stop < slots.len() ==> !passed_over(pred, states, slots, stop),
        forall|i: int|
            0 <= i <= stop && i < slots.len() && states[i] == ItemState::Unchecked && (
            #[trigger] slots[i]) is Some ==> call_requires(pred, (&slots[i]->0, i as usize)),
    ensures
        askable(pred, states, slots),
{
}

/// A search that has seen nothing asks nothing behind the first value of which the condition
/// cannot answer false.
pub proof fn law_asking_afresh_stops_at_the_match<T, F: FnMut(&T, usize) -> bool>(
    pred: F,
    slots: Seq<Option<T>>,
    stop: int,
)
    requires
        0 <= stop <= slots.len(),
        stop < slots.len() ==> slots[stop] is Some && !call_ensures(
            pred,
            (&slots[stop]->0, stop as usize),
            false,
        ),
        forall|i: int|
            0 <= i <= stop && i < slots.len() && (#[trigger] slots[i]) is Some ==> call_requires(
                pred,
                (&slots[i]->0, i as usize),
            ),
    ensures
        askable_in_turn(pred, slots),
{
}

} // verus!
