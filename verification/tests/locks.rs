use atomic_deque::acquisition::{
    compare_exchange, unlock_one, Acquisition, Attempt, LockReturn, Stage,
};
use atomic_deque::inspect::{inspect, inspect_upgrade, InspectUpgradeResult, UpgradeMode};
use atomic_deque::link::Slot;
use atomic_deque::lock_state::{LinkLockState, LockState};
use atomic_deque::locking::{
    lock_three, lock_two, temp_lock_left_right, temp_lock_wait_one, temp_lock_wait_three,
    temp_lock_wait_two, unlock_prev_post,
};
use atomic_deque::relink::{insert_after, insert_unchecked, remove, remove_prelocked};

const FREE: u8 = 0;
const HELD: u8 = 26;
const GONE: u8 = 21;
const POST_TEMP: u8 = 8;
const PREV_TEMP: u8 = 2;

fn ring(n: usize) -> Vec<Slot<u32>> {
    (0..n)
        .map(|i| Slot {
            post: (i + 1) % n,
            prev: (i + n - 1) % n,
            lock_state: FREE,
            index: i,
            data: Some(10 * i as u32),
        })
        .collect()
}

fn words(links: &[Slot<u32>]) -> Vec<u8> {
    links.iter().map(|l| l.lock_state).collect()
}

fn ends(links: &[Slot<u32>]) -> Vec<(usize, usize)> {
    links.iter().map(|l| (l.prev, l.post)).collect()
}

#[test]
fn states_and_their_codes() {
    assert_eq!(LockState::Free.to_u8(), 0b00);
    assert_eq!(LockState::Taken.to_u8(), 0b01);
    assert_eq!(LockState::Temp.to_u8(), 0b10);
    assert_eq!(LockState::from(0b1101), LockState::Taken);
    assert_eq!(LockState::from(0b1110), LockState::Temp);
    assert_eq!(LockState::from(0b1100), LockState::Free);
}

#[test]
fn words_and_their_codes() {
    assert_eq!(LinkLockState::free().to_u8(), FREE);
    assert_eq!(LinkLockState::held().to_u8(), HELD);
    assert_eq!(LinkLockState::gone().to_u8(), GONE);
    for prev in [LockState::Free, LockState::Taken, LockState::Temp] {
        for post in [LockState::Free, LockState::Taken, LockState::Temp] {
            for link_taken in [false, true] {
                let state = LinkLockState { prev, post, link_taken };
                assert_eq!(LinkLockState::from_u8(state.to_u8()), state);
            }
        }
    }
    assert!(LinkLockState::from_u8(32).link_taken);
}

#[test]
fn a_word_is_exchanged_only_for_what_was_expected() {
    let mut word: u8 = 5;
    assert_eq!(compare_exchange(&mut word, 4, 9), Err(5));
    assert_eq!(word, 5);
    assert_eq!(compare_exchange(&mut word, 5, 9), Ok(5));
    assert_eq!(word, 9);
}

#[test]
fn attempts_on_a_word() {
    let mut links = ring(1);
    assert_eq!(links[0].attempt_center(), Attempt::Acquired);
    assert_eq!(links[0].lock_state, HELD);
    assert_eq!(links[0].attempt_center(), Attempt::Taken);
    links[0].lock_state = PREV_TEMP;
    assert!(matches!(links[0].attempt_center(), Attempt::Retry { .. }));
    assert!(matches!(links[0].attempt_prev_side(LockState::Free), Attempt::Retry { .. }));
    assert!(matches!(links[0].attempt_post_side(LockState::Free), Attempt::Retry { .. }));
    assert_eq!(links[0].attempt_post_side(LockState::Temp), Attempt::Acquired);
    assert_eq!(links[0].lock_state, PREV_TEMP | POST_TEMP);
    assert_eq!(links[0].attempt_post_side(LockState::Temp), Attempt::BackOff);
    links[0].release_post_side();
    assert_eq!(links[0].lock_state, PREV_TEMP);
    links[0].release_prev_side();
    assert_eq!(links[0].lock_state, FREE);
    links[0].lock_state = GONE;
    assert_eq!(links[0].attempt_post_side(LockState::Free), Attempt::Taken);
    assert_eq!(links[0].attempt_prev_side(LockState::Free), Attempt::Taken);
    links[0].lock_state = POST_TEMP;
    let seen = LinkLockState::from_u8(POST_TEMP);
    assert_eq!(links[0].attempt_prev_side(LockState::Free), Attempt::Retry { seen });
    assert_eq!(links[0].lock_state, POST_TEMP);
    assert_eq!(links[0].attempt_prev_side(LockState::Temp), Attempt::Acquired);
    assert_eq!(links[0].lock_state, PREV_TEMP | POST_TEMP);
}

#[test]
fn one_link_is_locked_unless_taken() {
    let mut links = ring(2);
    assert_eq!(temp_lock_wait_one(&mut links[0]), Some(()));
    assert_eq!(words(&links), vec![HELD, FREE]);
    assert_eq!(temp_lock_wait_one(&mut links[0]), None);
    unlock_one(&mut links[0]);
    assert_eq!(words(&links), vec![FREE, FREE]);
}

#[test]
fn three_are_locked_and_unlocked() {
    let mut links = ring(4);
    assert_eq!(lock_three(1, &mut links), Some((0, 2)));
    assert_eq!(words(&links), vec![POST_TEMP, HELD, PREV_TEMP, FREE]);
    unlock_prev_post(1, &mut links);
    unlock_one(&mut links[1]);
    assert_eq!(words(&links), vec![FREE; 4]);
}

#[test]
fn three_of_two_lock_the_other_once() {
    let mut links = ring(2);
    assert_eq!(
        temp_lock_wait_three(0, &mut links),
        LockReturn::Success { post: 1, prev: 1 }
    );
    assert_eq!(words(&links), vec![HELD, POST_TEMP]);
}

#[test]
fn three_of_one_lock_the_link_only() {
    let mut links = ring(1);
    assert_eq!(
        temp_lock_wait_three(0, &mut links),
        LockReturn::Success { post: 0, prev: 0 }
    );
    assert_eq!(words(&links), vec![HELD]);
}

#[test]
fn three_back_off_of_the_link_before() {
    let mut links = ring(4);
    links[0].lock_state = POST_TEMP;
    assert_eq!(temp_lock_wait_three(1, &mut links), LockReturn::BackOff);
    assert_eq!(words(&links), vec![POST_TEMP, FREE, FREE, FREE]);
}

#[test]
fn three_share_the_link_before_with_its_other_side() {
    let mut links = ring(4);
    links[0].lock_state = PREV_TEMP;
    assert_eq!(
        temp_lock_wait_three(1, &mut links),
        LockReturn::Success { post: 2, prev: 0 }
    );
    assert_eq!(links[0].lock_state, PREV_TEMP | POST_TEMP);
}

#[test]
fn three_share_the_link_after_with_its_other_side() {
    let mut links = ring(4);
    links[2].lock_state = POST_TEMP;
    assert_eq!(
        temp_lock_wait_three(1, &mut links),
        LockReturn::Success { post: 2, prev: 0 }
    );
    assert_eq!(words(&links), vec![POST_TEMP, HELD, PREV_TEMP | POST_TEMP, FREE]);
    unlock_prev_post(1, &mut links);
    unlock_one(&mut links[1]);
    assert_eq!(words(&links), vec![FREE, FREE, POST_TEMP, FREE]);
}

#[test]
fn two_share_the_link_after_with_its_other_side() {
    let mut links = ring(3);
    links[1].lock_state = POST_TEMP;
    assert_eq!(lock_two(0, &mut links), Some(1));
    assert_eq!(words(&links), vec![POST_TEMP, PREV_TEMP | POST_TEMP, FREE]);
}

#[test]
fn three_give_up_when_a_neighbour_or_the_link_is_taken() {
    for taken in 0..3 {
        let mut links = ring(4);
        links[taken].lock_state = GONE;
        let before = words(&links);
        assert_eq!(temp_lock_wait_three(1, &mut links), LockReturn::WaitOnMutex);
        assert_eq!(words(&links), before);
        assert_eq!(lock_three(1, &mut links), None);
    }
}

#[test]
fn neighbours_of_a_held_link_are_locked_or_the_link_is_freed() {
    let mut links = ring(3);
    links[1].lock_state = HELD;
    assert_eq!(
        temp_lock_left_right(1, &mut links),
        LockReturn::Success { post: 2, prev: 0 }
    );
    assert_eq!(words(&links), vec![POST_TEMP, HELD, PREV_TEMP]);

    let mut links = ring(3);
    links[1].lock_state = HELD;
    links[2].lock_state = GONE;
    assert_eq!(temp_lock_left_right(1, &mut links), LockReturn::WaitOnMutex);
    assert_eq!(words(&links), vec![FREE, FREE, GONE]);
}

#[test]
fn two_are_locked() {
    let mut links = ring(3);
    assert_eq!(lock_two(0, &mut links), Some(1));
    assert_eq!(words(&links), vec![POST_TEMP, PREV_TEMP, FREE]);

    let mut alone = ring(1);
    assert_eq!(
        temp_lock_wait_two(0, &mut alone),
        LockReturn::Success { post: 0, prev: 0 }
    );
    assert_eq!(words(&alone), vec![POST_TEMP]);
}

#[test]
fn two_back_off_or_give_up() {
    let mut links = ring(3);
    links[0].lock_state = POST_TEMP;
    assert_eq!(temp_lock_wait_two(0, &mut links), LockReturn::BackOff);
    assert_eq!(words(&links), vec![POST_TEMP, FREE, FREE]);

    let mut links = ring(3);
    links[1].lock_state = GONE;
    assert_eq!(lock_two(0, &mut links), None);
    assert_eq!(words(&links), vec![FREE, GONE, FREE]);

    let mut links = ring(3);
    links[0].lock_state = GONE;
    assert_eq!(lock_two(0, &mut links), None);
}

#[test]
fn two_acquisitions_in_turns() {
    let mut links = ring(3);
    let mut a = Acquisition::three(0);
    let mut b = Acquisition::three(1);
    a = a.step(&mut links);
    b = b.step(&mut links);
    assert_eq!(words(&links), vec![HELD, HELD, FREE]);
    a = a.step(&mut links);
    b = b.step(&mut links);
    a = a.step(&mut links);
    assert_eq!(a.stage, Stage::Post { prev: 2, post: 1, guess: LockState::Free });
    a = a.step(&mut links);
    assert_eq!(a.stage, Stage::Post { prev: 2, post: 1, guess: LockState::Temp });
    let waiting = a;
    a = a.step(&mut links);
    assert_eq!(a, waiting);
    b = b.step(&mut links);
    b = b.step(&mut links);
    assert_eq!(b.stage, Stage::Done { outcome: LockReturn::WaitOnMutex });
    assert_eq!(words(&links), vec![HELD, FREE, POST_TEMP]);
    a = a.step(&mut links);
    assert_eq!(a.stage, Stage::Post { prev: 2, post: 1, guess: LockState::Free });
    a = a.step(&mut links);
    assert_eq!(a.stage, Stage::Done { outcome: LockReturn::Success { post: 1, prev: 2 } });
    assert_eq!(words(&links), vec![HELD, PREV_TEMP, POST_TEMP]);
}

#[test]
fn an_acquisition_that_backed_off_starts_over() {
    let mut links = ring(3);
    links[2].lock_state = POST_TEMP;
    let mut a = Acquisition::three(0);
    for _ in 0..4 {
        a = a.step(&mut links);
    }
    assert_eq!(a.stage, Stage::Done { outcome: LockReturn::BackOff });
    assert_eq!(words(&links), vec![FREE, FREE, POST_TEMP]);
    links[2].lock_state = FREE;
    a = a.step(&mut links);
    assert_eq!(a, Acquisition::three(0));
    assert_eq!(a.settle(&mut links), LockReturn::Success { post: 1, prev: 2 });
}

#[test]
fn parties_that_insist_on_links_the_other_shares_both_succeed() {
    let mut links = ring(4);
    let mut a = Acquisition::three(0);
    let mut b = Acquisition::three(2);
    for _ in 0..3 {
        a = a.step(&mut links);
        b = b.step(&mut links);
    }
    assert_eq!(words(&links), vec![HELD, POST_TEMP, HELD, POST_TEMP]);
    for _ in 0..2 {
        a = a.step(&mut links);
        b = b.step(&mut links);
    }
    assert_eq!(a.stage, Stage::Done { outcome: LockReturn::Success { post: 1, prev: 3 } });
    assert_eq!(b.stage, Stage::Done { outcome: LockReturn::Success { post: 3, prev: 1 } });
    let both = PREV_TEMP | POST_TEMP;
    assert_eq!(words(&links), vec![HELD, both, HELD, both]);
}

#[test]
fn parties_all_around_a_ring_get_through() {
    let mut links = ring(5);
    let mut parties: Vec<Acquisition> = (0..5).map(Acquisition::two).collect();
    for _ in 0..10 {
        for party in parties.iter_mut() {
            *party = party.step(&mut links);
        }
    }
    for (i, party) in parties.iter().enumerate() {
        let outcome = LockReturn::Success { post: (i + 1) % 5, prev: i };
        assert_eq!(party.stage, Stage::Done { outcome });
    }
    assert_eq!(words(&links), vec![PREV_TEMP | POST_TEMP; 5]);
}

#[test]
fn a_party_that_backed_off_keeps_nobody_waiting() {
    let mut links = ring(3);
    let mut a = Acquisition::two(0);
    let mut b = Acquisition::three(1);
    a = a.step(&mut links);
    for _ in 0..4 {
        b = b.step(&mut links);
    }
    assert_eq!(b.stage, Stage::Done { outcome: LockReturn::BackOff });
    assert_eq!(words(&links), vec![POST_TEMP, FREE, FREE]);
    a = a.step(&mut links);
    a = a.step(&mut links);
    assert_eq!(a.stage, Stage::Done { outcome: LockReturn::Success { post: 1, prev: 0 } });
    b = b.step(&mut links);
    assert_eq!(b, Acquisition::three(1));
    links[0].release_post_side();
    links[1].release_prev_side();
    assert_eq!(b.settle(&mut links), LockReturn::Success { post: 2, prev: 0 });
}

#[test]
fn a_removed_link_leaves_its_neighbours_joined() {
    let mut links = ring(3);
    let removed = remove(1, &mut links).unwrap();
    assert_eq!(*removed.link, 10);
    assert_eq!((removed.prev, removed.post), (0, 2));
    assert_eq!(ends(&links), vec![(2, 2), (1, 1), (0, 0)]);
    assert_eq!(words(&links), vec![FREE, GONE, FREE]);
    assert!(links[1].data.is_none());
    assert!(remove(1, &mut links).is_none());
}

#[test]
fn a_link_is_put_between_two_that_are_locked() {
    let mut links = ring(3);
    let link = remove(1, &mut links).unwrap().link;
    assert_eq!(lock_two(0, &mut links), Some(2));
    assert_eq!(words(&links), vec![POST_TEMP, GONE, PREV_TEMP]);
    insert_unchecked(0, 2, &mut links, link);
    assert_eq!(ends(&links), vec![(2, 1), (0, 2), (1, 0)]);
    assert_eq!(words(&links), vec![FREE; 3]);
    assert_eq!(links[1].data, Some(10));
}

#[test]
fn a_link_is_put_behind_another_or_given_back() {
    let mut links = ring(3);
    let link = remove(0, &mut links).unwrap().link;
    links[1].lock_state = GONE;
    let link = match insert_after(2, &mut links, link) {
        Err(link) => link,
        Ok(()) => panic!("the link after is taken"),
    };
    assert_eq!(*link, 0);
    assert_eq!(words(&links), vec![GONE, GONE, FREE]);
    links[1].lock_state = FREE;
    assert!(insert_after(2, &mut links, link).is_ok());
    assert_eq!(ends(&links), vec![(2, 1), (0, 2), (1, 0)]);
    assert_eq!(words(&links), vec![FREE; 3]);
}

#[test]
fn a_locked_link_is_removed_or_unlocked() {
    let mut links = ring(2);
    links[0].lock_state = HELD;
    let removed = remove_prelocked(0, &mut links).unwrap();
    assert_eq!(removed.link.original_index(), 0);
    assert_eq!(ends(&links), vec![(0, 0), (1, 1)]);

    let mut links = ring(3);
    links[0].lock_state = HELD;
    links[2].lock_state = GONE;
    assert!(remove_prelocked(0, &mut links).is_none());
    assert_eq!(words(&links), vec![FREE, FREE, GONE]);
}

#[test]
fn looking_changes_nothing() {
    let mut links = ring(2);
    assert_eq!(inspect(&mut links[1], |x: &u32| *x + 1), Some(11));
    assert_eq!(words(&links), vec![FREE, FREE]);
    links[1].lock_state = GONE;
    assert_eq!(inspect(&mut links[1], |x: &u32| *x + 1), None);
}

#[test]
fn acting_on_what_was_seen() {
    let mut links = ring(3);
    assert!(matches!(
        inspect_upgrade(1, &mut links, |_: &u32| UpgradeMode::False),
        InspectUpgradeResult::DidNotUpgrade
    ));
    assert_eq!(words(&links), vec![FREE; 3]);
    assert!(matches!(
        inspect_upgrade(1, &mut links, |_: &u32| UpgradeMode::LeaveLocked),
        InspectUpgradeResult::LeaveLocked
    ));
    assert_eq!(words(&links), vec![FREE, HELD, FREE]);
    assert!(matches!(
        inspect_upgrade(1, &mut links, |_: &u32| UpgradeMode::Remove),
        InspectUpgradeResult::CouldNotAcquireOne
    ));
    unlock_one(&mut links[1]);
    links[0].lock_state = POST_TEMP;
    assert!(matches!(
        inspect_upgrade(1, &mut links, |_: &u32| UpgradeMode::Remove),
        InspectUpgradeResult::BackOffOrMutex
    ));
    assert_eq!(words(&links), vec![POST_TEMP, FREE, FREE]);
    links[0].lock_state = FREE;
    match inspect_upgrade(1, &mut links, |x: &u32| {
        if *x == 10 {
            UpgradeMode::Remove
        } else {
            UpgradeMode::False
        }
    }) {
        InspectUpgradeResult::Success(link) => assert_eq!(*link, 10),
        _ => panic!("the link was free"),
    }
    assert_eq!(words(&links), vec![FREE, GONE, FREE]);
}
