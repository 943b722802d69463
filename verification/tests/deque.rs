use atomic_deque::deque::{AtomicDeque, Turn};
use atomic_deque::link::Link;
use atomic_deque::search::{Pass, Search};

fn taken_in_order<const N: usize>(buffer: &mut AtomicDeque<u32, N>) -> Vec<usize> {
    let mut order: Vec<usize> = Vec::new();
    while let Some(link) = buffer.next_try() {
        order.push(link.original_index());
    }
    order
}

#[test]
fn it_works() {
    let mut buffer = AtomicDeque::new([10usize]);

    assert_eq!(buffer.len(), 1);

    let next = buffer.next_try().unwrap();

    assert_eq!(*next, 10);

    assert_eq!(buffer.len(), 0);
    buffer.deposit(next);
    assert_eq!(buffer.len(), 1);
}

#[test]
fn filtered_take() {
    let mut buffer = AtomicDeque::new([0, 1, 2, 3, 4]);

    let a = buffer.predicate_next_wait(|x, _| x % 2 == 1).unwrap();
    let b = buffer.predicate_next_wait(|x, _| x % 2 == 1).unwrap();

    assert_eq!(*a, 1);
    assert_eq!(*b, 3);

    buffer.deposit(a);

    buffer.deposit(b);

    let c = buffer.predicate_next_wait(|x, _| x % 2 == 1).unwrap();
    assert_eq!(*c, 1);
}

#[test]
fn deposit_overflow() {
    let buffer_1 = AtomicDeque::new([10usize, 30]);
    let mut buffer_2 = AtomicDeque::new([10usize]);

    let link = buffer_2.next_wait();
    assert!(!buffer_1.accepts(&link));
    assert!(buffer_2.accepts(&link));
}

#[test]
fn not_taken() {
    let mut buffer_1 = AtomicDeque::new([10usize, 30]);
    let mut buffer_2 = AtomicDeque::new([10usize, 20]);

    let _link1 = buffer_2.next_wait();
    let link2 = buffer_2.next_wait();
    let _link3 = buffer_1.next_wait();

    assert!(!buffer_1.accepts(&link2));
}

#[test]
fn a_place_beyond_the_deque_is_not_accepted() {
    let mut wide = AtomicDeque::new([1u8, 2, 3]);
    let mut narrow = AtomicDeque::new([7u8]);
    let _ = wide.next_wait();
    let second = wide.next_wait();
    let _ = narrow.next_wait();
    assert_eq!(second.original_index(), 1);
    assert!(!narrow.accepts(&second));
}

#[test]
fn drains_in_order_of_places_and_then_has_none() {
    let mut buffer = AtomicDeque::new([5u32, 6, 7]);
    assert_eq!(taken_in_order(&mut buffer), vec![0, 1, 2]);
    assert_eq!(buffer.len(), 0);
    assert!(!buffer.ready());
    assert!(buffer.next_try().is_none());
    assert_eq!(buffer.len(), 0);
}

#[test]
fn a_deposited_link_is_next_but_one() {
    let mut buffer = AtomicDeque::new([5u32, 6, 7, 8]);
    let first = buffer.next_wait();
    buffer.deposit(first);
    assert_eq!(buffer.len(), 4);
    assert_eq!(taken_in_order(&mut buffer), vec![1, 0, 2, 3]);
}

#[test]
fn a_link_deposited_alone_is_next() {
    let mut buffer = AtomicDeque::new([5u32, 6, 7]);
    let _a = buffer.next_wait();
    let b = buffer.next_wait();
    let c = buffer.next_wait();
    buffer.deposit(c);
    buffer.deposit(b);
    assert_eq!(buffer.len(), 2);
    assert_eq!(taken_in_order(&mut buffer), vec![2, 1]);
}

#[test]
fn a_value_changed_through_its_link_comes_back_changed() {
    let mut buffer = AtomicDeque::new([5u32, 6]);
    let mut link = buffer.next_wait();
    *link += 100;
    buffer.deposit(link);
    let _ = buffer.next_wait();
    assert_eq!(*buffer.next_wait(), 105);
}

#[test]
fn rounds_lose_nothing() {
    let mut buffer = AtomicDeque::new([1u32, 2, 3]);
    for _ in 0..600 {
        let link = buffer.next_wait();
        assert!(buffer.accepts(&link));
        buffer.deposit(link);
        assert_eq!(buffer.len(), 3);
    }
    let mut values: Vec<u32> = Vec::new();
    while let Some(link) = buffer.next_try() {
        values.push(*link);
    }
    values.sort();
    assert_eq!(values, vec![1, 2, 3]);
}

#[test]
fn the_condition_sees_value_and_place_until_it_is_met() {
    let mut buffer = AtomicDeque::new([10u32, 20, 30, 40]);
    let mut seen: Vec<(u32, usize)> = Vec::new();
    let link = buffer
        .predicate_next_wait(|x, i| {
            seen.push((*x, i));
            i == 2
        })
        .unwrap();
    assert_eq!(seen, vec![(10, 0), (20, 1), (30, 2)]);
    assert_eq!(*link, 30);
    assert_eq!(taken_in_order(&mut buffer), vec![0, 1, 3]);
}

#[test]
fn only_values_not_seen_yet_are_asked_up_to_the_one_taken() {
    let mut buffer = AtomicDeque::new([10u32, 20, 30, 40, 50]);
    let link = buffer.next_wait();
    let mut search = Search::new(5);
    let mut asked: Vec<usize> = Vec::new();
    let mut first_pass = |_: &u32, i: usize| {
        asked.push(i);
        false
    };
    assert!(matches!(buffer.search_pass(&mut search, &mut first_pass), Pass::Waiting));
    assert_eq!(asked, vec![1, 2, 3, 4]);
    buffer.deposit(link);
    let mut asked: Vec<usize> = Vec::new();
    let mut second_pass = |_: &u32, i: usize| {
        asked.push(i);
        true
    };
    assert!(matches!(buffer.search_pass(&mut search, &mut second_pass), Pass::Found(_)));
    assert_eq!(asked, vec![0]);
}

#[test]
fn no_value_meets_the_condition() {
    let mut buffer = AtomicDeque::new([10u32, 20]);
    assert!(buffer.predicate_next_wait(|x, _| *x > 50).is_none());
    assert_eq!(buffer.len(), 2);
    assert_eq!(taken_in_order(&mut buffer), vec![0, 1]);
}

#[test]
fn the_first_in_line_is_counted_when_found_and_others_are_not() {
    let mut buffer = AtomicDeque::new([10u32, 20, 30]);
    let second = buffer.predicate_next_wait(|x, _| *x == 20).unwrap();
    assert_eq!(second.original_index(), 1);
    assert_eq!(buffer.len(), 3);
    let first = buffer.predicate_next_wait(|x, _| *x == 10).unwrap();
    assert_eq!(first.original_index(), 0);
    assert_eq!(buffer.len(), 2);
    let third = buffer.next_try().unwrap();
    assert_eq!(third.original_index(), 2);
    assert_eq!(buffer.len(), 1);
    assert!(!buffer.ready());
    assert!(!buffer.accepts(&third));
    assert!(buffer.next_try().is_none());
    assert_eq!(buffer.len(), 0);
    assert!(buffer.accepts(&third));
    buffer.deposit(third);
    assert_eq!(buffer.len(), 1);
    assert!(buffer.ready());
}

#[test]
fn a_search_waits_for_values_that_are_handed_out() {
    let mut buffer = AtomicDeque::new([10u32, 20, 30]);
    let link: Link<u32> = buffer.next_wait();
    let mut search = Search::new(3);
    let mut asked: u32 = 0;
    let mut pred = |x: &u32, _: usize| {
        asked += 1;
        *x == 10
    };
    assert!(matches!(buffer.search_pass(&mut search, &mut pred), Pass::Waiting));
    assert!(!search.exhausted());
    buffer.deposit(link);
    match buffer.search_pass(&mut search, &mut pred) {
        Pass::Found(found) => assert_eq!(found.original_index(), 0),
        _ => panic!("the value is back"),
    }
    assert_eq!(asked, 3);
}

#[test]
fn a_search_of_all_values_is_exhausted() {
    let mut buffer = AtomicDeque::new([10u32, 20, 30]);
    let mut search = Search::new(3);
    let mut pred = |_: &u32, _: usize| false;
    assert!(matches!(buffer.search_pass(&mut search, &mut pred), Pass::Exhausted));
    assert!(search.exhausted());
}

#[test]
fn a_queued_value_is_taken_without_being_asked_again() {
    let mut buffer = AtomicDeque::new([10u32, 20, 30]);
    let mut search = Search::new(3);
    search.queue(1);
    let mut asked: Vec<usize> = Vec::new();
    let mut pred = |_: &u32, i: usize| {
        asked.push(i);
        false
    };
    match buffer.search_pass(&mut search, &mut pred) {
        Pass::Found(found) => assert_eq!(*found, 20),
        _ => panic!("a value is queued"),
    }
    assert_eq!(asked, vec![0]);
    assert_eq!(buffer.len(), 3);
}

#[test]
fn a_queued_value_that_is_handed_out_is_waited_for() {
    let mut buffer = AtomicDeque::new([10u32, 20]);
    let link: Link<u32> = buffer.next_wait();
    let mut search = Search::new(2);
    search.queue(0);
    let mut pred = |_: &u32, _: usize| false;
    assert!(matches!(buffer.search_pass(&mut search, &mut pred), Pass::Waiting));
    buffer.deposit(link);
    match buffer.search_pass(&mut search, &mut pred) {
        Pass::Found(found) => assert_eq!(*found, 10),
        _ => panic!("the value is back"),
    }
}

#[test]
fn a_queued_first_in_line_that_is_gone_lowers_the_count() {
    let mut buffer = AtomicDeque::new([10u32, 20]);
    let _second = buffer.predicate_next_wait(|x, _| *x == 20).unwrap();
    let _first = buffer.next_wait();
    assert_eq!(buffer.len(), 1);
    let mut search = Search::new(2);
    search.queue(0);
    let mut pred = |_: &u32, _: usize| true;
    assert!(matches!(buffer.search_pass(&mut search, &mut pred), Pass::Waiting));
    assert_eq!(buffer.len(), 0);
}

#[test]
fn turns_take_the_first_or_wait() {
    let mut buffer = AtomicDeque::new([10u32, 20]);
    let link = match buffer.next_turn() {
        Turn::Taken(link) => link,
        _ => panic!("two are in line"),
    };
    assert_eq!(*link, 10);
    assert!(matches!(buffer.next_turn(), Turn::Taken(_)));
    assert!(matches!(buffer.next_turn(), Turn::Wait));
    assert_eq!(buffer.len(), 0);
    buffer.deposit(link);
    assert!(matches!(buffer.next_turn(), Turn::Taken(_)));
}

#[test]
fn a_turn_is_broken_when_the_count_is_too_high() {
    let mut buffer = AtomicDeque::new([10u32, 20]);
    let _second = buffer.predicate_next_wait(|x, _| *x == 20).unwrap();
    let _first = buffer.next_wait();
    assert_eq!(buffer.len(), 1);
    assert!(matches!(buffer.next_turn(), Turn::Broken));
    assert_eq!(buffer.len(), 0);
    assert!(matches!(buffer.next_turn(), Turn::Wait));
}

#[test]
fn a_taken_link_has_no_neighbours() {
    let mut buffer = AtomicDeque::new([10u32, 20, 30]);
    let _ = buffer.next_wait();
    let link = buffer.next_wait();
    let summary = link.summary();
    assert_eq!(summary.index, 1);
    assert_eq!(summary.prev, 1);
    assert_eq!(summary.post, 1);
    assert_eq!(summary.lock_state.to_u8(), 21);
}
