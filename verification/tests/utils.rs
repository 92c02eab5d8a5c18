use station::utils::order::{InternalOrderRes, OrderResult, Orderer, Results};
use std::collections::HashMap;

use station::utils::task::{Task, TaskStatus, Tasks};
use station::utils::text::truncate;

#[test]
fn truncate_keeps_short_text() {
    assert_eq!(truncate("hello", 5), "hello");
    assert_eq!(truncate("", 0), "");
    assert_eq!(truncate("hello", 100), "hello");
}

#[test]
fn truncate_cuts_long_text() {
    assert_eq!(truncate("hello world", 5), "he...");
    assert_eq!(truncate("abcdefgh", 3), "...");
}

#[test]
fn truncate_counts_characters_not_bytes() {
    // 'ä' takes two bytes; the cut falls on the character boundary before "...".
    assert_eq!(truncate("abcäää", 6), "abcäää");
    assert_eq!(truncate("abcdeää", 6), "abcd...");
}

#[test]
fn orders_are_taken_in_order_with_distinct_ids() {
    let mut orderer: Orderer<&'static str> = Orderer::new();
    let first = orderer.create("first");
    let second = orderer.create("second");
    assert!(!first.same(&second));

    let orders = orderer.take_orders();
    assert_eq!(orders.len(), 2);
    assert_eq!(*orders[0].data(), "first");
    assert_eq!(*orders[1].data(), "second");
    assert!(orders[0].id().same(&first));
    assert!(orders[1].id().same(&second));

    // taking again yields nothing
    assert!(orderer.take_orders().is_empty());

    // ids keep counting after a take
    let third = orderer.create("third");
    assert!(!third.same(&first));
    assert!(!third.same(&second));
}

#[test]
fn results_are_found_by_order_id() {
    let mut orderer: Orderer<u32> = Orderer::new();
    let a = orderer.create(1);
    let b = orderer.create(2);
    let c = orderer.create(3);
    let mut orders = orderer.take_orders();
    *orders[1].data_mut() = 20;

    let results = Results::new(vec![
        orders[1].complete("two"),
        orders[0].complete("one"),
        OrderResult::new(a.duplicate(), "one again"),
    ]);

    assert_eq!(results.get(&a), Some(&"one"));
    assert_eq!(results.get(&b), Some(&"two"));
    assert_eq!(results.get(&c), None);
    assert_eq!(results.iter().len(), 3);
    assert_eq!(*orders[1].data(), 20);
}

struct Double(u64);

impl Task for Double {
    type Result = u64;
}

#[test]
fn tasks_hand_back_results_once() {
    let mut tasks: Tasks<Double> = Tasks::new();
    let a = tasks.create(Double(2));
    let b = tasks.create(Double(5));
    tasks.create_ignore(Double(7));
    assert!(!a.same(&b));

    // nothing processed yet
    assert_eq!(tasks.result(a.duplicate()), None);

    tasks.process(|t: Double| t.0 * 2);

    assert_eq!(tasks.result(b.duplicate()), Some(10));
    assert_eq!(tasks.result(a.duplicate()), Some(4));
    // a result is handed out only once
    assert_eq!(tasks.result(a), None);
    assert_eq!(tasks.result(b), None);
}

struct Count(u32);

impl Task for Count {
    type Result = u32;
}

/// Each try counts the task's state up; the task is done when it reaches its number.
fn count_up(t: &Count, s: u32) -> (TaskStatus<u32>, u32) {
    let s = s + 1;
    if s >= t.0 {
        (TaskStatus::Done(s * 10), s)
    } else {
        (TaskStatus::Pending, s)
    }
}

#[test]
fn try_process_keeps_pending_tasks() {
    let mut tasks: Tasks<Count> = Tasks::new();
    let a = tasks.create(Count(1));
    let b = tasks.create(Count(3));
    tasks.create_ignore(Count(1));
    let mut state: HashMap<u32, u32> = HashMap::new();

    tasks.try_process(&mut state, count_up);
    assert_eq!(tasks.result(a.duplicate()), Some(10));
    assert_eq!(tasks.result(b.duplicate()), None);
    assert_eq!(state.len(), 1);

    tasks.try_process(&mut state, count_up);
    assert_eq!(tasks.result(b.duplicate()), None);
    assert_eq!(state.values().copied().collect::<Vec<u32>>(), vec![2]);

    tasks.try_process(&mut state, count_up);
    assert_eq!(tasks.result(b), Some(30));
    assert!(state.is_empty());
    assert_eq!(tasks.result(a), None);
}

#[test]
fn successive_ids_are_distinct() {
    let mut ids: InternalOrderRes<u8> = InternalOrderRes::new();
    let taken: Vec<_> = (0..5).map(|_| ids.next_id()).collect();
    for i in 0..taken.len() {
        for j in 0..taken.len() {
            assert_eq!(taken[i].same(&taken[j]), i == j);
        }
    }
}

#[test]
fn default_counter_starts_where_new_does() {
    let mut from_default: InternalOrderRes<u8> = InternalOrderRes::default();
    let mut from_new: InternalOrderRes<u8> = InternalOrderRes::new();
    for _ in 0..4 {
        let a = from_default.next_id();
        let b = from_new.next_id();
        assert!(a.same(&b));
    }
    let first = InternalOrderRes::<u8>::default().next_id();
    let later = from_default.next_id();
    assert!(!first.same(&later));
}
