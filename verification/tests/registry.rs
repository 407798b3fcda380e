use async_channel::{bounded, Sender};
use bevy_background_compute::handoff::Handoff;
use bevy_background_compute::pollable::PollableTask;
use bevy_background_compute::registry::BackgroundTasks;
use bevy_background_compute::settle::settle;
use bevy_background_compute::{
    announce, background_compute_check_system, BackgroundComputeCheck, BackgroundComputePlugin,
};
use bevy_tasks::TaskPool;

fn submit<T: Send + 'static>(pool: &TaskPool, registry: &mut BackgroundTasks<T>) -> Sender<T> {
    let (sender, receiver) = bounded(1);
    let task = pool.spawn(std::future::ready(()));
    registry.insert(PollableTask::new(receiver, task));
    sender
}

fn drain<T>(registry: &mut BackgroundTasks<T>) -> Vec<T> {
    match registry.drain_ready() {
        Ok(values) => values,
        Err(_) => panic!("a handoff channel closed without a value"),
    }
}

#[test]
fn new_registry_is_empty() {
    let registry = BackgroundTasks::<i32>::new();
    assert_eq!(registry.len(), 0);
    assert!(registry.is_empty());
}

#[test]
fn insert_adds_one_outstanding_handle() {
    let pool = TaskPool::new();
    let mut registry = BackgroundTasks::<i32>::new();
    let _first = submit(&pool, &mut registry);
    assert_eq!(registry.len(), 1);
    assert!(!registry.is_empty());
    let _second = submit(&pool, &mut registry);
    assert_eq!(registry.len(), 2);
}

#[test]
fn one_value_after_a_delay_is_announced_once() {
    let pool = TaskPool::new();
    let mut registry = BackgroundTasks::<i32>::new();
    let sender = submit(&pool, &mut registry);
    for _ in 0..5 {
        let events = background_compute_check_system(&mut registry).ok().unwrap();
        assert_eq!(events.len(), 0);
        assert_eq!(registry.len(), 1);
    }
    sender.try_send(42).unwrap();
    let events = background_compute_check_system(&mut registry).ok().unwrap();
    assert_eq!(events.len(), 1);
    assert_eq!(events[0].0, 42);
    assert_eq!(registry.len(), 0);
    for _ in 0..5 {
        let events = background_compute_check_system(&mut registry).ok().unwrap();
        assert_eq!(events.len(), 0);
    }
}

#[test]
fn staggered_completions_leave_one_by_one() {
    let pool = TaskPool::new();
    let mut registry = BackgroundTasks::<&'static str>::new();
    let first = submit(&pool, &mut registry);
    let second = submit(&pool, &mut registry);
    let third = submit(&pool, &mut registry);
    assert_eq!(registry.len(), 3);

    assert_eq!(drain(&mut registry), Vec::<&str>::new());
    assert_eq!(registry.len(), 3);

    second.try_send("second").unwrap();
    assert_eq!(drain(&mut registry), vec!["second"]);
    assert_eq!(registry.len(), 2);

    assert_eq!(drain(&mut registry), Vec::<&str>::new());
    assert_eq!(registry.len(), 2);

    third.try_send("third").unwrap();
    assert_eq!(drain(&mut registry), vec!["third"]);
    assert_eq!(registry.len(), 1);

    let fourth = submit(&pool, &mut registry);
    assert_eq!(registry.len(), 2);

    first.try_send("first").unwrap();
    assert_eq!(drain(&mut registry), vec!["first"]);
    assert_eq!(registry.len(), 1);

    fourth.try_send("fourth").unwrap();
    assert_eq!(drain(&mut registry), vec!["fourth"]);
    assert_eq!(registry.len(), 0);
}

#[test]
fn drain_takes_every_ready_handle_and_keeps_the_rest() {
    let pool = TaskPool::new();
    let mut registry = BackgroundTasks::<u32>::new();
    let senders: Vec<Sender<u32>> = (0..5).map(|_| submit(&pool, &mut registry)).collect();
    senders[1].try_send(11).unwrap();
    senders[3].try_send(33).unwrap();
    senders[4].try_send(44).unwrap();
    assert_eq!(drain(&mut registry), vec![11, 33, 44]);
    assert_eq!(registry.len(), 2);
    senders[0].try_send(100).unwrap();
    senders[2].try_send(102).unwrap();
    assert_eq!(drain(&mut registry), vec![100, 102]);
    assert_eq!(registry.len(), 0);
}

#[test]
fn empty_registry_drains_to_nothing_every_time() {
    let mut registry = BackgroundTasks::<i32>::new();
    for _ in 0..100 {
        let answer = registry.drain_ready();
        assert!(matches!(answer, Ok(ref values) if values.is_empty()));
        assert_eq!(registry.len(), 0);
    }
}

#[test]
fn two_result_types_keep_to_their_own_registry() {
    let pool = TaskPool::new();
    let mut numbers = BackgroundTasks::<i32>::new();
    let mut words = BackgroundTasks::<String>::new();
    let number = submit(&pool, &mut numbers);
    let word = submit(&pool, &mut words);

    number.try_send(1).unwrap();
    let word_events = background_compute_check_system(&mut words).ok().unwrap();
    assert_eq!(word_events.len(), 0);
    assert_eq!(words.len(), 1);
    let number_events = background_compute_check_system(&mut numbers).ok().unwrap();
    assert_eq!(number_events.len(), 1);
    assert_eq!(number_events[0].0, 1);

    word.try_send(String::from("done")).unwrap();
    let number_events = background_compute_check_system(&mut numbers).ok().unwrap();
    assert_eq!(number_events.len(), 0);
    let word_events = background_compute_check_system(&mut words).ok().unwrap();
    assert_eq!(word_events.len(), 1);
    assert_eq!(word_events[0].0, "done");
}

#[test]
fn drain_reports_a_closed_channel_and_keeps_the_values() {
    let pool = TaskPool::new();
    let mut registry = BackgroundTasks::<i32>::new();
    let first = submit(&pool, &mut registry);
    let second = submit(&pool, &mut registry);
    let third = submit(&pool, &mut registry);
    first.try_send(1).unwrap();
    drop(second);
    third.try_send(3).unwrap();
    match registry.drain_ready() {
        Ok(_) => panic!("the closed channel went unnoticed"),
        Err(fault) => {
            assert_eq!(fault.values, vec![1, 3]);
            assert_eq!(fault.broken, 1);
        }
    }
    assert_eq!(registry.len(), 1);
}

#[test]
fn check_reports_a_closed_channel_with_the_events() {
    let pool = TaskPool::new();
    let mut registry = BackgroundTasks::<i32>::new();
    let first = submit(&pool, &mut registry);
    let second = submit(&pool, &mut registry);
    drop(first);
    second.try_send(8).unwrap();
    match background_compute_check_system(&mut registry) {
        Ok(_) => panic!("the closed channel went unnoticed"),
        Err(fault) => {
            assert_eq!(fault.values.len(), 1);
            assert_eq!(fault.values[0].0, 8);
            assert_eq!(fault.broken, 1);
        }
    }
    assert_eq!(registry.len(), 1);
}

#[test]
fn settle_parts_handles_by_outcome() {
    let round = settle(vec![
        (1u32, Handoff::Pending),
        (2, Handoff::Ready(10)),
        (3, Handoff::Closed),
        (4, Handoff::Ready(20)),
        (5, Handoff::Pending),
    ]);
    assert_eq!(round.kept, vec![1, 3, 5]);
    assert_eq!(round.values, vec![10, 20]);
    assert_eq!(round.broken, 1);
}

#[test]
fn settle_of_nothing_is_nothing() {
    let round = settle(Vec::<(u32, Handoff<i32>)>::new());
    assert_eq!(round.kept, Vec::<u32>::new());
    assert_eq!(round.values, Vec::<i32>::new());
    assert_eq!(round.broken, 0);
}

#[test]
fn settle_counts_add_up() {
    let polled: Vec<(usize, Handoff<usize>)> = (0..10)
        .map(|i| (i, if i % 3 == 0 { Handoff::Ready(i * i) } else { Handoff::Pending }))
        .collect();
    let round = settle(polled);
    assert_eq!(round.values, vec![0, 9, 36, 81]);
    assert_eq!(round.kept, vec![1, 2, 4, 5, 7, 8]);
    assert_eq!(round.kept.len() + round.values.len(), 10);
    assert_eq!(round.broken, 0);
}

#[test]
fn settled_handles_are_not_served_again() {
    let first = settle(vec![(1u32, Handoff::Ready('a')), (2, Handoff::Pending), (3, Handoff::Pending)]);
    assert_eq!(first.values, vec!['a']);
    let again: Vec<(u32, Handoff<char>)> = first
        .kept
        .iter()
        .map(|&ticket| (ticket, if ticket == 3 { Handoff::Ready('c') } else { Handoff::Pending }))
        .collect();
    let second = settle(again);
    assert_eq!(second.values, vec!['c']);
    assert_eq!(second.kept, vec![2]);
}

#[test]
fn announce_wraps_each_value_in_order() {
    let events = announce(vec![3, 1, 2]);
    assert_eq!(events.len(), 3);
    assert_eq!(events[0].0, 3);
    assert_eq!(events[1].0, 1);
    assert_eq!(events[2].0, 2);
    assert_eq!(announce(Vec::<i32>::new()).len(), 0);
}

#[test]
fn plugin_starts_with_an_empty_registry() {
    let plugin = BackgroundComputePlugin::<i32>::default();
    let mut registry = plugin.registry();
    assert!(registry.is_empty());
    assert_eq!(drain(&mut registry), Vec::<i32>::new());
}

fn hash_of<T: std::hash::Hash>(value: &T) -> u64 {
    let mut state = std::collections::hash_map::DefaultHasher::new();
    std::hash::Hash::hash(value, &mut state);
    std::hash::Hasher::finish(&state)
}

#[test]
fn check_names_of_one_type_are_all_the_same() {
    let name = BackgroundComputeCheck::<i32>::new();
    let copy = name.clone();
    let other = BackgroundComputeCheck::<i32>::default();
    assert!(name == copy);
    assert!(name == other);
    assert_eq!(hash_of(&name), hash_of(&copy));
    assert_eq!(hash_of(&name), hash_of(&other));
}
