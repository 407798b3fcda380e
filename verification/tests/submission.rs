use bevy_background_compute::pollable::{handoff_channel, PollableTask};
use bevy_background_compute::registry::BackgroundTasks;
use bevy_tasks::{AsyncComputeTaskPool, TaskPool};

fn wait_for<T>(registry: &mut BackgroundTasks<T>) -> Vec<T> {
    let started = std::time::Instant::now();
    while started.elapsed() < std::time::Duration::from_secs(10) {
        let values = registry.drain_ready().ok().unwrap();
        if !values.is_empty() {
            return values;
        }
        std::hint::spin_loop();
    }
    Vec::new()
}

#[test]
fn submit_runs_the_work_and_its_value_is_drained_once() {
    AsyncComputeTaskPool::get_or_init(TaskPool::new);
    let mut registry = BackgroundTasks::<i32>::new();
    let (sender, receiver) = handoff_channel();
    let answer = registry.submit(receiver, async move {
        sender.send(42).await.unwrap();
    });
    assert_eq!(answer, Ok(()));
    assert_eq!(wait_for(&mut registry), vec![42]);
    assert_eq!(registry.len(), 0);
    assert!(registry.drain_ready().ok().unwrap().is_empty());
}

#[test]
fn handoff_channel_holds_one_value() {
    let (sender, receiver) = handoff_channel::<u8>();
    assert_eq!(sender.capacity(), Some(1));
    assert!(sender.try_send(1).is_ok());
    assert!(sender.try_send(2).is_err());
    assert_eq!(receiver.try_recv(), Ok(1));
}

#[test]
fn spawn_keeps_the_work_alive_until_its_value_is_polled() {
    let pool = TaskPool::new();
    let (sender, receiver) = handoff_channel();
    let handle = PollableTask::spawn(&pool, receiver, async move {
        sender.send(String::from("done")).await.unwrap();
    });
    let started = std::time::Instant::now();
    let mut seen = None;
    while seen.is_none() && started.elapsed() < std::time::Duration::from_secs(10) {
        seen = handle.poll().unwrap();
        std::hint::spin_loop();
    }
    assert_eq!(seen, Some(String::from("done")));
}

#[test]
fn three_units_of_work_all_arrive() {
    AsyncComputeTaskPool::get_or_init(TaskPool::new);
    let mut registry = BackgroundTasks::<u32>::new();
    for number in 1..=3u32 {
        let (sender, receiver) = handoff_channel();
        let answer = registry.submit(receiver, async move {
            sender.send(number * 10).await.unwrap();
        });
        assert_eq!(answer, Ok(()));
    }
    assert_eq!(registry.len(), 3);
    let mut arrived = Vec::new();
    while arrived.len() < 3 {
        let values = wait_for(&mut registry);
        assert!(!values.is_empty());
        arrived.extend(values);
        assert_eq!(registry.len() + arrived.len(), 3);
    }
    arrived.sort();
    assert_eq!(arrived, vec![10, 20, 30]);
}
