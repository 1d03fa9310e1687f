use cpu_sched::{
    all_tasks_fresh, execute_task_in_rr, handle_idle_time, is_measurable_task, makespan_fits,
    move_tasks_to_active, move_tasks_to_queue, shortest_remaining, sort_tasks_by_arrival,
    take_in, task_from_fields, Event, SchedError, Task,
};
use std::collections::VecDeque;

#[test]
fn new_task_is_fresh() {
    let t = Task::new(3, 7, 9);
    assert_eq!(
        t,
        Task {
            pid: 3,
            time_arrival: 7,
            burst_time: 9,
            remaining_time: 9,
            start_time: None,
            finish_time: None,
        }
    );
    assert!(!is_measurable_task(&t));
}

#[test]
fn record_needs_exactly_three_fields() {
    assert_eq!(task_from_fields(&vec![4, 5, 6]), Some(Task::new(4, 5, 6)));
    assert_eq!(task_from_fields(&vec![4, 5]), None);
    assert_eq!(task_from_fields(&vec![4, 5, 6, 7]), None);
    assert_eq!(task_from_fields(&Vec::new()), None);
}

#[test]
fn sort_is_stable() {
    let tasks = vec![
        Task::new(1, 5, 1),
        Task::new(2, 0, 1),
        Task::new(3, 5, 1),
        Task::new(4, 2, 1),
        Task::new(5, 0, 1),
    ];
    let sorted = sort_tasks_by_arrival(tasks);
    let order: Vec<u32> = sorted.iter().map(|t| t.pid).collect();
    assert_eq!(order, vec![2, 5, 4, 1, 3]);
    assert!(sort_tasks_by_arrival(Vec::new()).is_empty());
}

#[test]
fn idle_time_sets_the_clock() {
    let mut clock: u32 = 4;
    let mut trace = vec![Event::Start { pid: 1, time: 0 }];
    handle_idle_time(&mut clock, 9, &mut trace);
    assert_eq!(clock, 9);
    assert_eq!(trace, vec![Event::Start { pid: 1, time: 0 }, Event::Idle { from: 4, to: 9 }]);
}

#[test]
fn arrivals_move_from_the_front_only() {
    let mut pool = vec![Task::new(1, 0, 1), Task::new(2, 3, 1), Task::new(3, 1, 1)];
    let mut queue: VecDeque<Task> = VecDeque::new();
    queue.push_back(Task::new(9, 0, 2));
    move_tasks_to_queue(2, &mut pool, &mut queue);
    assert_eq!(pool, vec![Task::new(2, 3, 1), Task::new(3, 1, 1)]);
    let line: Vec<Task> = queue.iter().cloned().collect();
    assert_eq!(line, vec![Task::new(9, 0, 2), Task::new(1, 0, 1)]);
    move_tasks_to_queue(3, &mut pool, &mut queue);
    assert!(pool.is_empty());
    assert_eq!(queue.len(), 4);

    let mut pool = vec![Task::new(1, 0, 1), Task::new(2, 3, 1)];
    let mut active: Vec<Task> = Vec::new();
    move_tasks_to_active(0, &mut pool, &mut active);
    assert_eq!(pool, vec![Task::new(2, 3, 1)]);
    assert_eq!(active, vec![Task::new(1, 0, 1)]);
}

#[test]
fn slice_is_quantum_or_remainder() {
    let mut clock: u32 = 10;
    let mut task = Task::new(1, 0, 5);
    let mut pool = vec![Task::new(2, 11, 1), Task::new(3, 12, 1), Task::new(4, 13, 1)];
    let mut queue: VecDeque<Task> = VecDeque::new();
    execute_task_in_rr(&mut clock, &mut task, 2, &mut pool, &mut queue);
    assert_eq!(clock, 12);
    assert_eq!(task.remaining_time, 3);
    assert_eq!(task.start_time, None);
    assert_eq!(pool, vec![Task::new(4, 13, 1)]);
    let line: Vec<u32> = queue.iter().map(|t| t.pid).collect();
    assert_eq!(line, vec![2, 3]);
    execute_task_in_rr(&mut clock, &mut task, 7, &mut pool, &mut queue);
    assert_eq!(clock, 15);
    assert_eq!(task.remaining_time, 0);
    assert!(pool.is_empty());
    execute_task_in_rr(&mut clock, &mut task, 7, &mut pool, &mut queue);
    assert_eq!(clock, 15);
    assert_eq!(queue.len(), 3);
}

#[test]
fn shortest_is_first_among_equals() {
    let mut a = Task::new(1, 0, 9);
    a.remaining_time = 4;
    let b = Task::new(2, 0, 2);
    let c = Task::new(3, 0, 2);
    assert_eq!(shortest_remaining(&vec![a, b, c]), Some(1));
    assert_eq!(shortest_remaining(&vec![b, a, c]), Some(0));
    assert_eq!(shortest_remaining(&vec![a]), Some(0));
    assert_eq!(shortest_remaining(&Vec::new()), None);
}

#[test]
fn measurable_task_is_recognised() {
    let mut t = Task::new(1, 2, 3);
    assert!(!is_measurable_task(&t));
    t.finish_time = Some(5);
    assert!(is_measurable_task(&t));
    t.start_time = Some(4);
    assert!(is_measurable_task(&t));
    t.finish_time = Some(4);
    assert!(!is_measurable_task(&t));
    t.finish_time = Some(1);
    assert!(!is_measurable_task(&t));
    t.finish_time = Some(u32::MAX);
    assert!(is_measurable_task(&t));
}

#[test]
fn intake_sorts_or_declines() {
    let tasks = vec![Task::new(1, 4, 1), Task::new(2, 0, 1)];
    assert!(all_tasks_fresh(&tasks));
    assert_eq!(take_in(tasks), Ok(vec![Task::new(2, 0, 1), Task::new(1, 4, 1)]));
    assert_eq!(take_in(vec![Task::new(1, 0, 0)]), Err(SchedError::InvalidTask));
    assert!(!all_tasks_fresh(&vec![Task::new(1, 0, 0)]));
    assert!(makespan_fits(&vec![Task::new(1, 0, u32::MAX)]));
    assert!(!makespan_fits(&vec![Task::new(1, 1, u32::MAX)]));
    assert!(!makespan_fits(&vec![Task::new(1, 0, u32::MAX), Task::new(2, 0, 1)]));
    assert!(makespan_fits(&Vec::new()));
}
