use cpu_sched::{
    calculate_metrics, check_tasks, fcfs, round_robin, srtf, Event, Metrics, SchedError, Task,
};

fn sample() -> Vec<Task> {
    vec![Task::new(1, 0, 5), Task::new(2, 1, 3), Task::new(3, 2, 8)]
}

fn done(pid: u32, arrival: u32, burst: u32, remaining: u32, start: u32, finish: u32) -> Task {
    Task {
        pid,
        time_arrival: arrival,
        burst_time: burst,
        remaining_time: remaining,
        start_time: Some(start),
        finish_time: Some(finish),
    }
}

fn pids(tasks: &Vec<Task>) -> Vec<u32> {
    let mut ids: Vec<u32> = tasks.iter().map(|t| t.pid).collect();
    ids.sort();
    ids
}

#[test]
fn fcfs_sample_times_and_metrics() {
    let out = fcfs(sample()).unwrap();
    assert_eq!(
        out.completed,
        vec![done(1, 0, 5, 5, 0, 5), done(2, 1, 3, 3, 5, 8), done(3, 2, 8, 8, 8, 16)]
    );
    assert_eq!(
        out.trace,
        vec![
            Event::Start { pid: 1, time: 0 },
            Event::Finish { pid: 1, time: 5 },
            Event::Start { pid: 2, time: 5 },
            Event::Finish { pid: 2, time: 8 },
            Event::Start { pid: 3, time: 8 },
            Event::Finish { pid: 3, time: 16 },
        ]
    );
    let m = calculate_metrics(&out.completed).unwrap();
    assert_eq!(m, Metrics { total_waiting: 10, total_turnaround: 26, count: 3 });
    let average = m.total_waiting as f64 / m.count as f64;
    assert!((average - 10.0 / 3.0).abs() < 1e-9);
    assert_eq!(format!("{:.2}", average), "3.33");
}

#[test]
fn round_robin_sample_quantum_two() {
    let out = round_robin(sample(), 2).unwrap();
    assert_eq!(
        out.completed,
        vec![done(2, 1, 3, 0, 2, 9), done(1, 0, 5, 0, 0, 12), done(3, 2, 8, 0, 4, 16)]
    );
    assert_eq!(
        out.trace,
        vec![
            Event::Start { pid: 1, time: 0 },
            Event::Pause { pid: 1, time: 2 },
            Event::Start { pid: 2, time: 2 },
            Event::Pause { pid: 2, time: 4 },
            Event::Start { pid: 3, time: 4 },
            Event::Pause { pid: 3, time: 6 },
            Event::Resume { pid: 1, time: 6 },
            Event::Pause { pid: 1, time: 8 },
            Event::Resume { pid: 2, time: 8 },
            Event::Finish { pid: 2, time: 9 },
            Event::Resume { pid: 3, time: 9 },
            Event::Pause { pid: 3, time: 11 },
            Event::Resume { pid: 1, time: 11 },
            Event::Finish { pid: 1, time: 12 },
            Event::Resume { pid: 3, time: 12 },
            Event::Pause { pid: 3, time: 14 },
            Event::Resume { pid: 3, time: 14 },
            Event::Finish { pid: 3, time: 16 },
        ]
    );
    let m = calculate_metrics(&out.completed).unwrap();
    assert_eq!(m, Metrics { total_waiting: 18, total_turnaround: 34, count: 3 });
}

#[test]
fn round_robin_sample_is_busy_throughout() {
    let out = round_robin(sample(), 2).unwrap();
    let mut busy: u32 = 0;
    let mut since: Option<u32> = None;
    let mut clock: u32 = 0;
    for e in out.trace.iter() {
        match *e {
            Event::Idle { .. } => panic!("idle gap"),
            Event::Start { time, .. } | Event::Resume { time, .. } => {
                assert_eq!(time, clock);
                since = Some(time);
            }
            Event::Pause { time, .. } | Event::Finish { time, .. } => {
                busy += time - since.unwrap();
                clock = time;
                since = None;
            }
        }
    }
    assert_eq!(busy, 16);
    assert_eq!(clock, 16);
}

#[test]
fn round_robin_slices_stay_within_quantum() {
    let quantum = 3;
    let out = round_robin(sample(), quantum).unwrap();
    let mut since: u32 = 0;
    for e in out.trace.iter() {
        match *e {
            Event::Idle { .. } => {}
            Event::Start { time, .. } | Event::Resume { time, .. } => since = time,
            Event::Pause { time, .. } => assert_eq!(time - since, quantum),
            Event::Finish { time, .. } => assert!(time - since <= quantum),
        }
    }
}

#[test]
fn srtf_sample_preempts_for_shorter_task() {
    let out = srtf(sample()).unwrap();
    assert_eq!(
        out.completed,
        vec![done(2, 1, 3, 0, 1, 4), done(1, 0, 5, 0, 0, 8), done(3, 2, 8, 0, 8, 16)]
    );
    assert_eq!(
        out.trace,
        vec![
            Event::Start { pid: 1, time: 0 },
            Event::Start { pid: 2, time: 1 },
            Event::Finish { pid: 2, time: 4 },
            Event::Finish { pid: 1, time: 8 },
            Event::Start { pid: 3, time: 8 },
            Event::Finish { pid: 3, time: 16 },
        ]
    );
    let m = calculate_metrics(&out.completed).unwrap();
    assert_eq!(m, Metrics { total_waiting: 9, total_turnaround: 25, count: 3 });
}

#[test]
fn empty_input_gives_empty_output() {
    let a = fcfs(Vec::new()).unwrap();
    assert!(a.completed.is_empty() && a.trace.is_empty());
    let b = round_robin(Vec::new(), 2).unwrap();
    assert!(b.completed.is_empty() && b.trace.is_empty());
    let c = srtf(Vec::new()).unwrap();
    assert!(c.completed.is_empty() && c.trace.is_empty());
    assert_eq!(calculate_metrics(&Vec::new()), Err(SchedError::EmptyTaskSet));
}

#[test]
fn zero_quantum_is_invalid_configuration() {
    assert_eq!(round_robin(sample(), 0), Err(SchedError::InvalidConfiguration));
    assert_eq!(round_robin(vec![Task::new(1, 0, 0)], 0), Err(SchedError::InvalidConfiguration));
}

#[test]
fn zero_burst_is_an_invalid_task() {
    let tasks = vec![Task::new(1, 0, 5), Task::new(2, 1, 0)];
    assert_eq!(check_tasks(&tasks), Some(SchedError::InvalidTask));
    assert_eq!(fcfs(tasks.clone()), Err(SchedError::InvalidTask));
    assert_eq!(round_robin(tasks.clone(), 2), Err(SchedError::InvalidTask));
    assert_eq!(srtf(tasks), Err(SchedError::InvalidTask));
}

#[test]
fn used_task_is_an_invalid_task() {
    let mut started = Task::new(1, 0, 5);
    started.start_time = Some(0);
    assert_eq!(srtf(vec![started]), Err(SchedError::InvalidTask));
    let mut finished = Task::new(1, 0, 5);
    finished.finish_time = Some(5);
    assert_eq!(fcfs(vec![finished]), Err(SchedError::InvalidTask));
    let mut partly = Task::new(1, 0, 5);
    partly.remaining_time = 2;
    assert_eq!(round_robin(vec![partly], 1), Err(SchedError::InvalidTask));
}

#[test]
fn horizon_beyond_u32_is_time_overflow() {
    let tasks = vec![Task::new(1, u32::MAX, 1)];
    assert_eq!(check_tasks(&tasks), Some(SchedError::TimeOverflow));
    assert_eq!(fcfs(tasks.clone()), Err(SchedError::TimeOverflow));
    assert_eq!(round_robin(tasks.clone(), 2), Err(SchedError::TimeOverflow));
    assert_eq!(srtf(tasks), Err(SchedError::TimeOverflow));
    let bursts = vec![Task::new(1, 0, u32::MAX), Task::new(2, 0, 1)];
    assert_eq!(fcfs(bursts), Err(SchedError::TimeOverflow));
    let invalid_first = vec![Task::new(1, u32::MAX, 1), Task::new(2, 0, 0)];
    assert_eq!(fcfs(invalid_first), Err(SchedError::InvalidTask));
}

#[test]
fn horizon_at_u32_max_is_accepted() {
    let tasks = vec![Task::new(1, u32::MAX - 1, 1)];
    assert_eq!(check_tasks(&tasks), None);
    let out = fcfs(tasks.clone()).unwrap();
    assert_eq!(out.completed, vec![done(1, u32::MAX - 1, 1, 1, u32::MAX - 1, u32::MAX)]);
    let out = round_robin(tasks.clone(), 5).unwrap();
    assert_eq!(out.completed, vec![done(1, u32::MAX - 1, 1, 0, u32::MAX - 1, u32::MAX)]);
    let out = srtf(tasks).unwrap();
    assert_eq!(out.completed, vec![done(1, u32::MAX - 1, 1, 0, u32::MAX - 1, u32::MAX)]);
}

#[test]
fn late_arrival_after_other_work_is_accepted() {
    let tasks = vec![Task::new(1, 0, 5), Task::new(2, u32::MAX - 1, 1)];
    assert_eq!(check_tasks(&tasks), None);
    let last = done(2, u32::MAX - 1, 1, 0, u32::MAX - 1, u32::MAX);
    assert_eq!(fcfs(tasks.clone()).unwrap().completed[1].finish_time, Some(u32::MAX));
    assert_eq!(round_robin(tasks.clone(), 2).unwrap().completed[1], last);
    assert_eq!(srtf(tasks.clone()).unwrap().completed[1], last);
    let late = vec![Task::new(1, 0, 5), Task::new(2, u32::MAX - 1, 2)];
    assert_eq!(check_tasks(&late), Some(SchedError::TimeOverflow));
    assert_eq!(srtf(late), Err(SchedError::TimeOverflow));
}

#[test]
fn idle_gaps_are_skipped_and_recorded() {
    let tasks = vec![Task::new(1, 3, 2), Task::new(2, 10, 1)];
    let a = fcfs(tasks.clone()).unwrap();
    assert_eq!(a.completed, vec![done(1, 3, 2, 2, 3, 5), done(2, 10, 1, 1, 10, 11)]);
    assert_eq!(
        a.trace,
        vec![
            Event::Idle { from: 0, to: 3 },
            Event::Start { pid: 1, time: 3 },
            Event::Finish { pid: 1, time: 5 },
            Event::Idle { from: 5, to: 10 },
            Event::Start { pid: 2, time: 10 },
            Event::Finish { pid: 2, time: 11 },
        ]
    );
    let b = round_robin(tasks.clone(), 4).unwrap();
    assert_eq!(b.completed, vec![done(1, 3, 2, 0, 3, 5), done(2, 10, 1, 0, 10, 11)]);
    assert_eq!(b.trace, a.trace);
    let c = srtf(tasks).unwrap();
    assert_eq!(c.completed, b.completed);
    assert_eq!(c.trace, a.trace);
}

#[test]
fn fcfs_orders_by_arrival_then_input_position() {
    let tasks = vec![Task::new(7, 4, 1), Task::new(8, 0, 2), Task::new(9, 4, 3), Task::new(6, 0, 1)];
    let out = fcfs(tasks).unwrap();
    let order: Vec<u32> = out.completed.iter().map(|t| t.pid).collect();
    assert_eq!(order, vec![8, 6, 7, 9]);
    let starts: Vec<u32> = out.completed.iter().map(|t| t.start_time.unwrap()).collect();
    assert_eq!(starts, vec![0, 2, 4, 5]);
}

#[test]
fn round_robin_sorts_its_input() {
    let tasks = vec![Task::new(2, 5, 1), Task::new(1, 0, 2)];
    let out = round_robin(tasks, 2).unwrap();
    assert_eq!(out.completed, vec![done(1, 0, 2, 0, 0, 2), done(2, 5, 1, 0, 5, 6)]);
}

#[test]
fn round_robin_queues_arrival_before_preempted_task() {
    let tasks = vec![Task::new(1, 0, 4), Task::new(2, 2, 2)];
    let out = round_robin(tasks, 2).unwrap();
    assert_eq!(out.completed, vec![done(2, 2, 2, 0, 2, 4), done(1, 0, 4, 0, 0, 6)]);
}

#[test]
fn srtf_breaks_ties_by_arrival_then_input_position() {
    let tasks = vec![Task::new(1, 0, 3), Task::new(2, 1, 2)];
    let out = srtf(tasks).unwrap();
    assert_eq!(out.completed, vec![done(1, 0, 3, 0, 0, 3), done(2, 1, 2, 0, 3, 5)]);
    let together = vec![Task::new(5, 0, 2), Task::new(4, 0, 2)];
    let out = srtf(together).unwrap();
    assert_eq!(out.completed, vec![done(5, 0, 2, 0, 0, 2), done(4, 0, 2, 0, 2, 4)]);
}

#[test]
fn srtf_runs_the_shortest_remaining_at_every_unit() {
    let tasks = vec![Task::new(1, 0, 6), Task::new(2, 2, 3), Task::new(3, 3, 1)];
    let out = srtf(tasks).unwrap();
    assert_eq!(
        out.completed,
        vec![done(3, 3, 1, 0, 3, 4), done(2, 2, 3, 0, 2, 6), done(1, 0, 6, 0, 0, 10)]
    );
}

#[test]
fn every_output_task_is_consistent() {
    let tasks = vec![Task::new(4, 9, 2), Task::new(1, 0, 7), Task::new(2, 3, 1), Task::new(3, 3, 4)];
    let outs = vec![
        fcfs(tasks.clone()).unwrap().completed,
        round_robin(tasks.clone(), 3).unwrap().completed,
        srtf(tasks.clone()).unwrap().completed,
    ];
    for completed in outs.iter() {
        assert_eq!(pids(completed), vec![1, 2, 3, 4]);
        for t in completed.iter() {
            let start = t.start_time.unwrap();
            let finish = t.finish_time.unwrap();
            assert!(finish >= start && start >= t.time_arrival);
            assert!(finish - t.time_arrival >= t.burst_time);
            let source = tasks.iter().find(|s| s.pid == t.pid).unwrap();
            assert_eq!((t.time_arrival, t.burst_time), (source.time_arrival, source.burst_time));
        }
    }
}

#[test]
fn repeated_runs_agree() {
    let tasks = sample();
    assert_eq!(fcfs(tasks.clone()), fcfs(tasks.clone()));
    assert_eq!(round_robin(tasks.clone(), 2), round_robin(tasks.clone(), 2));
    assert_eq!(srtf(tasks.clone()), srtf(tasks.clone()));
    let first = calculate_metrics(&srtf(tasks.clone()).unwrap().completed);
    let second = calculate_metrics(&srtf(tasks.clone()).unwrap().completed);
    assert_eq!(first, second);
    assert_eq!(tasks, sample());
}

#[test]
fn metrics_decline_an_incomplete_task() {
    assert_eq!(calculate_metrics(&sample()), Err(SchedError::IncompleteTask));
    let early = vec![done(1, 0, 5, 0, 0, 4)];
    assert_eq!(calculate_metrics(&early), Err(SchedError::IncompleteTask));
    let mut unfinished = done(1, 0, 5, 0, 0, 9);
    unfinished.finish_time = None;
    let mixed = vec![done(2, 0, 1, 0, 0, 1), unfinished];
    assert_eq!(calculate_metrics(&mixed), Err(SchedError::IncompleteTask));
}

#[test]
fn metrics_read_finish_arrival_and_burst_only() {
    let late_start = vec![done(1, 0, 5, 0, 3, 6)];
    assert_eq!(
        calculate_metrics(&late_start),
        Ok(Metrics { total_waiting: 1, total_turnaround: 6, count: 1 })
    );
    let before_arrival = vec![done(1, 3, 1, 0, 2, 4)];
    assert_eq!(
        calculate_metrics(&before_arrival),
        Ok(Metrics { total_waiting: 0, total_turnaround: 1, count: 1 })
    );
    let mut never_started = done(1, 2, 3, 3, 0, 10);
    never_started.start_time = None;
    assert_eq!(
        calculate_metrics(&vec![never_started]),
        Ok(Metrics { total_waiting: 5, total_turnaround: 8, count: 1 })
    );
}

#[test]
fn metrics_turnaround_is_waiting_plus_burst() {
    let out = round_robin(sample(), 2).unwrap();
    let m = calculate_metrics(&out.completed).unwrap();
    assert!(m.total_waiting <= m.total_turnaround);
    assert_eq!(m.total_turnaround - m.total_waiting, 16);
}

#[test]
fn metrics_total_waiting_and_turnaround() {
    let tasks = vec![done(1, 2, 3, 0, 4, 10), done(2, 0, 1, 0, 0, 1)];
    assert_eq!(
        calculate_metrics(&tasks),
        Ok(Metrics { total_waiting: 5, total_turnaround: 9, count: 2 })
    );
}

#[test]
fn all_disciplines_end_together() {
    let tasks = vec![Task::new(1, 2, 4), Task::new(2, 3, 1), Task::new(3, 20, 3), Task::new(4, 21, 2)];
    let ends = vec![
        fcfs(tasks.clone()).unwrap().completed.last().unwrap().finish_time,
        round_robin(tasks.clone(), 1).unwrap().completed.last().unwrap().finish_time,
        round_robin(tasks.clone(), 3).unwrap().completed.last().unwrap().finish_time,
        srtf(tasks.clone()).unwrap().completed.last().unwrap().finish_time,
    ];
    assert_eq!(ends, vec![Some(25), Some(25), Some(25), Some(25)]);
}

#[test]
fn srtf_finishes_an_earlier_shorter_task_before_a_later_longer_one_starts() {
    let tasks = vec![
        Task::new(1, 0, 4),
        Task::new(2, 1, 2),
        Task::new(3, 2, 4),
        Task::new(4, 3, 6),
        Task::new(5, 9, 1),
    ];
    let out = srtf(tasks).unwrap();
    for x in out.completed.iter() {
        for y in out.completed.iter() {
            if x.time_arrival < y.time_arrival && x.burst_time <= y.burst_time {
                assert!(x.finish_time.unwrap() <= y.start_time.unwrap());
            }
        }
    }
    let order: Vec<u32> = out.completed.iter().map(|t| t.pid).collect();
    assert_eq!(order, vec![2, 1, 3, 5, 4]);
}
