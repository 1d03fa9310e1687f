//! Single-processor scheduling simulation: first-come-first-served, round-robin
//! and shortest-remaining-time-first, with the bookkeeping that waiting and
//! turnaround figures are derived from.

pub mod task;
pub mod order;
pub mod intake;
pub mod sim;
pub mod fcfs;
pub mod rr;
pub mod srtf;
pub mod metrics;
pub mod records;
pub mod laws;

pub use fcfs::fcfs;
pub use intake::{all_tasks_fresh, check_tasks, makespan_fits, take_in};
pub use metrics::{calculate_metrics, is_measurable_task, Metrics};
pub use order::sort_tasks_by_arrival;
pub use records::{blank_length, parse_fields, parse_task_line, parse_word};
pub use rr::{execute_task_in_rr, move_tasks_to_queue, round_robin};
pub use sim::{handle_idle_time, Event, Outcome};
pub use srtf::{move_tasks_to_active, shortest_remaining, srtf};
pub use task::{task_from_fields, SchedError, Task};
