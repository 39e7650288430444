use mem_sweep::{can_process, Job};

fn job(mem_usage: i64, start: u64, duration: u64) -> Job {
    Job {
        mem_usage,
        start,
        duration,
    }
}

#[test]
fn test_empty_job_list() {
    let tasks: Vec<Job> = vec![];
    assert!(can_process(100, tasks));
}

#[test]
fn test_single_task_within_limit() {
    let tasks = vec![job(50, 10, 20)];
    assert!(can_process(100, tasks));
}

#[test]
fn test_single_task_exceeds_limit() {
    let tasks = vec![job(150, 0, 10)];
    assert!(!can_process(100, tasks));
}

#[test]
fn test_non_overlapping_tasks() {
    let tasks = vec![job(50, 0, 10), job(30, 20, 5)];
    assert!(can_process(60, tasks));
}

#[test]
fn test_overlapping_within_limit() {
    let tasks = vec![job(50, 0, 10), job(30, 5, 10)];
    assert!(can_process(80, tasks.clone()));
    assert!(!can_process(79, tasks));
}

#[test]
fn test_overlapping_exceeds_limit() {
    let tasks = vec![job(40, 0, 20), job(50, 10, 10), job(30, 5, 10)];
    assert!(!can_process(100, tasks.clone()));
    assert!(can_process(120, tasks));
}

#[test]
fn test_deallocation_increases_memory() {
    let tasks = vec![job(70, 0, 10), job(50, 10, 5)];
    assert!(can_process(70, tasks.clone()));
    assert!(!can_process(69, tasks));
}

#[test]
fn test_multiple_events_same_timestamp() {
    let tasks = vec![job(10, 5, 5), job(20, 5, 5), job(30, 5, 10)];
    assert!(can_process(60, tasks.clone()));
    assert!(!can_process(59, tasks));
}

#[test]
fn test_zero_duration_task() {
    let tasks = vec![job(50, 100, 0)];
    assert!(can_process(0, tasks));
}
