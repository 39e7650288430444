use mem_sweep::{can_process, Job};

fn job(mem_usage: i64, start: u64, duration: u64) -> Job {
    Job {
        mem_usage,
        start,
        duration,
    }
}

#[test]
fn every_order_of_the_same_jobs_agrees() {
    let tasks = vec![job(40, 0, 20), job(50, 10, 10), job(30, 5, 10)];
    let orders = [[0, 1, 2], [0, 2, 1], [1, 0, 2], [1, 2, 0], [2, 0, 1], [2, 1, 0]];
    for order in orders.iter() {
        let reordered: Vec<Job> = order.iter().map(|&i| tasks[i]).collect();
        assert!(!can_process(119, reordered.clone()));
        assert!(can_process(120, reordered));
    }
}

#[test]
fn empty_list_fits_a_zero_budget() {
    assert!(can_process(0, Vec::new()));
    assert!(can_process(u64::MAX, Vec::new()));
}

#[test]
fn single_job_fits_exactly_at_its_usage() {
    assert!(can_process(50, vec![job(50, 3, 1)]));
    assert!(!can_process(49, vec![job(50, 3, 1)]));
}

#[test]
fn larger_budgets_stay_feasible() {
    let tasks = vec![job(70, 0, 10), job(50, 10, 5), job(20, 12, 8)];
    assert!(!can_process(69, tasks.clone()));
    for limit in [70u64, 71, 100, 1000, u64::MAX] {
        assert!(can_process(limit, tasks.clone()));
    }
}

#[test]
fn zero_duration_jobs_change_nothing() {
    let tasks = vec![job(50, 0, 10), job(30, 5, 10)];
    let mut with_empty = tasks.clone();
    with_empty.push(job(1000, 7, 0));
    with_empty.insert(0, job(500, 0, 0));
    assert!(can_process(80, with_empty.clone()));
    assert!(!can_process(79, with_empty));
}

#[test]
fn scenario_single_job_over_budget() {
    assert!(!can_process(100, vec![job(150, 0, 10)]));
}

#[test]
fn scenario_release_at_the_same_instant_makes_room() {
    let tasks = vec![job(70, 0, 10), job(50, 10, 5)];
    assert!(can_process(70, tasks.clone()));
    assert!(!can_process(69, tasks));
}

#[test]
fn jobs_given_out_of_time_order_are_sorted() {
    // Scanned in the given order, the start at 5 would be checked after the
    // end at 20 and the overlap on [10, 15) would go unseen.
    let tasks = vec![job(50, 10, 10), job(60, 5, 10)];
    assert!(!can_process(100, tasks.clone()));
    assert!(can_process(110, tasks));
}

#[test]
fn extreme_usages_do_not_overflow() {
    let tasks = vec![job(i64::MAX, 0, 10), job(i64::MAX, 5, 10)];
    assert!(can_process(u64::MAX, tasks.clone()));
    assert!(!can_process(u64::MAX - 2, tasks));
    assert!(can_process(0, vec![job(i64::MIN, 0, 10)]));
    assert!(can_process(0, vec![job(i64::MIN, 0, 10), job(i64::MIN, 0, 10)]));
}

#[test]
fn negative_usage_offsets_a_concurrent_job() {
    let tasks = vec![job(100, 0, 10), job(-40, 0, 10)];
    assert!(can_process(60, tasks.clone()));
    assert!(!can_process(59, tasks));
}

#[test]
fn job_ending_at_the_largest_instant() {
    let tasks = vec![job(5, u64::MAX - 10, 10), job(5, u64::MAX - 1, 1)];
    assert!(!can_process(9, tasks.clone()));
    assert!(can_process(10, tasks));
}

#[test]
fn validated_check_agrees_on_valid_input() {
    let tasks = vec![job(50, 0, 10), job(30, 5, 10)];
    assert_eq!(mem_sweep::try_can_process(80, tasks.clone()), Ok(true));
    assert_eq!(mem_sweep::try_can_process(79, tasks), Ok(false));
}

#[test]
fn validated_check_rejects_an_end_past_the_largest_instant() {
    let tasks = vec![job(1, 0, 1), job(1, u64::MAX, 1), job(1, u64::MAX - 1, 5)];
    assert_eq!(
        mem_sweep::try_can_process(10, tasks),
        Err(mem_sweep::InvalidInput::EndOutOfRange { index: 1 })
    );
}
