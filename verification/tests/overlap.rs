use omni_node::overlap::{currently_running, maximum_number_jobs, running_now, END_RANK, START_RANK};
use omni_node::Request;

const SECOND: u64 = 1000;

fn job(start_time: i64, duration: u64, id: u128) -> Request {
    Request { start_time, duration, id }
}

fn fresh(start_time: i64, duration: u64) -> Request {
    Request { start_time, duration, id: uuid::Uuid::new_v4().as_u128() }
}

#[test]
fn test_maximum_number_jobs_empty() {
    let jobs = vec![];

    assert_eq!(maximum_number_jobs(jobs), 0);
}

#[test]
fn test_maximum_number_jobs_simple() {
    let now = chrono::Local::now().timestamp_millis();

    let jobs = vec![Request {
        start_time: now,
        duration: SECOND,
        id: uuid::Uuid::new_v4().as_u128(),
    }];

    assert_eq!(maximum_number_jobs(jobs), 1);
}

#[test]
fn test_maximum_number_jobs_double() {
    let now = chrono::Local::now().timestamp_millis();

    let jobs = vec![
        Request {
            start_time: now,
            duration: 2 * SECOND,
            id: uuid::Uuid::new_v4().as_u128(),
        },
        Request {
            start_time: now + 1000,
            duration: SECOND,
            id: uuid::Uuid::new_v4().as_u128(),
        },
    ];

    assert_eq!(maximum_number_jobs(jobs), 2);
}

#[test]
fn test_maximum_number_jobs_overlap() {
    let now = chrono::Local::now().timestamp_millis();

    let jobs = vec![
        Request {
            start_time: now,
            duration: 3 * SECOND,
            id: uuid::Uuid::new_v4().as_u128(),
        },
        Request {
            start_time: now + 1000,
            duration: 3 * SECOND,
            id: uuid::Uuid::new_v4().as_u128(),
        },
        Request {
            start_time: now + 2000,
            duration: 3 * SECOND,
            id: uuid::Uuid::new_v4().as_u128(),
        },
    ];

    assert_eq!(maximum_number_jobs(jobs), 3);
}

#[test]
fn single_job_of_two_seconds_has_peak_one() {
    let t0 = 1_700_000_000_000;
    assert_eq!(maximum_number_jobs(vec![fresh(t0, 2 * SECOND)]), 1);
}

#[test]
fn nested_jobs_have_peak_two() {
    let t0 = 1_700_000_000_000;
    let jobs = vec![fresh(t0, 2 * SECOND), fresh(t0 + 1000, SECOND)];
    assert_eq!(maximum_number_jobs(jobs), 2);
}

#[test]
fn staggered_jobs_have_peak_three() {
    let t0 = 1_700_000_000_000;
    let jobs = vec![
        fresh(t0, 3 * SECOND),
        fresh(t0 + 1000, 3 * SECOND),
        fresh(t0 + 2000, 3 * SECOND),
    ];
    assert_eq!(maximum_number_jobs(jobs), 3);
}

#[test]
fn disjoint_jobs_have_peak_one() {
    let t0 = 1_700_000_000_000;
    let jobs = vec![fresh(t0, SECOND), fresh(t0 + 5000, SECOND)];
    assert_eq!(maximum_number_jobs(jobs), 1);
}

#[test]
fn empty_snapshot_has_peak_zero_and_nothing_running() {
    assert_eq!(maximum_number_jobs(Vec::new()), 0);
    assert!(currently_running(&Vec::new(), 0).is_empty());
    assert!(running_now(&Vec::new()).is_empty());
}

#[test]
fn nonempty_snapshot_has_peak_at_least_one() {
    let jobs = vec![job(-5, 0, 1), job(100, 7, 2), job(1_000_000, 1, 3)];
    assert!(maximum_number_jobs(jobs) >= 1);
}

#[test]
fn jobs_that_touch_at_a_boundary_run_together() {
    let t0 = 1_700_000_000_000;
    let jobs = vec![fresh(t0, SECOND), fresh(t0 + 1000, SECOND)];
    assert_eq!(maximum_number_jobs(jobs), 2);
}

#[test]
fn jobs_one_millisecond_apart_do_not_run_together() {
    let t0 = 1_700_000_000_000;
    let jobs = vec![fresh(t0, SECOND), fresh(t0 + 1001, SECOND)];
    assert_eq!(maximum_number_jobs(jobs), 1);
}

#[test]
fn opening_events_are_swept_before_closing_events() {
    assert_eq!(START_RANK, 0);
    assert_eq!(END_RANK, 1);
    assert!(START_RANK < END_RANK);
}

#[test]
fn jobs_with_a_common_instant_all_count() {
    let k = 25;
    let jobs: Vec<Request> = (0..k).map(|i| job(100 - i as i64, 200 + i as u64, i as u128)).collect();
    assert_eq!(maximum_number_jobs(jobs), k);
}

#[test]
fn identical_intervals_all_count() {
    let jobs = vec![job(10, 5, 1), job(10, 5, 2), job(10, 5, 3), job(10, 5, 4)];
    assert_eq!(maximum_number_jobs(jobs), 4);
}

#[test]
fn job_without_duration_counts_at_its_instant() {
    assert_eq!(maximum_number_jobs(vec![job(7, 0, 1)]), 1);
    assert_eq!(maximum_number_jobs(vec![job(7, 0, 1), job(7, 0, 2)]), 2);
    assert_eq!(maximum_number_jobs(vec![job(0, 7, 1), job(7, 0, 2), job(7, 3, 3)]), 3);
    assert_eq!(maximum_number_jobs(vec![job(0, 6, 1), job(7, 0, 2), job(8, 3, 3)]), 1);
}

#[test]
fn order_of_the_snapshot_does_not_matter() {
    let sorted = vec![job(0, 10, 1), job(5, 10, 2), job(8, 1, 3), job(20, 5, 4), job(22, 1, 5)];
    let shuffled = vec![job(22, 1, 5), job(8, 1, 3), job(0, 10, 1), job(20, 5, 4), job(5, 10, 2)];
    assert_eq!(maximum_number_jobs(sorted), 3);
    assert_eq!(maximum_number_jobs(shuffled), 3);
}

#[test]
fn late_jobs_given_first_are_still_swept_in_time_order() {
    let jobs = vec![job(50, 1, 1), job(60, 1, 2), job(70, 1, 3), job(0, 100, 4)];
    assert_eq!(maximum_number_jobs(jobs), 2);
    let jobs = vec![job(90, 5, 1), job(80, 5, 2), job(70, 50, 3), job(60, 50, 4), job(0, 10, 5)];
    assert_eq!(maximum_number_jobs(jobs), 3);
    let jobs = vec![job(30, 0, 1), job(20, 10, 2), job(10, 20, 3), job(0, 30, 4)];
    assert_eq!(maximum_number_jobs(jobs), 4);
}

#[test]
fn extreme_timestamps_do_not_overflow() {
    let jobs = vec![
        job(i64::MAX, u64::MAX, 1),
        job(i64::MIN, u64::MAX, 2),
        job(i64::MIN, 0, 3),
        job(i64::MAX, 0, 4),
    ];
    // The second job ends at i64::MIN + u64::MAX == i64::MAX, where the first and last start.
    assert_eq!(maximum_number_jobs(jobs), 3);
    assert_eq!(maximum_number_jobs(vec![job(i64::MIN, u64::MAX - 1, 1), job(i64::MAX, 1, 2)]), 1);
}

#[test]
fn running_jobs_include_both_ends_of_the_interval() {
    let jobs = vec![job(10, 5, 1), job(15, 5, 2), job(16, 1, 3), job(0, 9, 4), job(15, 0, 5)];
    assert_eq!(currently_running(&jobs, 15), vec![job(10, 5, 1), job(15, 5, 2), job(15, 0, 5)]);
    assert_eq!(currently_running(&jobs, 10), vec![job(10, 5, 1)]);
    assert_eq!(currently_running(&jobs, 9), vec![job(0, 9, 4)]);
    assert_eq!(currently_running(&jobs, 21), Vec::<Request>::new());
    assert_eq!(currently_running(&jobs, -1), Vec::<Request>::new());
    assert_eq!(currently_running(&jobs, 17), vec![job(15, 5, 2), job(16, 1, 3)]);
}

#[test]
fn running_jobs_at_extreme_instants() {
    let jobs = vec![job(i64::MAX, u64::MAX, 1), job(i64::MIN, 0, 2), job(0, u64::MAX, 3)];
    assert_eq!(currently_running(&jobs, i64::MAX), vec![job(i64::MAX, u64::MAX, 1), job(0, u64::MAX, 3)]);
    assert_eq!(currently_running(&jobs, i64::MIN), vec![job(i64::MIN, 0, 2)]);
}

#[test]
fn running_now_follows_the_clock() {
    let now = chrono::Local::now().timestamp_millis();
    let jobs = vec![
        job(now - 1_000_000, 2_000_000, 1),
        job(now + 1_000_000, 5, 2),
        job(now - 1_000_000, 5, 3),
        job(0, u64::MAX, 4),
    ];
    assert_eq!(running_now(&jobs), vec![job(now - 1_000_000, 2_000_000, 1), job(0, u64::MAX, 4)]);
}
