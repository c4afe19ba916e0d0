use omni_node::client::{
    draw_job, next_job, MAX_DURATION_MS, MIN_DURATION_MS, REQUESTS_NUMBER, START_WINDOW_MS,
    SUBMIT_INTERVAL_SECS,
};

#[test]
fn client_settings() {
    assert_eq!(REQUESTS_NUMBER, 30);
    assert_eq!(SUBMIT_INTERVAL_SECS, 5);
    assert_eq!(START_WINDOW_MS, 600_000);
    assert_eq!(MIN_DURATION_MS, 10_000);
    assert_eq!(MAX_DURATION_MS, 1_000_000);
}

#[test]
fn drawn_jobs_start_within_the_window_and_have_a_duration_in_bounds() {
    for now in [0i64, -1_000_000, 1_700_000_000_000, i64::MIN, i64::MAX - 600_000] {
        for _ in 0..200 {
            let job = draw_job(now).unwrap();
            assert!(now <= job.start_time);
            assert!((job.start_time as i128) < now as i128 + 600_000);
            assert!(10_000 <= job.duration && job.duration < 1_000_000);
        }
    }
}

#[test]
fn drawn_jobs_differ() {
    let jobs: Vec<_> = (0..50).map(|_| draw_job(1_700_000_000_000).unwrap()).collect();
    for (i, a) in jobs.iter().enumerate() {
        for b in &jobs[i + 1..] {
            assert_ne!(a.id, b.id);
        }
    }
    assert!(jobs.iter().any(|job| job.start_time != 1_700_000_000_000));
    assert!(jobs.iter().any(|job| job.duration != 10_000));
    assert!(jobs.iter().any(|job| job.start_time != jobs[0].start_time));
    assert!(jobs.iter().any(|job| job.duration != jobs[0].duration));
}

#[test]
fn no_job_is_drawn_where_the_window_would_overflow() {
    assert_eq!(draw_job(i64::MAX), None);
    assert_eq!(draw_job(i64::MAX - 599_999), None);
    assert!(draw_job(i64::MAX - 600_000).is_some());
}

#[test]
fn next_job_starts_in_the_near_future() {
    let before = chrono::Local::now().timestamp_millis();
    let job = next_job().unwrap();
    let after = chrono::Local::now().timestamp_millis();
    assert!(before <= job.start_time);
    assert!(job.start_time < after + 600_000);
    assert!(10_000 <= job.duration && job.duration < 1_000_000);
}

#[test]
fn next_job_always_gives_a_job() {
    for _ in 0..100 {
        let job = next_job().expect("the clock leaves room for the window");
        assert!(job.start_time.unsigned_abs() < (1u64 << 58) + 600_000);
        assert!(10_000 <= job.duration && job.duration < 1_000_000);
    }
}
