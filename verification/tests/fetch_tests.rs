use chron::fetch::{classify_status, ClientResponse, FetchOutcome, RequestGate, BREAKER_PAUSE_MICROS};

#[test]
fn permits_bound_concurrency() {
    let mut g = RequestGate::new(2);
    assert!(g.try_acquire(0));
    assert!(g.try_acquire(0));
    assert!(!g.try_acquire(0));
    g.release();
    assert!(g.try_acquire(0));
}

#[test]
fn a_502_blocks_new_requests_until_the_pause_passes() {
    let mut g = RequestGate::new(20);
    assert!(g.try_acquire(0));
    g.on_status(502, 1_000);
    g.release();
    assert!(!g.try_acquire(1_001));
    assert!(!g.try_acquire(1_000 + BREAKER_PAUSE_MICROS - 1));
    assert!(g.try_acquire(1_000 + BREAKER_PAUSE_MICROS));
}

#[test]
fn other_statuses_leave_the_gate_alone() {
    let mut g = RequestGate::new(1);
    g.on_status(200, 0);
    assert!(g.try_acquire(1));
    g.on_status(404, 2);
    g.release();
    assert!(g.try_acquire(3));
}

#[test]
fn the_observation_timestamp_is_the_instant_before_the_request() {
    let r = ClientResponse {
        timestamp_before: 1_000,
        timestamp_after: 1_750,
        status: 200,
        data: vec![1, 2, 3],
    };
    assert_eq!(r.timestamp(), 1_000);
    assert_eq!(r.request_time(), 750);
}

#[test]
fn statuses_classify_absent_failed_or_success() {
    assert_eq!(classify_status(404), FetchOutcome::Absent);
    assert_eq!(classify_status(200), FetchOutcome::Success);
    assert_eq!(classify_status(302), FetchOutcome::Success);
    assert_eq!(classify_status(500), FetchOutcome::Failed);
    assert_eq!(classify_status(502), FetchOutcome::Failed);
    assert_eq!(classify_status(400), FetchOutcome::Failed);
}
