use chron::cache::{GetAction, SwrSlot};

#[test]
fn coalescing_serves_all_waiters_from_one_load() {
    let mut slot: SwrSlot<u64> = SwrSlot::new();
    assert_eq!(slot.on_get(0), GetAction::StartLoad);
    for _ in 0..9 {
        assert_eq!(slot.on_get(0), GetAction::AwaitLoad);
    }
    slot.on_load_success(7, 1_000_000, 100_000);
    assert_eq!(slot.on_get(1_050_000), GetAction::ReturnFresh);
    assert_eq!(slot.on_get(2_000_000), GetAction::ReturnAndRevalidate);
    assert_eq!(slot.on_get(2_000_001), GetAction::ReturnStale);
    assert_eq!(slot.on_get(2_000_002), GetAction::ReturnStale);
}

#[test]
fn a_failed_first_load_lets_the_next_caller_retry() {
    let mut slot: SwrSlot<u64> = SwrSlot::new();
    assert_eq!(slot.on_get(0), GetAction::StartLoad);
    slot.on_load_failure();
    assert_eq!(slot.on_get(10), GetAction::StartLoad);
}

#[test]
fn failed_refreshes_keep_serving_the_last_good_value() {
    let mut slot: SwrSlot<u64> = SwrSlot::new();
    assert_eq!(slot.on_get(0), GetAction::StartLoad);
    slot.on_load_success(42, 0, 100);
    assert_eq!(slot.on_get(50), GetAction::ReturnFresh);
    assert_eq!(slot.on_get(200), GetAction::ReturnAndRevalidate);
    slot.on_load_failure();
    assert_eq!(slot.value.as_ref().unwrap().0, 42);
    assert_eq!(slot.on_get(300), GetAction::ReturnAndRevalidate);
    slot.on_load_failure();
    assert_eq!(slot.value.as_ref().unwrap().0, 42);
}

#[test]
fn a_fresh_refresh_replaces_the_value_and_expiry() {
    let mut slot: SwrSlot<u64> = SwrSlot::new();
    slot.on_get(0);
    slot.on_load_success(1, 0, 100);
    assert_eq!(slot.on_get(200), GetAction::ReturnAndRevalidate);
    slot.on_load_success(2, 200, 100);
    assert_eq!(slot.value.as_ref().unwrap().0, 2);
    assert_eq!(slot.value.as_ref().unwrap().1, 300);
    assert_eq!(slot.on_get(250), GetAction::ReturnFresh);
}
