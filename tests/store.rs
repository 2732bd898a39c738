use debouncerd::{AdmitError, DebounceConfig, DebounceStore, Outcome, GC_ITEMS, MAX_ENTRIES, MAX_TIMEOUT_MS};

fn small(max_window_ms: u64, max_entries: usize, gc_threshold: usize) -> DebounceStore {
    DebounceStore::new(DebounceConfig { max_window_ms, max_entries, gc_threshold })
}

fn daemon_store() -> DebounceStore {
    DebounceStore::new(DebounceConfig::daemon_default())
}

#[test]
fn daemon_default_limits() {
    let c = DebounceConfig::daemon_default();
    assert_eq!(c.max_window_ms, 86_400_000);
    assert_eq!(c.max_window_ms, MAX_TIMEOUT_MS);
    assert_eq!(c.max_entries, MAX_ENTRIES);
    assert_eq!(c.max_entries, 1_000_000);
    assert_eq!(c.gc_threshold, GC_ITEMS);
    assert_eq!(c.gc_threshold, 1000);
}

#[test]
fn end_to_end_build_scenario() {
    let mut s = daemon_store();
    assert_eq!(s.check("build", 2000, 0), Ok(Outcome::Admitted));
    assert_eq!(s.check("build", 2000, 500), Ok(Outcome::Throttled(1500)));
    assert_eq!(s.check("build", 2000, 2100), Ok(Outcome::Admitted));
    assert_eq!(s.last_fire("build"), Some(2100));
}

#[test]
fn first_request_on_empty_store_admitted() {
    for w in [1u64, 2000, MAX_TIMEOUT_MS] {
        let mut s = daemon_store();
        assert_eq!(s.check("k", w, 7), Ok(Outcome::Admitted));
        assert_eq!(s.len(), 1);
        assert_eq!(s.last_fire("k"), Some(7));
    }
}

#[test]
fn repeat_within_window_throttled_and_decreasing() {
    let mut prev = u64::MAX;
    for gap in [0u64, 1, 10, 999] {
        let mut s = daemon_store();
        assert_eq!(s.check("k", 1000, 100), Ok(Outcome::Admitted));
        match s.check("k", 1000, 100 + gap) {
            Ok(Outcome::Throttled(r)) => {
                assert_eq!(r, 1000 - gap);
                assert!(r > 0);
                assert!(r < prev);
                prev = r;
            }
            other => panic!("expected throttled, got {:?}", other),
        }
        assert_eq!(s.last_fire("k"), Some(100));
    }
}

#[test]
fn repeat_after_window_admitted() {
    for gap in [1000u64, 1001, 50_000] {
        let mut s = daemon_store();
        assert_eq!(s.check("k", 1000, 100), Ok(Outcome::Admitted));
        assert_eq!(s.check("k", 1000, 100 + gap), Ok(Outcome::Admitted));
        assert_eq!(s.last_fire("k"), Some(100 + gap));
    }
}

#[test]
fn zero_window_always_admitted() {
    let mut s = daemon_store();
    assert_eq!(s.check("k", 0, 5), Ok(Outcome::Admitted));
    assert_eq!(s.check("k", 0, 5), Ok(Outcome::Admitted));
}

#[test]
fn clock_before_last_fire_counts_as_no_time() {
    let mut s = daemon_store();
    assert_eq!(s.check("k", 300, 1000), Ok(Outcome::Admitted));
    assert_eq!(s.check("k", 300, 900), Ok(Outcome::Throttled(300)));
}

#[test]
fn invalid_window_changes_nothing() {
    let mut s = small(100, 10, 5);
    assert_eq!(s.check("a", 50, 0), Ok(Outcome::Admitted));
    assert_eq!(s.check("k", 101, 10), Err(AdmitError::InvalidWindow));
    assert_eq!(s.check("a", 101, 10), Err(AdmitError::InvalidWindow));
    assert_eq!(s.len(), 1);
    assert_eq!(s.last_fire("k"), None);
    assert_eq!(s.last_fire("a"), Some(0));
    assert_eq!(s.check("k", 50, 20), Ok(Outcome::Admitted));
    assert_eq!(s.check("a", 50, 20), Ok(Outcome::Throttled(30)));
}

#[test]
fn window_equal_to_limit_accepted() {
    let mut s = small(100, 10, 5);
    assert_eq!(s.check("k", 100, 0), Ok(Outcome::Admitted));
}

#[test]
fn capacity_ceiling_refuses_new_and_present_keys() {
    let mut s = small(1000, 3, 100);
    assert_eq!(s.check("a", 10, 0), Ok(Outcome::Admitted));
    assert_eq!(s.check("b", 10, 0), Ok(Outcome::Admitted));
    assert_eq!(s.check("c", 10, 0), Ok(Outcome::Admitted));
    assert_eq!(s.check("d", 10, 50), Err(AdmitError::CapacityExceeded));
    assert_eq!(s.check("a", 10, 50), Err(AdmitError::CapacityExceeded));
    assert_eq!(s.len(), 3);
    assert_eq!(s.last_fire("a"), Some(0));
    assert_eq!(s.last_fire("d"), None);
}

#[test]
fn capacity_checked_before_window() {
    let mut s = small(1000, 1, 100);
    assert_eq!(s.check("a", 10, 0), Ok(Outcome::Admitted));
    assert_eq!(s.check("b", 5000, 0), Err(AdmitError::CapacityExceeded));
}

#[test]
fn burst_on_fresh_key_admits_once() {
    let mut s = daemon_store();
    let mut admitted = 0;
    let mut throttled = 0;
    for t in [10u64, 10, 11, 11, 12, 500, 1009] {
        match s.check("fresh", 1000, t) {
            Ok(Outcome::Admitted) => admitted += 1,
            Ok(Outcome::Throttled(_)) => throttled += 1,
            Err(e) => panic!("unexpected error {:?}", e),
        }
    }
    assert_eq!(admitted, 1);
    assert_eq!(throttled, 6);
}

#[test]
fn sweep_evicts_stale_entries_above_threshold() {
    let mut s = small(100, 10, 1);
    assert_eq!(s.check("a", 50, 0), Ok(Outcome::Admitted));
    assert_eq!(s.check("b", 50, 0), Ok(Outcome::Admitted));
    assert_eq!(s.check("c", 50, 150), Ok(Outcome::Admitted));
    assert_eq!(s.len(), 1);
    assert_eq!(s.last_fire("a"), None);
    assert_eq!(s.last_fire("b"), None);
    assert_eq!(s.check("a", 100, 160), Ok(Outcome::Admitted));
    assert_eq!(s.last_fire("a"), Some(160));
}

#[test]
fn sweep_keeps_entries_at_the_horizon() {
    let mut s = small(100, 10, 1);
    assert_eq!(s.check("a", 50, 0), Ok(Outcome::Admitted));
    assert_eq!(s.check("b", 50, 0), Ok(Outcome::Admitted));
    assert_eq!(s.check("c", 50, 100), Ok(Outcome::Admitted));
    assert_eq!(s.len(), 3);
}

#[test]
fn no_sweep_at_or_below_threshold() {
    let mut s = small(100, 10, 2);
    assert_eq!(s.check("a", 50, 0), Ok(Outcome::Admitted));
    assert_eq!(s.check("b", 50, 0), Ok(Outcome::Admitted));
    assert_eq!(s.check("c", 50, 500), Ok(Outcome::Admitted));
    assert_eq!(s.len(), 3);
    assert_eq!(s.last_fire("a"), Some(0));
}

#[test]
fn sweep_frees_capacity() {
    let mut s = small(100, 2, 1);
    assert_eq!(s.check("a", 50, 0), Ok(Outcome::Admitted));
    assert_eq!(s.check("b", 50, 0), Ok(Outcome::Admitted));
    assert_eq!(s.check("c", 50, 50), Err(AdmitError::CapacityExceeded));
    assert_eq!(s.check("c", 50, 101), Ok(Outcome::Admitted));
    assert_eq!(s.len(), 1);
}

#[test]
fn refused_request_does_not_sweep() {
    let mut s = small(100, 2, 1);
    assert_eq!(s.check("a", 50, 0), Ok(Outcome::Admitted));
    assert_eq!(s.check("b", 50, 0), Ok(Outcome::Admitted));
    assert_eq!(s.check("c", 500, 200), Err(AdmitError::InvalidWindow));
    assert_eq!(s.len(), 2);
}

#[test]
fn keys_are_independent() {
    let mut s = daemon_store();
    assert_eq!(s.check("x", 1000, 0), Ok(Outcome::Admitted));
    assert_eq!(s.check("y", 1000, 10), Ok(Outcome::Admitted));
    assert_eq!(s.check("x", 1000, 20), Ok(Outcome::Throttled(980)));
    assert_eq!(s.check("y", 1000, 20), Ok(Outcome::Throttled(990)));
    assert_eq!(s.config(), DebounceConfig::daemon_default());
}
