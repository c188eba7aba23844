use rust_wasm::signal::AbortSignal;
use rust_wasm::timer::{YieldTimer, PROGRESS_INTERVAL_MS, YIELD_EACH_N, YIELD_INTERVAL_MS};

#[test]
fn timer_fires_only_after_a_full_interval() {
    let mut timer = YieldTimer::new(1000, YIELD_INTERVAL_MS);
    assert!(!timer.yield_check(1000));
    assert!(!timer.yield_check(1049));
    assert!(timer.yield_check(1050));
    // After firing, the interval restarts at the fire time.
    assert!(!timer.yield_check(1099));
    assert!(timer.yield_check(1100));
}

#[test]
fn timer_ignores_a_clock_running_backwards() {
    let mut timer = YieldTimer::new(1000, 50);
    assert!(!timer.yield_check(900));
    assert!(timer.yield_check(1050));
}

#[test]
fn configured_cadences() {
    assert_eq!(YIELD_INTERVAL_MS, 50);
    assert_eq!(YIELD_EACH_N, 2000);
    assert_eq!(PROGRESS_INTERVAL_MS, 1000);
}

#[test]
fn signal_starts_unfired_and_fires_once() {
    let signal = AbortSignal::new();
    assert!(!signal.aborted());
    signal.abort();
    assert!(signal.aborted());
    // Firing again keeps it fired.
    signal.abort();
    assert!(signal.aborted());
}
