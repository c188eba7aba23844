//! The cooperative yield timer, as a pure state machine over milliseconds
//! of wall time. The host drives it: it supplies the clock readings and,
//! when the timer says so, actually yields to its scheduler.

use vstd::prelude::*;

verus! {

/// Milliseconds between two yields to the host scheduler.
pub const YIELD_INTERVAL_MS: u64 = 50;

/// Iterations of the inner board loop between two yield checks.
pub const YIELD_EACH_N: u64 = 2000;

/// Milliseconds between two progress log lines.
pub const PROGRESS_INTERVAL_MS: u64 = 1000;

/// Tracks when execution was last surrendered to the host scheduler, so
/// that long solves yield at a bounded interval.
pub struct YieldTimer {
    pub last_ms: u64,
    pub interval_ms: u64,
}

impl YieldTimer {
    /// A timer that last yielded `now_ms` and fires every `interval_ms`.
    pub fn new(now_ms: u64, interval_ms: u64) -> (t: YieldTimer)
        ensures
            t.last_ms == now_ms,
            t.interval_ms == interval_ms,
    {
        YieldTimer { last_ms: now_ms, interval_ms }
    }

    /// Whether the host should yield now: true exactly when a full
    /// interval has passed since the last yield. When it fires, the
    /// yield time is remembered; otherwise the timer is unchanged.
    pub fn yield_check(&mut self, now_ms: u64) -> (should_yield: bool)
        ensures
            should_yield == (now_ms >= old(self).last_ms + old(self).interval_ms),
            final(self).interval_ms == old(self).interval_ms,
            final(self).last_ms == (if should_yield {
                now_ms
            } else {
                old(self).last_ms
            }),
    {
        if now_ms >= self.last_ms && now_ms - self.last_ms >= self.interval_ms {
            self.last_ms = now_ms;
            true
        } else {
            false
        }
    }
}

} // verus!
