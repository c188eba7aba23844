//! The cancellation signal: a shared one-shot flag. A producer calls
//! `abort`; the solver observes the flag at its suspension points and
//! gives up with a `Cancelled` error.

use vstd::prelude::*;
use vstd::rwlock::RwLock;
use vstd::rwlock::RwLockPredicate;

verus! {

/// The lock invariant of the abort flag: any value is allowed.
pub struct AnyFlag;

impl RwLockPredicate<bool> for AnyFlag {
    open spec fn inv(self, v: bool) -> bool {
        true
    }
}

/// A one-shot cancellation flag, set by `abort` and read by `aborted`.
/// The flag is shared: every party holds a reference to one signal.
pub struct AbortSignal {
    state: RwLock<bool, AnyFlag>,
}

impl AbortSignal {
    /// A fresh, unfired signal.
    pub fn new() -> AbortSignal {
        AbortSignal { state: RwLock::new(false, Ghost(AnyFlag)) }
    }

    /// Whether the signal has fired. The answer reflects a moment between
    /// the call's start and end; a concurrent `abort` may race it.
    pub fn aborted(&self) -> bool {
        let handle = self.state.acquire_read();
        let b = *handle.borrow();
        handle.release_read();
        b
    }

    /// Fire the signal. The flag only ever moves from unset to set.
    pub fn abort(&self) {
        let (_old, handle) = self.state.acquire_write();
        handle.release_write(true);
    }
}

} // verus!
