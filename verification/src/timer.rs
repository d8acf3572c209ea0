//! Expiring timers over a caller-supplied monotonic clock.
//!
//! Instants are nanoseconds since an origin that the caller picks once. A
//! timeout is a number of whole seconds.

use vstd::prelude::*;

verus! {

/// Nanoseconds in one second.
pub const NANOS_PER_SEC: u128 = 1_000_000_000;

/// Whether a timer last set at `instant` has run for `timeout` whole seconds
/// when the clock shows `now`. A clock that went backwards counts as expired.
pub open spec fn expired_at(instant: u128, now: u128, timeout: u64) -> bool {
    now < instant || (now - instant) / (NANOS_PER_SEC as int) >= timeout
}

/// The instant at which something last happened.
#[derive(Clone, Copy, Debug, PartialEq, Eq, Structural)]
pub struct ExpiringTimer(pub u128);

impl ExpiringTimer {
    /// A timer set to `now`.
    pub fn new(now: u128) -> (timer: ExpiringTimer)
        ensures
            timer == ExpiringTimer(now),
    {
        ExpiringTimer(now)
    }

    /// Sets the timer to `now`.
    pub fn access(&mut self, now: u128)
        ensures
            *final(self) == ExpiringTimer(now),
    {
        self.0 = now;
    }

    /// The instant the timer was last set to.
    pub fn instant(&self) -> (instant: u128)
        ensures
            instant == self.0,
    {
        self.0
    }

    /// Whether `timeout` seconds have passed since the timer was last set.
    pub open spec fn expired(self, now: u128, timeout: u64) -> bool {
        expired_at(self.0, now, timeout)
    }

    /// Whether `timeout` seconds have passed since the timer was last set,
    /// with the clock at `now`.
    pub fn is_expired(&self, now: u128, timeout: u64) -> (expired: bool)
        ensures
            expired == self.expired(now, timeout),
    {
        if now < self.0 {
            true
        } else {
            let elapsed: u128 = (now - self.0) / NANOS_PER_SEC;
            elapsed >= timeout as u128
        }
    }
}

/// A timer that has expired stays expired as the clock moves on.
pub proof fn lemma_expiry_is_monotonic(timer: ExpiringTimer, now: u128, later: u128, timeout: u64)
    requires
        timer.0 <= now <= later,
        timer.expired(now, timeout),
    ensures
        timer.expired(later, timeout),
{
    assert((now - timer.0) / (NANOS_PER_SEC as int) <= (later - timer.0) / (NANOS_PER_SEC as int))
        by (nonlinear_arith)
        requires
            now - timer.0 <= later - timer.0,
            NANOS_PER_SEC == 1_000_000_000,
    ;
}

/// A timer that was just set has not expired under any positive timeout.
pub proof fn lemma_fresh_timer_is_live(now: u128, timeout: u64)
    requires
        timeout > 0,
    ensures
        !ExpiringTimer(now).expired(now, timeout),
{
}

} // verus!
