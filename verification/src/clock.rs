//! Time as the engine sees it: whole UTC seconds, read through an injected
//! clock so the ranking stays pure.
use vstd::prelude::*;

verus! {

/// A UTC instant, stored as whole seconds since the Unix epoch.
#[derive(Debug, Clone, Copy, PartialEq, Eq, Structural, PartialOrd, Ord, Hash)]
pub struct Timestamp(i64);

impl Timestamp {
    /// The seconds this instant holds.
    pub closed spec fn seconds(self) -> i64 {
        self.0
    }

    /// Builds an instant from a count of seconds since the Unix epoch.
    pub fn from_unix_seconds(seconds: i64) -> (r: Self)
        ensures
            r.seconds() == seconds,
    {
        Timestamp(seconds)
    }

    /// Seconds since the Unix epoch, negative before it.
    pub fn unix_seconds(self) -> (r: i64)
        ensures
            r == self.seconds(),
    {
        self.0
    }

    /// Two instants are equal exactly when their seconds are.
    pub proof fn lemma_seconds_injective(a: Timestamp, b: Timestamp)
        ensures
            a.seconds() == b.seconds() <==> a == b,
    {
    }
}

/// Source of the current UTC instant, injected so the engine stays pure.
pub trait Clock {
    /// The instant this clock reads now.
    fn now(&self) -> Timestamp;
}

/// A clock frozen on one instant, used by unit tests and scenarios.
#[derive(Debug, Clone, Copy, PartialEq, Eq)]
pub struct FixedClock {
    now: Timestamp,
}

impl FixedClock {
    /// The instant this clock always reads.
    pub closed spec fn reading(self) -> Timestamp {
        self.now
    }

    /// Builds a clock that always reads `now`.
    pub fn new(now: Timestamp) -> (r: Self)
        ensures
            r.reading() == now,
    {
        FixedClock { now }
    }
}

impl Clock for FixedClock {
    fn now(&self) -> (r: Timestamp)
        ensures
            r == self.reading(),
    {
        self.now
    }
}

/// The real wall clock of this process, reading the system time in UTC.
#[derive(Debug, Clone, Copy, PartialEq, Eq, Default)]
pub struct SystemClock;

impl SystemClock {
    /// Builds the process clock; it holds no state.
    pub fn new() -> Self {
        SystemClock
    }
}

/// `SystemTime::now().duration_since(UNIX_EPOCH)`: whether the system time is
/// at or after the epoch, and the whole seconds between them.
#[verifier::external_body]
fn elapsed_since_epoch() -> (bool, u64) {
    match std::time::SystemTime::now().duration_since(std::time::UNIX_EPOCH) {
        Ok(elapsed) => (true, elapsed.as_secs()),
        Err(earlier) => (false, earlier.duration().as_secs()),
    }
}

/// `seconds` on the side of the epoch `after_epoch` names, as a signed count
/// saturating at `i64::MAX` on either side.
pub open spec fn signed_seconds_of(after_epoch: bool, seconds: u64) -> int {
    if after_epoch {
        if seconds > i64::MAX { i64::MAX as int } else { seconds as int }
    } else {
        if seconds > i64::MAX { -i64::MAX } else { -(seconds as int) }
    }
}

/// Signed seconds from the epoch, saturating at `i64::MAX` on either side.
pub fn signed_seconds(after_epoch: bool, seconds: u64) -> (r: i64)
    ensures
        r == signed_seconds_of(after_epoch, seconds),
{
    let magnitude: i64 = if seconds > 0x7FFF_FFFF_FFFF_FFFF {
        0x7FFF_FFFF_FFFF_FFFF
    } else {
        seconds as i64
    };
    if after_epoch {
        magnitude
    } else {
        -magnitude
    }
}

impl Clock for SystemClock {
    /// The system time, in whole seconds on its side of the epoch, saturated
    /// into `i64`; which instant it reads depends on when it is called.
    fn now(&self) -> (r: Timestamp)
        ensures
            exists|after_epoch: bool, seconds: u64| r.seconds() == #[trigger] signed_seconds_of(after_epoch, seconds),
    {
        let (after_epoch, seconds) = elapsed_since_epoch();
        let r = Timestamp::from_unix_seconds(signed_seconds(after_epoch, seconds));
        assert(r.seconds() == signed_seconds_of(after_epoch, seconds));
        r
    }
}

} // verus!
