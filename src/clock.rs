//! Points in time, as the session table records them.

use vstd::prelude::*;

verus! {

/// Nanoseconds in one second.
pub const NANOS_PER_SECOND: i128 = 1_000_000_000;

/// How long a session stays valid: seven days, in seconds.
pub const SESSION_TTL_SECONDS: u64 = 60 * 60 * 24 * 7;

/// A point in time: whole seconds since the Unix epoch, plus nanoseconds.
#[derive(Clone, Copy, Debug, PartialEq, Eq, Structural)]
pub struct Timestamp {
    pub seconds: i64,
    pub nanos: u32,
}

impl Timestamp {
    /// Nanoseconds since the Unix epoch.
    pub open spec fn as_nanos(self) -> int {
        self.seconds * 1_000_000_000 + self.nanos
    }
}

/// Whether something made at `created` is older than `ttl_seconds` at `now`.
pub open spec fn is_expired(created: Timestamp, now: Timestamp, ttl_seconds: u64) -> bool {
    now.as_nanos() - created.as_nanos() > ttl_seconds * 1_000_000_000
}

/// Decides `is_expired`, exactly, at nanosecond precision.
pub fn expired(created: Timestamp, now: Timestamp, ttl_seconds: u64) -> (r: bool)
    ensures
        r == is_expired(created, now, ttl_seconds),
{
    let ds: i128 = now.seconds as i128 - created.seconds as i128;
    assert(-0x1_0000_0000_0000_0000 < ds < 0x1_0000_0000_0000_0000);
    assert(-0x1_0000_0000_0000_0000 * 1_000_000_000 < ds * 1_000_000_000
        < 0x1_0000_0000_0000_0000 * 1_000_000_000) by (nonlinear_arith)
        requires
            -0x1_0000_0000_0000_0000 < ds < 0x1_0000_0000_0000_0000,
    ;
    assert((ttl_seconds as int) * 1_000_000_000 <= 0x1_0000_0000_0000_0000 * 1_000_000_000)
        by (nonlinear_arith)
        requires
            0 <= ttl_seconds < 0x1_0000_0000_0000_0000,
    ;
    let age: i128 = ds * NANOS_PER_SECOND + (now.nanos as i128 - created.nanos as i128);
    let limit: i128 = ttl_seconds as i128 * NANOS_PER_SECOND;
    age > limit
}

/// Relies on std's `SystemTime::duration_since(UNIX_EPOCH)`, taken of
/// `SystemTime::now()`: `Err` when the system clock reads before the epoch,
/// otherwise a `Duration`, whose `subsec_nanos` stays below one second.
#[verifier::external_body]
fn since_epoch() -> (r: Option<(u64, u32)>)
    ensures
        r matches Some(d) ==> d.1 < 1_000_000_000,
{
    match std::time::SystemTime::now().duration_since(std::time::UNIX_EPOCH) {
        Ok(d) => Some((d.as_secs(), d.subsec_nanos())),
        Err(_) => None,
    }
}

/// Relies on chrono's `DateTime::from_timestamp`, read back through
/// `DateTime::timestamp` and `DateTime::timestamp_subsec_nanos`: `None` when
/// the seconds fall outside chrono's range or the nanoseconds are invalid,
/// otherwise a UTC time that gives back the same seconds and nanoseconds.
#[verifier::external_body]
fn utc_timestamp(seconds: i64, nanos: u32) -> (r: Option<Timestamp>)
    ensures
        r matches Some(t) ==> t.seconds == seconds && t.nanos == nanos,
{
    match chrono::DateTime::from_timestamp(seconds, nanos) {
        Some(t) => Some(Timestamp { seconds: t.timestamp(), nanos: t.timestamp_subsec_nanos() }),
        None => None,
    }
}

/// The current UTC time, or nothing when the system clock does not read as a
/// time after the epoch that chrono can represent.
pub fn now() -> (r: Option<Timestamp>)
    ensures
        r matches Some(t) ==> t.nanos < 1_000_000_000,
{
    match since_epoch() {
        None => None,
        Some((seconds, nanos)) => {
            if seconds > i64::MAX as u64 {
                None
            } else {
                utc_timestamp(seconds as i64, nanos)
            }
        },
    }
}

} // verus!
