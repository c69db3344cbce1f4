//! Timestamps carried by thoughts, tags and references.
//!
//! A timestamp is held as plain values: whole seconds since the Unix epoch
//! and the nanoseconds within that second. Reading the clock is the one
//! operation only an outside crate can perform; it sits behind a single
//! trusted wrapper.

use vstd::prelude::*;

verus! {

/// The largest nanosecond count a timestamp may carry. Clock readings stay
/// below two seconds' worth of nanoseconds even while a leap second is
/// smeared into the preceding second.
pub const MAX_TIMESTAMP_NANOS: u32 = 1_999_999_999;

/// A point in time: whole seconds since the Unix epoch (negative values lie
/// before it) plus the nanoseconds within that second.
#[derive(Debug, Clone, Copy, PartialEq, Eq, Structural)]
pub struct Timestamp {
    /// Whole seconds since the Unix epoch
    pub secs: i64,
    /// Nanoseconds within the second
    pub nanos: u32,
}

impl Timestamp {
    /// Builds a timestamp from its two components.
    pub fn new(secs: i64, nanos: u32) -> (r: Self)
        ensures
            (r == Timestamp { secs, nanos }),
    {
        Timestamp { secs, nanos }
    }
}

/// Reads the current wall-clock time.
///
/// Relies on chrono's `From<SystemTime>` conversion for `DateTime<Utc>`,
/// which reads a system clock set before the Unix epoch without failing,
/// and on `chrono::DateTime::timestamp` and
/// `chrono::DateTime::timestamp_subsec_nanos` to take the reading apart
/// into plain values. Nothing can be promised about which instant comes
/// back; the documented range of the nanosecond part is all that is
/// stated.
#[verifier::external_body]
pub fn now_timestamp() -> (r: Timestamp)
    ensures
        r.nanos <= MAX_TIMESTAMP_NANOS,
{
    let now = chrono::DateTime::<chrono::Utc>::from(std::time::SystemTime::now());
    Timestamp { secs: now.timestamp(), nanos: now.timestamp_subsec_nanos() }
}

} // verus!
