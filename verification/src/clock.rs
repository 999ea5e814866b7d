//! The time that records are stamped with.

use vstd::prelude::*;

verus! {

/// `time::get_time`: the wall-clock time, of which this keeps the whole
/// seconds since 1970-01-01T00:00:00Z. Nothing is promised of the result: it
/// is whatever the clock of the machine says.
#[verifier::external_body]
pub(crate) fn wall_clock_seconds() -> (sec: i64) {
    time::get_time().sec
}

/// The timestamp of a record written `sec` seconds after the epoch: the low
/// 32 bits of `sec`.
pub fn timestamp_of(sec: i64) -> (timestamp: u32)
    ensures
        timestamp == sec as u32,
        0 <= sec <= u32::MAX ==> timestamp == sec,
{
    #[verifier::truncate]
    (sec as u32)
}

/// The timestamp of a record written now.
pub fn now() -> (timestamp: u32) {
    timestamp_of(wall_clock_seconds())
}

} // verus!
