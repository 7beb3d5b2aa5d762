//! Points in time, as the aggregate stores them.

use vstd::prelude::*;

verus! {

/// A point on the UTC time line: whole seconds since the Unix epoch and the
/// nanoseconds past that second.
#[derive(Clone, Copy, Debug, PartialEq, Eq, Structural)]
pub struct Timestamp {
    pub seconds: i64,
    pub nanos: u32,
}

/// Reads the clock through `libocc::Utc::now` and keeps the seconds and the
/// sub-second nanoseconds of the answer. The answer depends on when the call
/// is made, so nothing is claimed of it. The clock is taken to stand at or
/// after the start of 1970, as `chrono` takes it.
#[verifier::external_body]
pub(crate) fn current_time() -> Timestamp {
    let now = libocc::Utc::now();
    Timestamp { seconds: now.timestamp(), nanos: now.timestamp_subsec_nanos() }
}

} // verus!
