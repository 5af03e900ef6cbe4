use vstd::prelude::*;
use std::time::{Duration, Instant};

verus! {

#[verifier::external_type_specification]
#[verifier::external_body]
pub struct ExInstant(std::time::Instant);

/// Relies on `Instant::now`: a reading of the monotonic clock.
pub assume_specification[ std::time::Instant::now ]() -> std::time::Instant;

/// Relies on `Instant::elapsed`: the time passed since the reading.
pub assume_specification[ std::time::Instant::elapsed ](self_: &std::time::Instant) -> std::time::Duration;

/// Relies on `Duration::as_secs`: the whole seconds.
pub assume_specification[ std::time::Duration::as_secs ](self_: &std::time::Duration) -> u64;

/// Relies on `Duration::subsec_nanos`: the fractional part in nanoseconds, always
/// below one billion.
pub assume_specification[ std::time::Duration::subsec_nanos ](self_: &std::time::Duration) -> (r: u32)
    ensures
        r < 1_000_000_000,
;

/// A span of wall-clock time: whole seconds and the nanoseconds beyond them.
#[derive(Clone, Copy, Debug, PartialEq, Eq, Structural)]
pub struct Elapsed {
    pub secs: u64,
    pub nanos: u32,
}

impl Elapsed {
    pub open spec fn wf(&self) -> bool {
        self.nanos < 1_000_000_000
    }

    /// The time passed since `start`.
    pub fn since(start: &Instant) -> (r: Elapsed)
        ensures
            r.wf(),
    {
        let d: Duration = start.elapsed();
        Elapsed { secs: d.as_secs(), nanos: d.subsec_nanos() }
    }
}

} // verus!
