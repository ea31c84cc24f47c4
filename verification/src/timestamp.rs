//! Modification times, as seconds and nanoseconds relative to the Unix epoch.

use vstd::prelude::*;

verus! {

/// Nanoseconds in one second.
pub const NANOS_PER_SEC: u32 = 1_000_000_000;

/// A point in time: `secs` whole seconds after (or, when negative, before)
/// the Unix epoch, plus `nanos` nanoseconds (`nanos < NANOS_PER_SEC` for a
/// well-formed value).
#[derive(Clone, Copy, Debug, PartialEq, Eq, Structural)]
pub struct Timestamp {
    pub secs: i64,
    pub nanos: u32,
}

impl Timestamp {
    /// The nanosecond part is below one second.
    pub open spec fn wf(self) -> bool {
        self.nanos < NANOS_PER_SEC
    }

    /// The time in nanoseconds from the epoch.
    pub open spec fn nanos_since_epoch(self) -> int {
        self.secs * NANOS_PER_SEC + self.nanos
    }

    /// Whether the epoch plus `secs` seconds and `nanos` nanoseconds is
    /// representable (the nanoseconds carry into whole seconds).
    pub open spec fn fits(secs: u64, nanos: u32) -> bool {
        secs + nanos / NANOS_PER_SEC <= i64::MAX
    }

    /// The epoch plus `secs` seconds and `nanos` nanoseconds, normalised.
    pub open spec fn spec_after_epoch(secs: u64, nanos: u32) -> Timestamp {
        Timestamp {
            secs: (secs + nanos / NANOS_PER_SEC) as i64,
            nanos: (nanos % NANOS_PER_SEC) as u32,
        }
    }

    /// The time `secs` seconds and `nanos` nanoseconds after the epoch;
    /// nanoseconds of a second or more carry into the seconds.
    pub fn after_epoch(secs: u64, nanos: u32) -> (t: Timestamp)
        requires
            Self::fits(secs, nanos),
        ensures
            t == Self::spec_after_epoch(secs, nanos),
            t.wf(),
            t.nanos_since_epoch() == secs * NANOS_PER_SEC + nanos,
    {
        let carry = nanos / NANOS_PER_SEC;
        let total = secs + carry as u64;
        Timestamp { secs: total as i64, nanos: nanos % NANOS_PER_SEC }
    }

    /// The time `secs` seconds and `nanos` nanoseconds before the epoch.
    pub fn before_epoch(secs: u64, nanos: u32) -> (t: Timestamp)
        requires
            nanos < NANOS_PER_SEC,
            secs <= i64::MAX,
        ensures
            t.wf(),
            t.nanos_since_epoch() == -(secs * NANOS_PER_SEC + nanos),
    {
        if nanos == 0 {
            Timestamp { secs: -(secs as i64), nanos: 0 }
        } else {
            Timestamp { secs: -(secs as i64) - 1, nanos: NANOS_PER_SEC - nanos }
        }
    }
}

} // verus!
