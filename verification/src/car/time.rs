//! The clock.

use vstd::prelude::*;

verus! {

/// The microseconds of a duration, given its whole seconds and the nanoseconds
/// beyond them; counted around the largest number to zero.
pub fn monotonic_us(secs: u64, nanos: u32) -> (out: u64)
    ensures
        out == (secs * 1_000_000 + nanos / 1_000) % 0x1_0000_0000_0000_0000,
{
    let us: u128 = secs as u128 * 1_000_000 + (nanos / 1_000) as u128;
    (us % 0x1_0000_0000_0000_0000u128) as u64
}

/// Later durations never give earlier microseconds, as long as they can be
/// counted.
pub proof fn law_clock_never_goes_back(secs: u64, nanos: u32, later_secs: u64, later_nanos: u32)
    requires
        nanos < 1_000_000_000,
        secs < later_secs || (secs == later_secs && nanos <= later_nanos),
        later_secs * 1_000_000 + later_nanos / 1_000 < 0x1_0000_0000_0000_0000,
    ensures
        (secs * 1_000_000 + nanos / 1_000) % 0x1_0000_0000_0000_0000 <= (later_secs * 1_000_000
            + later_nanos / 1_000) % 0x1_0000_0000_0000_0000,
{
}

} // verus!
