//! Timer arithmetic.
use vstd::prelude::*;

verus! {

/// Ticks of `time` per second.
pub const CLOCK_FREQ: u64 = 12_500_000;

pub const MEMORY_END: u64 = 0x8800_0000;

/// Timer interrupts per second that the hypervisor asks for.
pub const TICKS_PER_SEC: u64 = 100;

pub const MSEC_PER_SEC: u64 = 1000;

/// The time `time` in milliseconds.
pub fn get_time_ms(time: u64) -> (r: u64)
    ensures
        r == time / 12_500,
{
    time / (CLOCK_FREQ / MSEC_PER_SEC)
}

/// The deadline of the next timer interrupt, one tick period after `now`:
/// the value to hand to the firmware's timer.
pub fn set_next_trigger(now: u64) -> (r: u64)
    requires
        now + 125_000 <= u64::MAX,
    ensures
        r == now + 125_000,
{
    now + CLOCK_FREQ / TICKS_PER_SEC
}

} // verus!
