//! Wall time from the platform's monotonic counter.

use vstd::prelude::*;
use crate::config::CLOCK_FREQ;

verus! {

/// The number of timer interrupts per second.
pub const TICKS_PER_SEC: usize = 100;

/// The number of milliseconds per second.
pub const MSEC_PER_SEC: usize = 1000;

/// The number of microseconds per second.
pub const MICRO_PER_SEC: usize = 1_000_000;

/// The whole milliseconds that have passed when the counter reads `ticks`.
pub open spec fn ticks_to_ms(ticks: int) -> int {
    ticks * 1000 / 12500000
}

/// The whole microseconds that have passed when the counter reads `ticks`.
pub open spec fn ticks_to_us(ticks: int) -> int {
    ticks * 1000000 / 12500000
}

/// The counter's reading at which the next timer interrupt is due, when it
/// reads `ticks` now: one hundredth of a second later.
pub open spec fn next_trigger(ticks: int) -> int {
    ticks + 125000
}

/// The time in milliseconds at which the counter reads `ticks`.
pub fn get_time_ms(ticks: usize) -> (ms: usize)
    ensures
        ms == ticks_to_ms(ticks as int),
        ms <= ticks,
{
    let ms: u128 = ticks as u128 * (MSEC_PER_SEC as u128) / (CLOCK_FREQ as u128);
    ms as usize
}

/// The time in microseconds at which the counter reads `ticks`.
pub fn get_time_us(ticks: usize) -> (us: usize)
    ensures
        us == ticks_to_us(ticks as int),
        us <= ticks,
{
    let us: u128 = ticks as u128 * (MICRO_PER_SEC as u128) / (CLOCK_FREQ as u128);
    us as usize
}

/// The counter's reading at which the timer is to be armed next, when it
/// reads `ticks` now.
pub fn set_next_trigger(ticks: usize) -> (deadline: usize)
    requires
        next_trigger(ticks as int) <= usize::MAX,
    ensures
        deadline == next_trigger(ticks as int),
{
    ticks + CLOCK_FREQ / TICKS_PER_SEC
}

} // verus!
