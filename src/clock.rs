//! Tick timing: deadlines computed from the tick index so that rounding
//! never accumulates, and the sample offset handed to each tick.
use vstd::prelude::*;
use crate::ids::{TICKS_PER_SECOND, SAMPLES_PER_TICK};

verus! {

/// Milliseconds per second.
pub const MILLIS_PER_SECOND: u64 = 1000;

/// The largest tick index whose deadline is computed without overflow.
pub const MAX_TICK: u64 = 18_446_744_073_709_550;

/// Ticks between two performance reports (half a second).
pub const TICKS_PER_REPORT: u64 = 30;

/// Scheduled end of tick `tick`, in milliseconds after the start instant.
pub open spec fn spec_tick_end_ms(tick: nat) -> int {
    ((tick + 1) * MILLIS_PER_SECOND) as int / TICKS_PER_SECOND as int
}

/// The scheduled end of tick `tick`, in whole milliseconds after the
/// engine's start instant, computed afresh from the index.
pub fn scheduled_tick_end_ms(tick: u64) -> (r: u64)
    requires
        tick <= MAX_TICK,
    ensures
        r == spec_tick_end_ms(tick as nat),
{
    ((tick + 1) * MILLIS_PER_SECOND) / (TICKS_PER_SECOND as u64)
}

/// No drift: the deadline of tick `n` lies within one millisecond before
/// the exact instant `(n + 1) / TICKS_PER_SECOND` seconds after the start
/// (well within one tick), whatever `n` is.
pub proof fn lemma_tick_end_exact(n: nat)
    ensures
        0 <= (n + 1) * MILLIS_PER_SECOND - spec_tick_end_ms(n) * TICKS_PER_SECOND < TICKS_PER_SECOND,
        spec_tick_end_ms(n) <= spec_tick_end_ms(n + 1),
{
    let a = ((n + 1) * 1000) as int;
    let b = ((n + 2) * 1000) as int;
    assert(0 <= a - (a / 60) * 60 < 60) by (nonlinear_arith);
    assert(a <= b);
    vstd::arithmetic::div_mod::lemma_div_is_ordered(a, b, 60);
}

/// The first sample index of tick `tick`.
pub fn sample_offset(tick: u64) -> (r: u64)
    requires
        tick <= MAX_TICK,
    ensures
        r == tick * SAMPLES_PER_TICK,
{
    tick * (SAMPLES_PER_TICK as u64)
}

/// Whether a performance report is sent after tick `tick`: every half
/// second, starting with the first tick.
pub fn reports_performance(tick: u64) -> (r: bool)
    ensures
        r == (tick % TICKS_PER_REPORT == 0),
{
    tick % TICKS_PER_REPORT == 0
}

/// How long to wait for commands before the deadline: `None` once the
/// deadline has been reached, so the next tick starts at once.
pub fn remaining_ms(now_ms: u64, deadline_ms: u64) -> (r: Option<u64>)
    ensures
        now_ms >= deadline_ms ==> r is None,
        now_ms < deadline_ms ==> r == Some((deadline_ms - now_ms) as u64),
{
    if now_ms >= deadline_ms {
        None
    } else {
        Some(deadline_ms - now_ms)
    }
}

} // verus!
