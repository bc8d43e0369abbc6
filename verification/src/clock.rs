//! Wraparound-safe arithmetic on a free-running 32-bit tick counter.
//!
//! A `Tick` is an instant, expressed as a counter value modulo 2^32. A
//! duration is the modular difference of two ticks, so comparisons stay
//! valid across the single wraparound discontinuity every 2^32 counter
//! units: time never appears to run backward.

use vstd::prelude::*;

verus! {

/// The counter wraps every 2^32 ticks.
pub const TICK_MODULUS: u64 = 0x1_0000_0000;

/// A deadline counts as reached while it lies less than half the counter
/// range in the past; beyond that, the modular difference is read as a
/// future instant.
pub const HALF_RANGE: u32 = 0x8000_0000;

/// The modular difference `now - since`, the duration elapsed since `since`.
pub open spec fn spec_elapsed(now: u32, since: u32) -> int {
    (now - since) % (TICK_MODULUS as int)
}

/// A deadline is reached once it lies at or before `now`, that is, while
/// the elapsed duration since the deadline is under half the counter range.
pub open spec fn spec_deadline_reached(now: u32, deadline: u32) -> bool {
    spec_elapsed(now, deadline) < HALF_RANGE
}

/// A deadline is overrun when it was already strictly in the past at the
/// instant it was checked.
pub open spec fn spec_overrun(now: u32, deadline: u32) -> bool {
    spec_deadline_reached(now, deadline) && deadline != now
}

/// The instant `duration` ticks after `tick`, modulo the counter range.
pub open spec fn spec_tick_add(tick: u32, duration: u32) -> u32 {
    ((tick + duration) % (TICK_MODULUS as int)) as u32
}

/// Wraparound-correct duration between a later reading `now` and an
/// earlier reading `since` of the same counter.
pub fn elapsed(now: u32, since: u32) -> (d: u32)
    ensures
        d == spec_elapsed(now, since),
{
    if now >= since {
        now - since
    } else {
        ((TICK_MODULUS + now as u64 - since as u64) as u32)
    }
}

/// Whether `deadline` has been reached at the instant `now`.
pub fn deadline_reached(now: u32, deadline: u32) -> (r: bool)
    ensures
        r == spec_deadline_reached(now, deadline),
{
    elapsed(now, deadline) < HALF_RANGE
}

/// The instant `duration` ticks after `tick`, wrapping with the counter.
pub fn tick_add(tick: u32, duration: u32) -> (t: u32)
    ensures
        t == spec_tick_add(tick, duration),
{
    ((tick as u64 + duration as u64) % TICK_MODULUS) as u32
}

/// The ideal n-th deadline of a periodic task: the first deadline `d0`
/// advanced by `n` whole periods, each added modulo the counter range.
pub open spec fn nth_deadline(d0: u32, period: u32, n: nat) -> u32
    decreases n,
{
    if n == 0 {
        d0
    } else {
        spec_tick_add(nth_deadline(d0, period, (n - 1) as nat), period)
    }
}

/// Deadlines never drift: the n-th deadline of a task first scheduled at
/// `d0` with period `period` is exactly `d0 + n * period` modulo the
/// counter range, independent of when the firings actually ran.
pub proof fn lemma_no_drift(d0: u32, period: u32, n: nat)
    ensures
        nth_deadline(d0, period, n) == ((d0 + n * period) % (TICK_MODULUS as int)) as u32,
    decreases n,
{
    let m = TICK_MODULUS as int;
    if n == 0 {
        assert(d0 == ((d0 as int % m) as u32));
    } else {
        lemma_no_drift(d0, period, (n - 1) as nat);
        let prev = d0 + (n - 1) * period;
        assert(prev + period == d0 + n * period && prev >= 0) by (nonlinear_arith)
            requires
                prev == d0 + (n - 1) * period,
                d0 >= 0,
                period >= 0,
                n >= 1,
        ;
        vstd::arithmetic::div_mod::lemma_add_mod_noop(prev, period as int, m);
        assert((period as int) % m == period as int);
        assert(nth_deadline(d0, period, n) == spec_tick_add(nth_deadline(d0, period, (n - 1) as nat), period));
        assert(((prev % m) + period) % m == (prev + period) % m);
    }
}

} // verus!
