//! Game time from the free-running bus-clock timer.

use vstd::prelude::*;

verus! {

/// The bus clock, in ticks per second.
pub const BUS_CLOCK: u64 = 33_513_982;

/// The ticks between two readings of the timer, which wraps at 32 bits.
pub open spec fn ticks_between(before: u32, now: u32) -> int {
    (now - before) % 0x1_0000_0000
}

/// So many ticks in nanoseconds, rounded down.
pub open spec fn nanos_of(ticks: int) -> int {
    ticks * 1_000_000_000 / (BUS_CLOCK as int)
}

/// The timer's last reading.
#[derive(Debug, Clone, Copy, PartialEq, Eq, Structural)]
pub struct HardwareClock {
    pub last_ticks: u32,
}

impl HardwareClock {
    /// Take this frame's reading: the nanoseconds since the last one.
    pub fn advance(&mut self, now: u32) -> (nanos: u64)
        ensures
            final(self).last_ticks == now,
            nanos == nanos_of(ticks_between(old(self).last_ticks, now)),
    {
        let delta_ticks: u32 = now.wrapping_sub(self.last_ticks);
        assert(delta_ticks == ticks_between(self.last_ticks, now));
        self.last_ticks = now;
        delta_ticks as u64 * 1_000_000_000 / BUS_CLOCK
    }
}

/// Readings add up: between the first and the last of three readings pass the
/// ticks between neighbours, as long as they fit in one turn of the timer.
pub proof fn law_ticks_add_up(a: u32, b: u32, c: u32)
    requires
        ticks_between(a, b) + ticks_between(b, c) < 0x1_0000_0000,
    ensures
        ticks_between(a, c) == ticks_between(a, b) + ticks_between(b, c),
{
}

/// Rounding loses less than a nanosecond per frame.
pub proof fn law_rounding_is_below_a_nanosecond(ticks: int)
    requires
        ticks >= 0,
    ensures
        nanos_of(ticks) * BUS_CLOCK <= ticks * 1_000_000_000 < (nanos_of(ticks) + 1) * BUS_CLOCK,
{
    vstd::arithmetic::div_mod::lemma_fundamental_div_mod(ticks * 1_000_000_000, BUS_CLOCK as int);
    assert((nanos_of(ticks) + 1) * BUS_CLOCK == nanos_of(ticks) * BUS_CLOCK + BUS_CLOCK)
        by (nonlinear_arith);
    assert(BUS_CLOCK as int * nanos_of(ticks) == nanos_of(ticks) * BUS_CLOCK as int)
        by (nonlinear_arith);
}

} // verus!
