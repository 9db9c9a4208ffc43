//! Game time: real elapsed time and the simulated clock derived from it
//! (five real minutes make one simulated day).

use vstd::prelude::*;

verus! {

/// Elapsed real time in microseconds.
pub struct GameTime {
    pub real_elapsed_micros: u64,
}

/// Simulated minutes after `micros` real microseconds: 4.8 simulated
/// minutes per real second, capped at `u32::MAX`.
pub open spec fn sim_minutes(micros: int) -> int {
    let m = micros * 48 / 10_000_000;
    if m > u32::MAX {
        u32::MAX as int
    } else {
        m
    }
}

impl GameTime {
    pub fn new() -> (t: GameTime)
        ensures
            t.real_elapsed_micros == 0,
    {
        GameTime { real_elapsed_micros: 0 }
    }

    /// Adds `micros` of real time (saturating).
    pub fn advance(&mut self, micros: u64)
        ensures
            final(self).real_elapsed_micros == if old(self).real_elapsed_micros + micros > u64::MAX {
                u64::MAX as int
            } else {
                old(self).real_elapsed_micros + micros
            },
    {
        self.real_elapsed_micros = self.real_elapsed_micros.saturating_add(micros);
    }

    /// The simulated clock as (days, hours, minutes).
    pub fn simulation_time(&self) -> (dhm: (u32, u32, u32))
        ensures
            dhm.0 * 1440 + dhm.1 * 60 + dhm.2 == sim_minutes(self.real_elapsed_micros as int),
            dhm.1 < 24,
            dhm.2 < 60,
    {
        let total = self.real_elapsed_micros as u128 * 48 / 10_000_000;
        let total_sim_mins: u32 = if total > u32::MAX as u128 {
            u32::MAX
        } else {
            total as u32
        };
        let days = total_sim_mins / (24 * 60);
        let hours = (total_sim_mins % (24 * 60)) / 60;
        let mins = total_sim_mins % 60;
        assert(days * 1440 + hours * 60 + mins == total_sim_mins) by (nonlinear_arith)
            requires
                days == total_sim_mins / 1440,
                hours == (total_sim_mins % 1440) / 60,
                mins == total_sim_mins % 60,
        ;
        (days, hours, mins)
    }

    /// Real elapsed time as (minutes, seconds), minutes capped at
    /// `u32::MAX`.
    pub fn real_clock(&self) -> (ms: (u32, u32))
        ensures
            ms.0 == (if self.real_elapsed_micros / 60_000_000 > u32::MAX {
                u32::MAX as int
            } else {
                (self.real_elapsed_micros / 60_000_000) as int
            }),
            ms.1 == (self.real_elapsed_micros / 1_000_000) % 60,
    {
        let minutes = self.real_elapsed_micros / 60_000_000;
        let m: u32 = if minutes > u32::MAX as u64 {
            u32::MAX
        } else {
            minutes as u32
        };
        let s = ((self.real_elapsed_micros / 1_000_000) % 60) as u32;
        (m, s)
    }
}

/// The simulated clock never runs backwards: more real time never gives
/// fewer simulated minutes.
pub proof fn lemma_sim_minutes_monotone(t1: int, t2: int)
    requires
        0 <= t1 <= t2,
    ensures
        sim_minutes(t1) <= sim_minutes(t2),
{
    assert(t1 * 48 / 10_000_000 <= t2 * 48 / 10_000_000) by (nonlinear_arith)
        requires
            0 <= t1 <= t2,
    ;
}

} // verus!
