//! When to try again: an event-driven schedule with one burst of attempts after the window shows.

use vstd::prelude::*;

verus! {

/// Whether the user can see the window.
#[derive(Debug, Clone, Copy, PartialEq, Eq, Structural)]
pub enum Visibility {
    Foreground,
    Hidden,
}

/// The number of attempts in the burst.
pub const BURST_LENGTH: usize = 4;

/// The wait before each attempt of the burst, in milliseconds.
pub open spec fn burst_ms(attempt: int) -> u64 {
    if attempt <= 0 {
        0
    } else if attempt == 1 {
        250
    } else if attempt == 2 {
        1_000
    } else {
        3_000
    }
}

/// Two to the given power.
pub open spec fn doubled(times: int) -> int
    decreases times,
{
    if times <= 0 {
        1
    } else {
        2 * doubled(times - 1)
    }
}

pub open spec fn at_most(value: int, bound: int) -> int {
    if value < bound {
        value
    } else {
        bound
    }
}

/// The wait between attempts outside the burst, in milliseconds. It doubles with each failure:
/// from one second to fifteen in the foreground, from half a minute to fifteen when hidden.
pub open spec fn base_ms(visibility: Visibility, failures: u32) -> int {
    match visibility {
        Visibility::Foreground => at_most(1_000 * doubled(at_most(failures as int, 4)), 15_000),
        Visibility::Hidden => at_most(30_000 * doubled(at_most(failures as int, 5)), 900_000),
    }
}

/// The wait spread by up to a fifth to either side, by a sample in thousandths.
pub open spec fn jittered(base: int, sample: int) -> int {
    base * (8_000 + 4 * at_most(sample, 1_000)) / 10_000
}

/// Event-driven scheduler with a single burst of attempts after the window shows. Successful
/// connections stay push-driven; polling only finds out that one was lost.
#[derive(Debug, Clone)]
pub struct RetrySchedule {
    visibility: Visibility,
    failures: u32,
    foreground_burst: usize,
}

impl RetrySchedule {
    /// Whether the window is taken to be visible.
    pub closed spec fn visibility(self) -> Visibility {
        self.visibility
    }

    /// The failures since the last success.
    pub closed spec fn failures(self) -> u32 {
        self.failures
    }

    /// The attempts of the burst that were made.
    pub closed spec fn burst(self) -> usize {
        self.foreground_burst
    }

    /// A schedule with the whole burst ahead.
    pub fn new(visibility: Visibility) -> (schedule: Self)
        ensures
            schedule.visibility() == visibility,
            schedule.failures() == 0,
            schedule.burst() == 0,
    {
        RetrySchedule { visibility, failures: 0, foreground_burst: 0 }
    }

    /// The window shows: failures are forgotten, and the burst starts over.
    pub fn shown(&mut self)
        ensures
            final(self).visibility() == Visibility::Foreground,
            final(self).failures() == 0,
            final(self).burst() == 0,
    {
        self.visibility = Visibility::Foreground;
        self.failures = 0;
        self.foreground_burst = 0;
    }

    /// The window hides: the burst is over.
    pub fn hidden(&mut self)
        ensures
            final(self).visibility() == Visibility::Hidden,
            final(self).failures() == old(self).failures(),
            final(self).burst() == BURST_LENGTH,
    {
        self.visibility = Visibility::Hidden;
        self.foreground_burst = BURST_LENGTH;
    }

    /// An attempt succeeded: failures are forgotten, and the burst is over.
    pub fn succeeded(&mut self)
        ensures
            final(self).visibility() == old(self).visibility(),
            final(self).failures() == 0,
            final(self).burst() == BURST_LENGTH,
    {
        self.failures = 0;
        self.foreground_burst = BURST_LENGTH;
    }

    /// An attempt failed: one failure more, and the burst is over.
    pub fn failed(&mut self)
        ensures
            final(self).visibility() == old(self).visibility(),
            final(self).failures() == at_most(old(self).failures() + 1, u32::MAX as int),
            final(self).burst() == BURST_LENGTH,
    {
        self.failures = self.failures.saturating_add(1);
        self.foreground_burst = BURST_LENGTH;
    }

    /// The wait before the next attempt, in milliseconds. Operations of this device go out at
    /// once. Callers provide a random sample in thousandths; it spreads the wait by up to a fifth
    /// to either side, which keeps devices from reconnecting in lockstep.
    pub fn next_delay(&mut self, jitter_thousandths: u32, has_local_ops: bool) -> (delay_ms: u64)
        ensures
            final(self).visibility() == old(self).visibility(),
            final(self).failures() == old(self).failures(),
            has_local_ops ==> delay_ms == 0 && final(self).burst() == old(self).burst(),
            !has_local_ops && old(self).visibility() == Visibility::Foreground && old(self).burst()
                < BURST_LENGTH ==> delay_ms == burst_ms(old(self).burst() as int) && final(self).burst() == old(self).burst() + 1,
            !has_local_ops && !(old(self).visibility() == Visibility::Foreground && old(self).burst() < BURST_LENGTH) ==> delay_ms == jittered(
                base_ms(old(self).visibility(), old(self).failures()),
                jitter_thousandths as int,
            ) && final(self).burst() == old(self).burst(),
    {
        if has_local_ops {
            return 0;
        }
        if self.visibility == Visibility::Foreground && self.foreground_burst < BURST_LENGTH {
            let attempt: usize = self.foreground_burst;
            self.foreground_burst = attempt + 1;
            return if attempt == 0 {
                0
            } else if attempt == 1 {
                250
            } else if attempt == 2 {
                1_000
            } else {
                3_000
            };
        }
        proof {
            lemma_base_bounds(self.visibility, self.failures);
        }
        let base: u64 = match self.visibility {
            Visibility::Foreground => {
                let doublings: u32 = if self.failures < 4 {
                    self.failures
                } else {
                    4
                };
                let wait: u64 = 1_000 * power_of_two(doublings);
                if wait < 15_000 {
                    wait
                } else {
                    15_000
                }
            },
            Visibility::Hidden => {
                let doublings: u32 = if self.failures < 5 {
                    self.failures
                } else {
                    5
                };
                let wait: u64 = 30_000 * power_of_two(doublings);
                if wait < 900_000 {
                    wait
                } else {
                    900_000
                }
            },
        };
        let sample: u64 = if jitter_thousandths < 1_000 {
            jitter_thousandths as u64
        } else {
            1_000
        };
        assert(base * (8_000 + 4 * sample) <= 900_000 * 12_000) by (nonlinear_arith)
            requires
                base <= 900_000,
                sample <= 1_000,
        ;
        base * (8_000 + 4 * sample) / 10_000
    }
}

fn power_of_two(exponent: u32) -> (power: u64)
    requires
        exponent <= 5,
    ensures
        power == doubled(exponent as int),
        power <= 32,
{
    proof {
        reveal_with_fuel(doubled, 6);
    }
    let mut power: u64 = 1;
    let mut i: u32 = 0;
    while i < exponent
        invariant
            i <= exponent <= 5,
            power == doubled(i as int),
            power <= 32,
        decreases exponent - i,
    {
        proof {
            reveal_with_fuel(doubled, 6);
        }
        power = 2 * power;
        i = i + 1;
    }
    power
}

/// Outside the burst the wait is never below one second nor above fifteen minutes before it is
/// spread.
pub proof fn lemma_base_bounds(visibility: Visibility, failures: u32)
    ensures
        visibility == Visibility::Foreground ==> 1_000 <= base_ms(visibility, failures) <= 15_000,
        visibility == Visibility::Hidden ==> 30_000 <= base_ms(visibility, failures) <= 900_000,
{
    reveal_with_fuel(doubled, 6);
}

/// The spread stays within a fifth of the wait, whatever the sample.
pub proof fn lemma_jitter_bounds(base: int, sample: int)
    requires
        0 <= base,
        0 <= sample,
    ensures
        base * 8 / 10 <= jittered(base, sample) <= base * 12 / 10,
{
    let s = at_most(sample, 1_000);
    assert(base * 8_000 <= base * (8_000 + 4 * s) <= base * 12_000) by (nonlinear_arith)
        requires
            0 <= base,
            0 <= s <= 1_000,
    ;
    assert(base * 8_000 / 10_000 == base * 8 / 10);
    assert(base * 12_000 / 10_000 == base * 12 / 10);
}

/// More failures never shorten the wait.
pub proof fn lemma_backoff_monotone(visibility: Visibility, fewer: u32, more: u32)
    requires
        fewer <= more,
    ensures
        base_ms(visibility, fewer) <= base_ms(visibility, more),
{
    reveal_with_fuel(doubled, 6);
}

} // verus!
