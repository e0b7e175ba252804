//! Countdown timers over integral time units.

use vstd::prelude::*;

verus! {

/// What is left of `remaining` after `delta` time units pass.
pub open spec fn spec_ticked(remaining: u64, delta: u64) -> u64 {
    if delta >= remaining {
        0
    } else {
        (remaining - delta) as u64
    }
}

/// A countdown over integral time units: created with a duration, ticked
/// down by elapsed time, finished once it reaches zero.
#[derive(PartialEq, Eq, Structural, Clone, Copy, Debug)]
pub struct Countdown {
    /// Time units left until the countdown finishes.
    pub remaining: u64,
    /// The duration the countdown restarts from.
    pub duration: u64,
}

impl Countdown {
    pub fn new(duration: u64) -> (timer: Self)
        ensures
            timer == (Countdown { remaining: duration, duration }),
    {
        Self { remaining: duration, duration }
    }

    /// Advances the countdown by `delta` elapsed time units.
    pub fn tick(&mut self, delta: u64)
        ensures
            *final(self) == (Countdown {
                remaining: spec_ticked(old(self).remaining, delta),
                ..*old(self)
            }),
    {
        self.remaining = self.remaining.saturating_sub(delta);
    }

    /// Whether the countdown has run out.
    pub fn finished(&self) -> (done: bool)
        ensures
            done == (self.remaining == 0),
    {
        self.remaining == 0
    }

    /// Starts the countdown over from its full duration.
    pub fn reset(&mut self)
        ensures
            *final(self) == (Countdown { remaining: old(self).duration, ..*old(self) }),
    {
        self.remaining = self.duration;
    }

    /// Changes the duration; takes effect at the next reset.
    pub fn set_duration(&mut self, duration: u64)
        ensures
            *final(self) == (Countdown { duration, ..*old(self) }),
    {
        self.duration = duration;
    }
}

} // verus!
