//! When the interface wakes up: a tick every refresh interval, with input
//! events read in between. Times are nanoseconds on the caller's monotonic
//! clock.

use vstd::prelude::*;

verus! {

/// The next tick and the interval between ticks.
#[derive(Clone, Copy, Debug, PartialEq, Eq, Structural)]
pub struct EventLoop {
    pub next_tick: u64,
    pub interval: u64,
}

impl EventLoop {
    /// The first tick comes one interval after `now`.
    pub fn new(now: u64, interval: u64) -> (e: Self)
        requires
            now + interval <= u64::MAX,
        ensures
            e.next_tick == now + interval,
            e.interval == interval,
    {
        EventLoop { next_tick: now + interval, interval }
    }

    /// A new interval; the next tick comes one new interval after `now`.
    pub fn set_interval(&mut self, now: u64, interval: u64)
        requires
            now + interval <= u64::MAX,
        ensures
            final(self).interval == interval,
            final(self).next_tick == now + interval,
    {
        self.interval = interval;
        self.next_tick = now + interval;
    }

    /// How long to wait for input before the next tick is due (nothing when
    /// it is already due).
    pub fn timeout(&self, now: u64) -> (t: u64)
        ensures
            t == (if self.next_tick > now { (self.next_tick - now) as u64 } else { 0 }),
    {
        if self.next_tick > now { self.next_tick - now } else { 0 }
    }

    /// No input came before the tick was due: the tick happens and the next
    /// one is scheduled one interval after `now`.
    pub fn tick(&mut self, now: u64)
        requires
            now + old(self).interval <= u64::MAX,
        ensures
            final(self).interval == old(self).interval,
            final(self).next_tick == now + old(self).interval,
    {
        self.next_tick = now + self.interval;
    }
}

} // verus!
