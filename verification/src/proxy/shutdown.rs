//! Graceful shutdown.
//!
//! Stop accepting, finish what is in flight, and exit within a bounded time. The bound is the
//! important half: a hung upstream must not be able to prevent exit. New work is refused from the
//! moment draining starts.
use vstd::prelude::*;

verus! {

/// Tracks in-flight work so a drain can wait for it.
#[derive(Debug)]
pub struct Drain {
    inflight: u64,
    draining: bool,
}

/// Held for the duration of a unit of work, and handed back with [`Drain::leave`]. Only a
/// [`Drain`] hands one out.
#[derive(Debug)]
pub struct Guard {
    _unit: (),
}

/// How a drain stands.
#[derive(Debug, Clone, Copy, PartialEq, Eq, Structural)]
pub enum DrainStep {
    /// Everything finished.
    Done,
    /// Some work is still running, and there is time left: wait for the next unit to finish.
    Wait,
    /// Some work is still running and the deadline has passed. Not a failure to handle, but a fact
    /// to log.
    GiveUp,
}

impl Default for Drain {
    fn default() -> (out: Self)
        ensures
            out.running() == 0,
            !out.refuses(),
    {
        Drain { inflight: 0, draining: false }
    }
}

impl Drain {
    /// How many units of work are in flight.
    pub closed spec fn running(self) -> u64 {
        self.inflight
    }

    /// Whether new work is refused.
    pub closed spec fn refuses(self) -> bool {
        self.draining
    }

    pub fn new() -> (out: Self)
        ensures
            out.running() == 0,
            !out.refuses(),
    {
        Drain { inflight: 0, draining: false }
    }

    /// Register a unit of in-flight work.
    ///
    /// Returns `None` once draining has begun, so new work is refused rather than extending the
    /// drain indefinitely.
    pub fn enter(&mut self) -> (out: Option<Guard>)
        requires
            old(self).running() < u64::MAX,
        ensures
            out is Some <==> !old(self).refuses(),
            final(self).refuses() == old(self).refuses(),
            final(self).running() == (if out is Some {
                old(self).running() + 1
            } else {
                old(self).running() as int
            }),
    {
        if self.draining {
            return None;
        }
        self.inflight = self.inflight + 1;
        Some(Guard { _unit: () })
    }

    /// Register work that must complete even during a drain.
    ///
    /// Slice fills use this: abandoning a fill wastes the bytes already fetched.
    pub fn enter_unconditional(&mut self) -> (out: Guard)
        requires
            old(self).running() < u64::MAX,
        ensures
            final(self).refuses() == old(self).refuses(),
            final(self).running() == old(self).running() + 1,
    {
        self.inflight = self.inflight + 1;
        Guard { _unit: () }
    }

    /// A unit of work is over. Returns whether it was the last one, in which case whoever waits
    /// for the drain is to be woken.
    pub fn leave(&mut self, guard: Guard) -> (out: bool)
        requires
            old(self).running() > 0,
        ensures
            final(self).refuses() == old(self).refuses(),
            final(self).running() == old(self).running() - 1,
            out == (final(self).running() == 0),
    {
        self.inflight = self.inflight - 1;
        self.inflight == 0
    }

    pub fn inflight(&self) -> (out: u64)
        ensures
            out == self.running(),
    {
        self.inflight
    }

    pub fn is_draining(&self) -> (out: bool)
        ensures
            out == self.refuses(),
    {
        self.draining
    }

    /// Stop accepting new work. Returns whether there is nothing to wait for.
    pub fn begin(&mut self) -> (out: bool)
        ensures
            final(self).refuses(),
            final(self).running() == old(self).running(),
            out == (old(self).running() == 0),
    {
        self.draining = true;
        self.inflight == 0
    }

    /// What a drain does next, after it was woken or its deadline passed.
    pub fn step(&self, deadline_passed: bool) -> (out: DrainStep)
        ensures
            out == (if self.running() == 0 {
                DrainStep::Done
            } else if deadline_passed {
                DrainStep::GiveUp
            } else {
                DrainStep::Wait
            }),
    {
        if self.inflight == 0 {
            DrainStep::Done
        } else if deadline_passed {
            DrainStep::GiveUp
        } else {
            DrainStep::Wait
        }
    }
}

} // verus!
