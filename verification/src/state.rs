//! Frame-timing state for a host loop driving the library.
//!
//! The host reads its clock and hands the raw nanosecond reading in; the
//! state keeps the previous reading and the delta between the last two
//! readings.  A backwards clock reading yields a zero delta instead of an
//! underflow.

use vstd::prelude::*;

verus! {

/// Timing state shared with a host loop.
#[derive(Clone, Copy, PartialEq, Eq, Structural, Debug)]
pub struct GlobalState {
    /// Previous clock reading in nanoseconds, from an unspecified epoch.
    pub prev_time: u64,
    /// Nanoseconds between the two most recent readings.
    pub delta: u64,
}

impl GlobalState {
    /// Fresh state at a first clock reading; no frame has elapsed yet.
    pub fn new(now_ns: u64) -> (s: GlobalState)
        ensures
            s.prev_time == now_ns,
            s.delta == 0,
    {
        GlobalState { prev_time: now_ns, delta: 0 }
    }

    /// Advances to a new clock reading: the delta becomes the elapsed time
    /// since the previous reading, or zero if the clock went backwards.
    pub fn tick(&mut self, now_ns: u64)
        ensures
            final(self).prev_time == now_ns,
            final(self).delta == (if now_ns >= old(self).prev_time {
                now_ns - old(self).prev_time
            } else {
                0int
            }),
    {
        if now_ns >= self.prev_time {
            self.delta = now_ns - self.prev_time;
        } else {
            self.delta = 0;
        }
        self.prev_time = now_ns;
    }
}

} // verus!
