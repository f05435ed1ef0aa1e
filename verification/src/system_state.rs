use vstd::prelude::*;

verus! {

/// The system clock: a tick counter owned by the simulation driver and passed
/// by reference into every policy decision. The only mutation is a post-tick
/// increment by exactly one.
pub struct SystemState {
    pub time: i32,
}

impl SystemState {
    pub fn new() -> (s: SystemState)
        ensures
            s.time == 0,
    {
        SystemState { time: 0 }
    }

    /// Advance the clock by exactly one tick.
    pub fn advance(&mut self)
        requires
            old(self).time < i32::MAX,
        ensures
            final(self).time == old(self).time + 1,
    {
        self.time = self.time + 1;
    }
}

} // verus!
