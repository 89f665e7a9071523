use vstd::prelude::*;

verus! {

/// Counts the main-loop iterations: advanced by a handler that runs whenever
/// the main loop is idle.
pub struct FrameClock {
    frame: u64,
}

impl FrameClock {
    pub closed spec fn frame(&self) -> u64 {
        self.frame
    }

    pub fn new() -> (c: Self)
        ensures
            c.frame() == 0,
    {
        FrameClock { frame: 0 }
    }

    /// The number of the current frame.
    pub fn current_frame(&self) -> (f: u64)
        ensures
            f == self.frame(),
    {
        self.frame
    }

    /// The main loop went idle once more.
    pub fn tick(&mut self)
        requires
            old(self).frame() < u64::MAX,
        ensures
            final(self).frame() == old(self).frame() + 1,
    {
        self.frame = self.frame + 1;
    }
}

} // verus!
