use vstd::prelude::*;
use crate::scheduler::Scheduler;

verus! {

/// Lets work through once per pass of the scheduler: a value that changes
/// several times during one pass is handled once.
pub struct BatchGate {
    last_notify_pass: u64,
}

/// What `should_run` does when the scheduler's counter reads `pass`: the
/// gate opens unless it already opened at that count, and records the count.
pub open spec fn gate_effect(g0: BatchGate, pass: u64, g1: BatchGate, run: bool) -> bool {
    &&& run == (pass != g0.last_pass())
    &&& g1.last_pass() == pass
}

/// Asking twice while the scheduler's counter stays put: the second answer is no.
pub proof fn law_gate_opens_once_per_count(g0: BatchGate, g1: BatchGate, g2: BatchGate, pass: u64, r1: bool, r2: bool)
    requires
        gate_effect(g0, pass, g1, r1),
        gate_effect(g1, pass, g2, r2),
    ensures
        !r2,
{
}

/// A fresh gate opens in whatever pass a scheduler is in, since passes are
/// numbered from 1.
pub proof fn law_fresh_gate_opens<F>(g: BatchGate, scheduler: Scheduler<F>, r: bool, g1: BatchGate)
    requires
        g.last_pass() == 0,
        scheduler.wf(),
        gate_effect(g, scheduler.pass(), g1, r),
    ensures
        r,
{
}

/// Asking again after the scheduler's counter changed: the answer is yes.
pub proof fn law_gate_reopens_when_count_moves(g0: BatchGate, g1: BatchGate, g2: BatchGate, p1: u64, p2: u64, r1: bool, r2: bool)
    requires
        gate_effect(g0, p1, g1, r1),
        gate_effect(g1, p2, g2, r2),
        p1 != p2,
    ensures
        r2,
{
}

impl BatchGate {
    /// Zero, or the number of the most recent scheduler round that got through.
    pub closed spec fn last_pass(&self) -> u64 {
        self.last_notify_pass
    }

    pub fn new() -> (g: Self)
        ensures
            g.last_pass() == 0,
    {
        BatchGate { last_notify_pass: 0 }
    }

    /// Whether the work should run now: true on the first call of each pass
    /// of `scheduler`, false on the others.
    pub fn should_run<F>(&mut self, scheduler: &Scheduler<F>) -> (run: bool)
        ensures
            gate_effect(*old(self), scheduler.pass(), *final(self), run),
    {
        let current = scheduler.notify_pass();
        let last = self.last_notify_pass;
        if current != last {
            self.last_notify_pass = current;
            true
        } else {
            false
        }
    }
}

} // verus!
