//! Per-tick decisions: whether the state is rebuilt and whether the
//! coupled simulation advances this tick.
use vstd::prelude::*;

verus! {

/// Play, pause and single-step controls; `dt` is the circuit time step.
pub struct SimulationControls<T> {
    pub dt: T,
    pub paused: bool,
    pub single_step: bool,
}

impl<T> SimulationControls<T> {
    /// Whether the simulation runs this tick: it is playing, or a single
    /// step was asked for.
    pub fn is_step_this_frame(&self) -> (r: bool)
        ensures
            r == (!self.paused || self.single_step),
    {
        !self.paused || self.single_step
    }

    /// Whether the simulation runs this tick; a single-step request is used
    /// up by it.
    pub fn do_step(&mut self) -> (r: bool)
        ensures
            r == (!old(self).paused || old(self).single_step),
            final(self).single_step == false,
            final(self).paused == old(self).paused,
            final(self).dt == old(self).dt,
    {
        let ret = self.is_step_this_frame();
        if self.single_step {
            self.single_step = false;
        }
        ret
    }
}

/// What one tick does: rebuild the whole state first, and advance the
/// coupled simulation.
#[derive(Clone, Copy, Debug, PartialEq, Eq, Structural)]
pub struct TickPlan {
    pub rebuild: bool,
    pub advance: bool,
}

/// Decides one tick. A pending rebuild is taken (and cleared) and always
/// falls through to an advance; otherwise the tick advances when the
/// controls say so. A single-step request is used up either way.
pub fn plan_tick<T>(needs_rebuild: &mut bool, controls: &mut SimulationControls<T>) -> (r: TickPlan)
    ensures
        r.rebuild == *old(needs_rebuild),
        r.advance == (*old(needs_rebuild) || !old(controls).paused || old(controls).single_step),
        *final(needs_rebuild) == false,
        final(controls).single_step == false,
        final(controls).paused == old(controls).paused,
        final(controls).dt == old(controls).dt,
{
    let rebuild = *needs_rebuild;
    *needs_rebuild = false;
    let step = controls.do_step();
    TickPlan { rebuild, advance: step || rebuild }
}

} // verus!
