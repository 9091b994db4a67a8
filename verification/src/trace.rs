//! Bounce control of the path integrator.
//!
//! The integrator follows one camera ray through a loop of scene queries:
//! each round the renderer intersects the current ray with the scene and
//! evaluates the material it hit.  The radiance arithmetic of that loop is
//! the renderer's; what is decided here — and proved — is the control: a
//! miss ends the path with the background, a hit that does not scatter ends
//! it with the light gathered so far, and a scattered hit continues the
//! path until the bounce budget runs out, at which point the remaining
//! energy is dropped.

use vstd::prelude::*;

verus! {

/// The largest number of scene queries a single path may make.
pub const MAX_RECURSIVE_DEPTH: usize = 50;

/// What the renderer observed for the current ray.
#[derive(Clone, Copy, Debug, PartialEq, Eq, Structural)]
pub enum TraceEvent {
    /// The ray left the scene without hitting anything.
    Miss,
    /// The ray hit a surface that did not scatter it (a pure emitter, or an
    /// absorbed sample).
    Absorbed,
    /// The ray hit a surface that scattered it onward.
    Scattered,
}

/// What the integrator must do with the path.
#[derive(Clone, Copy, Debug, PartialEq, Eq, Structural)]
pub enum TraceAction {
    /// Stop and return zero radiance: the background, or the truncation
    /// penalty when the bounce budget is spent.
    ReturnZero,
    /// Stop and return the gathered light: the running attenuation times
    /// the accumulated emission.
    ReturnGathered,
    /// Accumulate this hit's emission, multiply in its attenuation, replace
    /// the ray by the scattered one, and query the scene again.
    Bounce,
}

/// The bounce budget of one traced path.
#[derive(Clone, Copy, Debug)]
pub struct Tracer {
    /// Scene queries answered so far.
    pub depth: usize,
}

impl Tracer {
    pub open spec fn wf(self) -> bool {
        self.depth <= MAX_RECURSIVE_DEPTH
    }

    /// A fresh path: no queries made yet.
    pub fn new() -> (t: Tracer)
        ensures
            t.depth == 0,
            t.wf(),
    {
        Tracer { depth: 0 }
    }

    /// Decide what the event of the current scene query means for the path.
    ///
    /// A miss returns zero; a non-scattering hit returns the gathered
    /// light; a scattering hit bounces — unless it is the last query of the
    /// budget, in which case the path is truncated to zero.
    pub fn step(&mut self, ev: TraceEvent) -> (a: TraceAction)
        requires
            old(self).depth < MAX_RECURSIVE_DEPTH,
        ensures
            final(self).wf(),
            final(self).depth == old(self).depth + 1,
            ev == TraceEvent::Miss ==> a == TraceAction::ReturnZero,
            ev == TraceEvent::Absorbed ==> a == TraceAction::ReturnGathered,
            ev == TraceEvent::Scattered ==> a == (if old(self).depth + 1
                < MAX_RECURSIVE_DEPTH as int {
                TraceAction::Bounce
            } else {
                TraceAction::ReturnZero
            }),
    {
        self.depth = self.depth + 1;
        match ev {
            TraceEvent::Miss => TraceAction::ReturnZero,
            TraceEvent::Absorbed => TraceAction::ReturnGathered,
            TraceEvent::Scattered => {
                if self.depth < MAX_RECURSIVE_DEPTH {
                    TraceAction::Bounce
                } else {
                    TraceAction::ReturnZero
                }
            },
        }
    }

    /// Whether the budget allows another scene query.
    pub fn can_query(&self) -> (b: bool)
        ensures
            b == (self.depth < MAX_RECURSIVE_DEPTH),
    {
        self.depth < MAX_RECURSIVE_DEPTH
    }
}

} // verus!
