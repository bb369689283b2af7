//! The body store: owns the ordered sequence of bodies for the whole run
//! and exposes construction, the tick, and read access for rendering.

use vstd::prelude::*;
use crate::body::{Body, body_wf};
use crate::params::{POS_LIMIT, VEL_LIMIT, ACC_LIMIT, MASS_LIMIT};
use crate::sim::{SimError, degenerate, simulate, tick_ok, tick_state, wf_seq};

verus! {

/// Checks one body against the representable range.
fn body_in_range(b: &Body) -> (r: bool)
    ensures
        r == body_wf(*b),
{
    b.x >= -POS_LIMIT && b.x <= POS_LIMIT && b.y >= -POS_LIMIT && b.y <= POS_LIMIT && b.mass > 0
        && b.mass <= MASS_LIMIT && b.vx >= -VEL_LIMIT && b.vx <= VEL_LIMIT && b.vy >= -VEL_LIMIT
        && b.vy <= VEL_LIMIT && b.ax >= -ACC_LIMIT && b.ax <= ACC_LIMIT && b.ay >= -ACC_LIMIT
        && b.ay <= ACC_LIMIT
}

/// The body store: the ordered sequence of simulated bodies. The order is
/// stable for the whole run; bodies are neither added nor removed after
/// construction, and every stored body stays within the representable
/// range.
pub struct Simulation {
    bodies: Vec<Body>,
}

impl View for Simulation {
    type V = Seq<Body>;

    closed spec fn view(&self) -> Seq<Body> {
        self.bodies@
    }
}

impl Simulation {
    /// Every stored body is well formed.
    #[verifier::type_invariant]
    spec fn wf(&self) -> bool {
        wf_seq(self.bodies@)
    }

    /// Builds the store from the given bodies, refusing the whole set when
    /// any body lies outside the representable range or has a non-positive
    /// mass.
    pub fn initialize(bodies: Vec<Body>) -> (r: Result<Simulation, SimError>)
        ensures
            match r {
                Ok(sim) => sim@ == bodies@ && wf_seq(bodies@),
                Err(e) => e == SimError::InvalidBody && !wf_seq(bodies@),
            },
    {
        let n: usize = bodies.len();
        let mut i: usize = 0;
        while i < n
            invariant
                i <= n,
                n == bodies@.len(),
                forall|k: int| 0 <= k < i ==> body_wf(bodies@[k]),
            decreases n - i,
        {
            let b: Body = bodies[i];
            if !body_in_range(&b) {
                return Err(SimError::InvalidBody);
            }
            i = i + 1;
        }
        Ok(Simulation { bodies })
    }

    /// The number of bodies.
    pub fn len(&self) -> (n: usize)
        ensures
            n == self@.len(),
    {
        self.bodies.len()
    }

    /// Read access to all bodies, for rendering and inspection.
    pub fn bodies(&self) -> (r: &Vec<Body>)
        ensures
            r@ == self@,
    {
        &self.bodies
    }

    /// The current positions in body order, for the renderer.
    pub fn snapshot(&self) -> (r: Vec<(i128, i128)>)
        ensures
            r@.len() == self@.len(),
            forall|k: int| 0 <= k < self@.len() ==> r@[k].0 == self@[k].x && r@[k].1
                == self@[k].y,
    {
        let n: usize = self.bodies.len();
        let mut out: Vec<(i128, i128)> = Vec::new();
        let mut i: usize = 0;
        while i < n
            invariant
                i <= n,
                n == self@.len(),
                self@ == self.bodies@,
                out@.len() == i,
                forall|k: int| 0 <= k < i ==> out@[k].0 == self@[k].x && out@[k].1 == self@[k].y,
            decreases n - i,
        {
            let b: Body = self.bodies[i];
            out.push((b.x, b.y));
            i = i + 1;
        }
        out
    }

    /// Advances all bodies by one tick. Either every body advances to
    /// exactly the state tick_state describes, or nothing moves and the
    /// error says whether two bodies coincided or a value left the
    /// representable range.
    pub fn tick(&mut self) -> (r: Result<(), SimError>)
        ensures
            match r {
                Ok(()) => tick_ok(old(self)@) && final(self)@ == tick_state(old(self)@),
                Err(e) => {
                    &&& final(self)@ == old(self)@
                    &&& !tick_ok(old(self)@)
                    &&& (e == SimError::DegenerateDistance <==> degenerate(old(self)@))
                    &&& (e == SimError::DegenerateDistance || e == SimError::OutOfRange)
                },
            },
    {
        proof {
            use_type_invariant(&*self);
        }
        let mut work: Vec<Body> = Vec::new();
        core::mem::swap(&mut work, &mut self.bodies);
        let r: Result<(), SimError> = simulate(&mut work);
        self.bodies = work;
        r
    }
}

} // verus!
