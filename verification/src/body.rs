//! One simulated point mass and its per-tick kinematic updates.

use vstd::prelude::*;
use crate::params::{ACC_LIMIT, ACC_SCALE, DT, HALF_DT_SQ, MASS_LIMIT, POS_LIMIT, VEL_LIMIT};
use vstd::arithmetic::div_mod::{lemma_div_is_ordered, lemma_div_pos_is_pos};
use vstd::arithmetic::mul::{lemma_mul_nonnegative, lemma_mul_strictly_positive,
    lemma_mul_unary_negation, lemma_mul_upper_bound};

verus! {

/// One simulated point mass. Positions are in micrometers, velocities in
/// micrometers per second, accelerations in stored units of 1/ACC_SCALE
/// micrometers per second squared, mass in kilograms. The acceleration
/// fields are transient: they are overwritten by every acceleration pass
/// and carry no meaning between ticks.
#[derive(Clone, Copy, PartialEq, Eq, Structural, Debug)]
pub struct Body {
    pub x: i128,
    pub y: i128,
    pub mass: i128,
    pub vx: i128,
    pub vy: i128,
    pub ax: i128,
    pub ay: i128,
}

/// Every field lies in the representable simulation range and the mass is
/// positive.
pub open spec fn body_wf(b: Body) -> bool {
    &&& -POS_LIMIT <= b.x <= POS_LIMIT
    &&& -POS_LIMIT <= b.y <= POS_LIMIT
    &&& 0 < b.mass <= MASS_LIMIT
    &&& -VEL_LIMIT <= b.vx <= VEL_LIMIT
    &&& -VEL_LIMIT <= b.vy <= VEL_LIMIT
    &&& -ACC_LIMIT <= b.ax <= ACC_LIMIT
    &&& -ACC_LIMIT <= b.ay <= ACC_LIMIT
}

/// Dividing the acceleration scale back out of a product, rounding the
/// magnitude down: the signed counterpart of flooring v / ACC_SCALE.
pub open spec fn sdiv(v: int) -> int {
    if v >= 0 {
        v / (ACC_SCALE as int)
    } else {
        -((-v) / (ACC_SCALE as int))
    }
}

/// One kinematic step contribution: a stored acceleration times a time
/// coefficient, with the acceleration scale divided back out.
fn scaled(a: i128, f: i128) -> (r: i128)
    requires
        -ACC_LIMIT <= a <= ACC_LIMIT,
        0 < f <= HALF_DT_SQ,
    ensures
        r as int == sdiv(a * f),
        -3_732_480_000_000_000_000_000_000_000_000_000 <= r
            <= 3_732_480_000_000_000_000_000_000_000_000_000,
{
    let mag: u128 = if a >= 0 {
        a as u128
    } else {
        (-a) as u128
    };
    proof {
        lemma_mul_upper_bound(mag as int, ACC_LIMIT as int, f as int, HALF_DT_SQ as int);
        lemma_mul_nonnegative(mag as int, f as int);
        lemma_div_pos_is_pos(mag as int * f as int, ACC_SCALE as int);
        lemma_div_is_ordered(
            mag as int * f as int,
            37_324_800_000_000_000_000_000_000_000_000_000_000,
            ACC_SCALE as int,
        );
        if a < 0 {
            lemma_mul_unary_negation(a as int, f as int);
            lemma_mul_strictly_positive(-a as int, f as int);
        } else if a > 0 {
            lemma_mul_nonnegative(a as int, f as int);
        }
    }
    let q: u128 = (mag * (f as u128)) / (ACC_SCALE as u128);
    if a >= 0 {
        q as i128
    } else {
        -(q as i128)
    }
}

impl Body {
    /// A body at the given position with the given mass and velocity; the
    /// acceleration starts at zero.
    pub fn new(x: i128, y: i128, mass: i128, vx: i128, vy: i128) -> (b: Body)
        ensures
            b == (Body { x, y, mass, vx, vy, ax: 0, ay: 0 }),
    {
        Body { x, y, mass, vx, vy, ax: 0, ay: 0 }
    }

    /// Second-order position update over one time step: the position
    /// advances by vx * DT plus the acceleration term ax * DT^2 / 2 with
    /// the acceleration scale divided back out, using the velocity from
    /// before the tick and the freshly computed acceleration. Nothing
    /// else moves.
    pub fn update_position(&mut self)
        requires
            body_wf(*old(self)),
        ensures
            final(self).x == old(self).x + old(self).vx * DT + sdiv(old(self).ax * HALF_DT_SQ),
            final(self).y == old(self).y + old(self).vy * DT + sdiv(old(self).ay * HALF_DT_SQ),
            final(self).mass == old(self).mass,
            final(self).vx == old(self).vx,
            final(self).vy == old(self).vy,
            final(self).ax == old(self).ax,
            final(self).ay == old(self).ay,
    {
        self.x = self.x + self.vx * DT + scaled(self.ax, HALF_DT_SQ);
        self.y = self.y + self.vy * DT + scaled(self.ay, HALF_DT_SQ);
    }

    /// First-order velocity update over one time step: the velocity
    /// advances by ax * DT with the acceleration scale divided back out.
    /// Nothing else moves. Only the velocity and acceleration must be in
    /// range: the position may already have left it, the caller checks
    /// afterwards.
    pub fn update_velocity(&mut self)
        requires
            -VEL_LIMIT <= old(self).vx <= VEL_LIMIT,
            -VEL_LIMIT <= old(self).vy <= VEL_LIMIT,
            -ACC_LIMIT <= old(self).ax <= ACC_LIMIT,
            -ACC_LIMIT <= old(self).ay <= ACC_LIMIT,
        ensures
            final(self).vx == old(self).vx + sdiv(old(self).ax * DT),
            final(self).vy == old(self).vy + sdiv(old(self).ay * DT),
            final(self).x == old(self).x,
            final(self).y == old(self).y,
            final(self).mass == old(self).mass,
            final(self).ax == old(self).ax,
            final(self).ay == old(self).ay,
    {
        self.vx = self.vx + scaled(self.ax, DT);
        self.vy = self.vy + scaled(self.ay, DT);
    }
}

} // verus!
