//! The integrator: the all-pairs acceleration pass and the per-tick
//! kinematic update, with the exact fixed-point arithmetic each step
//! performs stated as spec functions.

use vstd::prelude::*;
use crate::body::{Body, body_wf, sdiv};
use crate::math::{is_sqrt, isqrt, lemma_le_sqrt, lemma_sqrt_floor_is_sqrt, lemma_sqrt_unique,
    sqrt_floor};
use crate::params::{ACC_LIMIT, DT, G_NUM, HALF_DT_SQ, MASS_LIMIT, POS_LIMIT, VEL_LIMIT};
use vstd::arithmetic::div_mod::{lemma_div_is_ordered, lemma_div_pos_is_pos,
    lemma_fundamental_div_mod, lemma_hoist_over_denominator, lemma_mod_division_less_than_divisor,
    lemma_mod_multiples_vanish, lemma_multiply_divide_lt, lemma_remainder_lower};
use vstd::arithmetic::mul::{lemma_mul_inequality, lemma_mul_nonnegative, lemma_mul_upper_bound};

verus! {

/// Why a construction or a tick was refused.
#[derive(Clone, Copy, PartialEq, Eq, Structural, Debug)]
pub enum SimError {
    /// A body handed to the constructor lies outside the representable
    /// range or has a non-positive mass.
    InvalidBody,
    /// Two bodies occupy exactly the same position, so the gravitational
    /// law divides by zero. The state is left untouched.
    DegenerateDistance,
    /// An accumulated acceleration, or an updated position or velocity,
    /// leaves the representable range. The state is left untouched.
    OutOfRange,
}

/// Every body of the sequence is well formed.
pub open spec fn wf_seq(s: Seq<Body>) -> bool {
    forall|i: int| 0 <= i < s.len() ==> body_wf(s[i])
}

/// The absolute value.
pub open spec fn abs_val(v: int) -> int {
    if v >= 0 {
        v
    } else {
        -v
    }
}

/// Displacement from body i to body j along x.
pub open spec fn delta_x(s: Seq<Body>, i: int, j: int) -> int {
    s[j].x - s[i].x
}

/// Displacement from body i to body j along y.
pub open spec fn delta_y(s: Seq<Body>, i: int, j: int) -> int {
    s[j].y - s[i].y
}

/// Squared distance between bodies i and j.
pub open spec fn dist_sq(s: Seq<Body>, i: int, j: int) -> int {
    delta_x(s, i, j) * delta_x(s, i, j) + delta_y(s, i, j) * delta_y(s, i, j)
}

/// Some pair of bodies occupies exactly the same position.
pub open spec fn degenerate(s: Seq<Body>) -> bool {
    exists|i: int, j: int| 0 <= i < j < s.len() && dist_sq(s, i, j) == 0
}

/// Long division carried k decimal digits past the integer part: v is
/// the quotient so far and rem the running remainder of a division by
/// d2; each step appends the next digit. After k steps from v = x / d2,
/// rem = x % d2, the value is exactly floor(10^k * x / d2).
pub open spec fn scale_steps(v: int, rem: int, d2: int, k: nat) -> int
    decreases k,
{
    if k == 0 {
        v
    } else {
        scale_steps(v * 10 + (10 * rem) / d2, (10 * rem) % d2, d2, (k - 1) as nat)
    }
}

/// Magnitude of one pairwise acceleration contribution along one axis,
/// in stored units of 1/ACC_SCALE micrometers per second squared: the
/// fixed-point evaluation of ACC_SCALE * G * m * delta / (d2 * sqrt(d2)),
/// performed as floor(G_NUM * m / r) * delta_abs divided by d2 with four
/// decimal digits of the quotient kept (ACC_SCALE = 10^4), r the integer
/// square root of d2.
pub open spec fn term_mag(m: int, delta_abs: int, d2: int) -> int {
    let r: int = sqrt_floor(d2 as nat) as int;
    let x: int = ((G_NUM as int) * m / r) * delta_abs;
    scale_steps(x / d2, x % d2, d2, 4)
}

/// Signed acceleration contribution of body j on body i along x.
pub open spec fn term_x(s: Seq<Body>, i: int, j: int) -> int {
    let d: int = delta_x(s, i, j);
    let t: int = term_mag(s[j].mass as int, abs_val(d), dist_sq(s, i, j));
    if d >= 0 {
        t
    } else {
        -t
    }
}

/// Signed acceleration contribution of body j on body i along y.
pub open spec fn term_y(s: Seq<Body>, i: int, j: int) -> int {
    let d: int = delta_y(s, i, j);
    let t: int = term_mag(s[j].mass as int, abs_val(d), dist_sq(s, i, j));
    if d >= 0 {
        t
    } else {
        -t
    }
}

/// Signed x-acceleration of body i accumulated from bodies with index
/// below k, in index order.
pub open spec fn accel_x_prefix(s: Seq<Body>, i: int, k: int) -> int
    decreases k,
{
    if k <= 0 {
        0
    } else {
        accel_x_prefix(s, i, k - 1) + if k - 1 == i {
            0
        } else {
            term_x(s, i, k - 1)
        }
    }
}

/// Signed y-acceleration of body i accumulated from bodies with index
/// below k, in index order.
pub open spec fn accel_y_prefix(s: Seq<Body>, i: int, k: int) -> int
    decreases k,
{
    if k <= 0 {
        0
    } else {
        accel_y_prefix(s, i, k - 1) + if k - 1 == i {
            0
        } else {
            term_y(s, i, k - 1)
        }
    }
}

/// Sum of the magnitudes of the x-contributions on body i from bodies
/// with index below k.
pub open spec fn mag_x_prefix(s: Seq<Body>, i: int, k: int) -> int
    decreases k,
{
    if k <= 0 {
        0
    } else {
        mag_x_prefix(s, i, k - 1) + if k - 1 == i {
            0
        } else {
            abs_val(term_x(s, i, k - 1))
        }
    }
}

/// Sum of the magnitudes of the y-contributions on body i from bodies
/// with index below k.
pub open spec fn mag_y_prefix(s: Seq<Body>, i: int, k: int) -> int
    decreases k,
{
    if k <= 0 {
        0
    } else {
        mag_y_prefix(s, i, k - 1) + if k - 1 == i {
            0
        } else {
            abs_val(term_y(s, i, k - 1))
        }
    }
}

/// The x-acceleration of body i: the signed sum of the contributions of
/// all other bodies.
pub open spec fn accel_x(s: Seq<Body>, i: int) -> int {
    accel_x_prefix(s, i, s.len() as int)
}

/// The y-acceleration of body i.
pub open spec fn accel_y(s: Seq<Body>, i: int) -> int {
    accel_y_prefix(s, i, s.len() as int)
}

/// Sum of the magnitudes of all x-contributions on body i.
pub open spec fn mag_x(s: Seq<Body>, i: int) -> int {
    mag_x_prefix(s, i, s.len() as int)
}

/// Sum of the magnitudes of all y-contributions on body i.
pub open spec fn mag_y(s: Seq<Body>, i: int) -> int {
    mag_y_prefix(s, i, s.len() as int)
}

/// Every body's accumulated acceleration stays within the representable
/// range, even as a sum of magnitudes.
pub open spec fn accel_ok(s: Seq<Body>) -> bool {
    forall|i: int| 0 <= i < s.len() ==> mag_x(s, i) <= ACC_LIMIT && mag_y(s, i) <= ACC_LIMIT
}

/// The position of body i after one tick: a second-order update from the
/// old velocity and the new acceleration, with the acceleration scale
/// divided back out.
pub open spec fn new_x(s: Seq<Body>, i: int) -> int {
    s[i].x + s[i].vx * (DT as int) + sdiv(accel_x(s, i) * (HALF_DT_SQ as int))
}

/// The y-position of body i after one tick.
pub open spec fn new_y(s: Seq<Body>, i: int) -> int {
    s[i].y + s[i].vy * (DT as int) + sdiv(accel_y(s, i) * (HALF_DT_SQ as int))
}

/// The x-velocity of body i after one tick.
pub open spec fn new_vx(s: Seq<Body>, i: int) -> int {
    s[i].vx + sdiv(accel_x(s, i) * (DT as int))
}

/// The y-velocity of body i after one tick.
pub open spec fn new_vy(s: Seq<Body>, i: int) -> int {
    s[i].vy + sdiv(accel_y(s, i) * (DT as int))
}

/// Every updated position and velocity stays within the representable
/// range.
pub open spec fn bounds_ok(s: Seq<Body>) -> bool {
    forall|i: int| 0 <= i < s.len() ==> abs_val(new_x(s, i)) <= POS_LIMIT
        && abs_val(new_y(s, i)) <= POS_LIMIT && abs_val(new_vx(s, i)) <= VEL_LIMIT
        && abs_val(new_vy(s, i)) <= VEL_LIMIT
}

/// A tick succeeds exactly when no two bodies coincide and every computed
/// value stays representable.
pub open spec fn tick_ok(s: Seq<Body>) -> bool {
    &&& !degenerate(s)
    &&& accel_ok(s)
    &&& bounds_ok(s)
}

/// The state after one successful tick: accelerations recomputed from all
/// pairs, positions advanced with the old velocities and the new
/// accelerations, velocities advanced with the new accelerations.
pub open spec fn tick_state(s: Seq<Body>) -> Seq<Body> {
    Seq::new(
        s.len(),
        |i: int| Body {
            x: new_x(s, i) as i128,
            y: new_y(s, i) as i128,
            mass: s[i].mass,
            vx: new_vx(s, i) as i128,
            vy: new_vy(s, i) as i128,
            ax: accel_x(s, i) as i128,
            ay: accel_y(s, i) as i128,
        },
    )
}

/// The squared distance does not depend on the order of the pair.
pub proof fn lemma_dist_sq_symm(s: Seq<Body>, i: int, j: int)
    ensures
        dist_sq(s, i, j) == dist_sq(s, j, i),
{
    let dx: int = delta_x(s, i, j);
    let dy: int = delta_y(s, i, j);
    assert(dx * dx == (-dx) * (-dx) && dy * dy == (-dy) * (-dy)) by (nonlinear_arith);
}

/// A square is never negative.
pub proof fn lemma_square_nonneg(v: int)
    ensures
        v * v >= 0,
        v != 0 ==> v * v > 0,
{
    assert(v * v >= 0 && (v != 0 ==> v * v > 0)) by (nonlinear_arith);
}

/// The square of the absolute value is the square.
pub proof fn lemma_abs_square(v: int)
    ensures
        abs_val(v) * abs_val(v) == v * v,
{
    assert(v * v == (-v) * (-v)) by (nonlinear_arith);
}

/// A positive squared distance has a square root of at least one.
pub proof fn lemma_sqrt_pos(d2: int)
    requires
        d2 >= 1,
    ensures
        sqrt_floor(d2 as nat) >= 1,
{
    lemma_sqrt_floor_is_sqrt(d2 as nat);
    let r: nat = sqrt_floor(d2 as nat);
    assert(r >= 1) by (nonlinear_arith)
        requires
            (d2 as nat) < (r + 1) * (r + 1),
            d2 >= 1,
    ;
}

/// One long-division step: pushing a factor of ten from the remainder
/// into the dividend.
pub proof fn lemma_scale_step_exact(x: int, d2: int)
    requires
        0 <= x,
        1 <= d2,
    ensures
        (x / d2) * 10 + (10 * (x % d2)) / d2 == (10 * x) / d2,
        (10 * (x % d2)) % d2 == (10 * x) % d2,
{
    lemma_fundamental_div_mod(x, d2);
    assert(10 * (d2 * (x / d2)) == d2 * (10 * (x / d2))) by (nonlinear_arith);
    assert(10 * x == d2 * (10 * (x / d2)) + 10 * (x % d2));
    lemma_hoist_over_denominator(10 * (x % d2), 10 * (x / d2), d2 as nat);
    lemma_mod_multiples_vanish(10 * (x / d2), 10 * (x % d2), d2);
}

/// Four long-division steps are exactly one floor division with the
/// acceleration scale folded into the dividend.
pub proof fn lemma_scale_steps_exact4(x: int, d2: int)
    requires
        0 <= x,
        1 <= d2,
    ensures
        scale_steps(x / d2, x % d2, d2, 4) == (10000 * x) / d2,
        0 <= (10000 * x) / d2,
{
    lemma_scale_step_exact(x, d2);
    lemma_scale_step_exact(10 * x, d2);
    lemma_scale_step_exact(100 * x, d2);
    lemma_scale_step_exact(1000 * x, d2);
    assert(scale_steps(x / d2, x % d2, d2, 4) == scale_steps(
        (10 * x) / d2,
        (10 * x) % d2,
        d2,
        3,
    ));
    assert(scale_steps((10 * x) / d2, (10 * x) % d2, d2, 3) == scale_steps(
        (100 * x) / d2,
        (100 * x) % d2,
        d2,
        2,
    ));
    assert(scale_steps((100 * x) / d2, (100 * x) % d2, d2, 2) == scale_steps(
        (1000 * x) / d2,
        (1000 * x) % d2,
        d2,
        1,
    ));
    assert(scale_steps((1000 * x) / d2, (1000 * x) % d2, d2, 1) == scale_steps(
        (10000 * x) / d2,
        (10000 * x) % d2,
        d2,
        0,
    ));
    assert(scale_steps((10000 * x) / d2, (10000 * x) % d2, d2, 0) == (10000 * x) / d2);
    lemma_div_pos_is_pos(10000 * x, d2);
}

/// A pairwise contribution magnitude is never negative.
pub proof fn lemma_term_mag_nonneg(m: int, delta_abs: int, d2: int)
    requires
        0 <= m,
        0 <= delta_abs,
        1 <= d2,
    ensures
        0 <= term_mag(m, delta_abs, d2),
{
    lemma_sqrt_pos(d2);
    let r: int = sqrt_floor(d2 as nat) as int;
    let t1: int = (G_NUM as int) * m;
    lemma_mul_nonnegative(G_NUM as int, m);
    lemma_div_pos_is_pos(t1, r);
    lemma_mul_nonnegative(t1 / r, delta_abs);
    lemma_scale_steps_exact4((t1 / r) * delta_abs, d2);
}

/// The product of the per-mass quotient with one displacement component
/// stays below G_NUM times the mass, because the component is at most
/// the distance and the quotient times the distance undoes a floor.
pub proof fn lemma_t2_mul_le(m: int, delta_abs: int, d2: int)
    requires
        0 <= m,
        0 <= delta_abs,
        1 <= d2,
        delta_abs * delta_abs <= d2,
    ensures
        ((G_NUM as int) * m / (sqrt_floor(d2 as nat) as int)) * delta_abs <= (G_NUM as int) * m,
{
    lemma_sqrt_pos(d2);
    lemma_sqrt_floor_is_sqrt(d2 as nat);
    let r: int = sqrt_floor(d2 as nat) as int;
    lemma_le_sqrt(d2 as nat, r as nat, delta_abs as nat);
    let t1: int = (G_NUM as int) * m;
    lemma_mul_nonnegative(G_NUM as int, m);
    let t2: int = t1 / r;
    lemma_div_pos_is_pos(t1, r);
    // t2 * r <= t1, since division truncates.
    lemma_fundamental_div_mod(t1, r);
    lemma_remainder_lower(t1, r);
    assert(t2 * r <= t1);
    lemma_mul_inequality(delta_abs, r, t2);
    assert(t2 * delta_abs <= t2 * r) by (nonlinear_arith)
        requires
            delta_abs <= r,
            t2 >= 0,
    ;
}

/// Magnitude sums only grow as more bodies contribute.
pub proof fn lemma_mag_prefix_mono(s: Seq<Body>, i: int, k1: int, k2: int)
    requires
        k1 <= k2,
    ensures
        mag_x_prefix(s, i, k1) <= mag_x_prefix(s, i, k2),
        mag_y_prefix(s, i, k1) <= mag_y_prefix(s, i, k2),
    decreases k2 - k1,
{
    if k1 < k2 {
        lemma_mag_prefix_mono(s, i, k1, k2 - 1);
    }
}

/// A signed acceleration sum is bounded by its sum of magnitudes.
pub proof fn lemma_accel_prefix_abs(s: Seq<Body>, i: int, k: int)
    ensures
        abs_val(accel_x_prefix(s, i, k)) <= mag_x_prefix(s, i, k),
        abs_val(accel_y_prefix(s, i, k)) <= mag_y_prefix(s, i, k),
    decreases k,
{
    if k > 0 {
        lemma_accel_prefix_abs(s, i, k - 1);
    }
}

/// One pairwise contribution magnitude along one axis, exactly as
/// term_mag states it, or nothing when already its whole part exceeds
/// the representable acceleration range.
fn term_for(m: i128, delta_abs: u128, d2: u128, rt: u128) -> (t: Option<u128>)
    requires
        0 < m <= MASS_LIMIT,
        1 <= d2,
        d2 <= 32_000_000_000_000_000_000_000_000_000_000_000_000,
        is_sqrt(d2 as nat, rt as nat),
        (delta_abs as int) * (delta_abs as int) <= d2 as int,
    ensures
        match t {
            Some(v) => v as int == term_mag(m as int, delta_abs as int, d2 as int),
            None => term_mag(m as int, delta_abs as int, d2 as int) > ACC_LIMIT as int,
        },
{
    proof {
        lemma_sqrt_floor_is_sqrt(d2 as nat);
        lemma_sqrt_unique(d2 as nat, rt as nat, sqrt_floor(d2 as nat));
        lemma_sqrt_pos(d2 as int);
        lemma_t2_mul_le(m as int, delta_abs as int, d2 as int);
        lemma_mul_nonnegative((G_NUM as int) * (m as int) / (rt as int), delta_abs as int);
        lemma_div_pos_is_pos((G_NUM as int) * (m as int), rt as int);
    }
    let t1: u128 = G_NUM * (m as u128);
    let t2: u128 = t1 / rt;
    let x: u128 = t2 * delta_abs;
    let q: u128 = x / d2;
    let rem0: u128 = x % d2;
    proof {
        lemma_scale_steps_exact4(x as int, d2 as int);
        lemma_mod_division_less_than_divisor(x as int, d2 as int);
        lemma_div_pos_is_pos(x as int, d2 as int);
    }
    if q > 1_000_000_000_000_000_000_000_000 {
        // Already the whole micrometer-per-second-squared part, times the
        // scale, exceeds ACC_LIMIT.
        proof {
            lemma_fundamental_div_mod(x as int, d2 as int);
            lemma_mul_nonnegative(q as int, d2 as int);
            assert(10000 * (x as int) >= 10000 * ((q as int) * (d2 as int)));
            assert(10000 * ((q as int) * (d2 as int)) == (10000 * (q as int)) * (d2 as int))
                by (nonlinear_arith);
            lemma_div_is_ordered(
                (10000 * (q as int)) * (d2 as int),
                10000 * (x as int),
                d2 as int,
            );
            vstd::arithmetic::div_mod::lemma_div_by_multiple(10000 * (q as int), d2 as int);
            assert((10000 * (x as int)) / (d2 as int) >= 10000 * (q as int));
        }
        return None;
    }
    // Four more long-division digits: each is below ten, so the running
    // value stays within range of the capped whole part.
    let g1: u128 = (10 * rem0) / d2;
    let r1: u128 = (10 * rem0) % d2;
    proof {
        lemma_multiply_divide_lt(10 * (rem0 as int), d2 as int, 10);
        lemma_mod_division_less_than_divisor(10 * (rem0 as int), d2 as int);
    }
    let v1: u128 = q * 10 + g1;
    let g2: u128 = (10 * r1) / d2;
    let r2: u128 = (10 * r1) % d2;
    proof {
        lemma_multiply_divide_lt(10 * (r1 as int), d2 as int, 10);
        lemma_mod_division_less_than_divisor(10 * (r1 as int), d2 as int);
    }
    let v2: u128 = v1 * 10 + g2;
    let g3: u128 = (10 * r2) / d2;
    let r3: u128 = (10 * r2) % d2;
    proof {
        lemma_multiply_divide_lt(10 * (r2 as int), d2 as int, 10);
        lemma_mod_division_less_than_divisor(10 * (r2 as int), d2 as int);
    }
    let v3: u128 = v2 * 10 + g3;
    let g4: u128 = (10 * r3) / d2;
    proof {
        lemma_multiply_divide_lt(10 * (r3 as int), d2 as int, 10);
    }
    let v4: u128 = v3 * 10 + g4;
    proof {
        assert(scale_steps(q as int, rem0 as int, d2 as int, 4) == scale_steps(
            v1 as int,
            r1 as int,
            d2 as int,
            3,
        ));
        assert(scale_steps(v1 as int, r1 as int, d2 as int, 3) == scale_steps(
            v2 as int,
            r2 as int,
            d2 as int,
            2,
        ));
        assert(scale_steps(v2 as int, r2 as int, d2 as int, 2) == scale_steps(
            v3 as int,
            r3 as int,
            d2 as int,
            1,
        ));
        assert(scale_steps(v3 as int, r3 as int, d2 as int, 1) == scale_steps(
            v4 as int,
            (10 * (r3 as int)) % (d2 as int),
            d2 as int,
            0,
        ));
        assert(scale_steps(v4 as int, (10 * (r3 as int)) % (d2 as int), d2 as int, 0)
            == v4 as int);
    }
    Some(v4)
}

/// True when some pair of bodies occupies exactly the same position.
fn any_coincident(bodies: &Vec<Body>) -> (r: bool)
    ensures
        r == degenerate(bodies@),
{
    let n: usize = bodies.len();
    let mut i: usize = 0;
    while i < n
        invariant
            n == bodies@.len(),
            i <= n,
            forall|a: int, b: int| 0 <= a < b < n && a < i ==> dist_sq(bodies@, a, b) != 0,
        decreases n - i,
    {
        let mut j: usize = i + 1;
        while j < n
            invariant
                n == bodies@.len(),
                i < j <= n,
                forall|a: int, b: int| 0 <= a < b < n && a < i ==> dist_sq(bodies@, a, b) != 0,
                forall|b: int| i < b < j ==> dist_sq(bodies@, i as int, b) != 0,
            decreases n - j,
        {
            let same: bool = bodies[i].x == bodies[j].x && bodies[i].y == bodies[j].y;
            proof {
                lemma_square_nonneg(delta_x(bodies@, i as int, j as int));
                lemma_square_nonneg(delta_y(bodies@, i as int, j as int));
            }
            if same {
                assert(dist_sq(bodies@, i as int, j as int) == 0);
                return true;
            }
            j = j + 1;
        }
        i = i + 1;
    }
    false
}

/// The acceleration pass: the x and y acceleration of every body from all
/// other bodies, or OutOfRange when an accumulated magnitude would leave
/// the representable range.
fn compute_accels(bodies: &Vec<Body>) -> (r: Result<Vec<(i128, i128)>, SimError>)
    requires
        wf_seq(bodies@),
        !degenerate(bodies@),
    ensures
        match r {
            Ok(acc) => {
                &&& accel_ok(bodies@)
                &&& acc@.len() == bodies@.len()
                &&& forall|k: int| 0 <= k < bodies@.len() ==> acc@[k].0 == accel_x(bodies@, k)
                    && acc@[k].1 == accel_y(bodies@, k)
            },
            Err(e) => e == SimError::OutOfRange && !accel_ok(bodies@),
        },
{
    let n: usize = bodies.len();
    let mut acc: Vec<(i128, i128)> = Vec::new();
    let mut i: usize = 0;
    while i < n
        invariant
            n == bodies@.len(),
            wf_seq(bodies@),
            !degenerate(bodies@),
            i <= n,
            acc@.len() == i,
            forall|k: int| 0 <= k < i ==> acc@[k].0 == accel_x(bodies@, k)
                && acc@[k].1 == accel_y(bodies@, k) && mag_x(bodies@, k) <= ACC_LIMIT
                && mag_y(bodies@, k) <= ACC_LIMIT,
        decreases n - i,
    {
        let mut posx: u128 = 0;
        let mut negx: u128 = 0;
        let mut posy: u128 = 0;
        let mut negy: u128 = 0;
        let mut j: usize = 0;
        while j < n
            invariant
                n == bodies@.len(),
                wf_seq(bodies@),
                !degenerate(bodies@),
                i < n,
                j <= n,
                posx as int - negx as int == accel_x_prefix(bodies@, i as int, j as int),
                posx as int + negx as int == mag_x_prefix(bodies@, i as int, j as int),
                posy as int - negy as int == accel_y_prefix(bodies@, i as int, j as int),
                posy as int + negy as int == mag_y_prefix(bodies@, i as int, j as int),
                posx as int + negx as int <= ACC_LIMIT as int,
                posy as int + negy as int <= ACC_LIMIT as int,
            decreases n - j,
        {
            if j != i {
                let bi: Body = bodies[i];
                let bj: Body = bodies[j];
                assert(body_wf(bodies@[i as int]) && body_wf(bodies@[j as int]));
                let dx: i128 = bj.x - bi.x;
                let dy: i128 = bj.y - bi.y;
                let adx: u128 = if dx >= 0 {
                    dx as u128
                } else {
                    (-dx) as u128
                };
                let ady: u128 = if dy >= 0 {
                    dy as u128
                } else {
                    (-dy) as u128
                };
                proof {
                    lemma_mul_upper_bound(
                        adx as int,
                        4_000_000_000_000_000_000,
                        adx as int,
                        4_000_000_000_000_000_000,
                    );
                    lemma_mul_upper_bound(
                        ady as int,
                        4_000_000_000_000_000_000,
                        ady as int,
                        4_000_000_000_000_000_000,
                    );
                    lemma_mul_nonnegative(adx as int, adx as int);
                    lemma_mul_nonnegative(ady as int, ady as int);
                    lemma_abs_square(dx as int);
                    lemma_abs_square(dy as int);
                }
                let d2: u128 = adx * adx + ady * ady;
                proof {
                    assert(d2 as int == dist_sq(bodies@, i as int, j as int));
                    if i < j {
                        assert(dist_sq(bodies@, i as int, j as int) != 0);
                    } else {
                        lemma_dist_sq_symm(bodies@, i as int, j as int);
                        assert(dist_sq(bodies@, j as int, i as int) != 0);
                    }
                }
                let rt: u128 = isqrt(d2);
                let tx: u128 = match term_for(bj.mass, adx, d2, rt) {
                    Some(v) => v,
                    None => {
                        proof {
                            assert(abs_val(term_x(bodies@, i as int, j as int)) > ACC_LIMIT);
                            assert(mag_x_prefix(bodies@, i as int, j as int + 1) > ACC_LIMIT);
                            lemma_mag_prefix_mono(bodies@, i as int, j as int + 1, n as int);
                            assert(mag_x(bodies@, i as int) > ACC_LIMIT);
                        }
                        return Err(SimError::OutOfRange);
                    },
                };
                let ty: u128 = match term_for(bj.mass, ady, d2, rt) {
                    Some(v) => v,
                    None => {
                        proof {
                            assert(abs_val(term_y(bodies@, i as int, j as int)) > ACC_LIMIT);
                            assert(mag_y_prefix(bodies@, i as int, j as int + 1) > ACC_LIMIT);
                            lemma_mag_prefix_mono(bodies@, i as int, j as int + 1, n as int);
                            assert(mag_y(bodies@, i as int) > ACC_LIMIT);
                        }
                        return Err(SimError::OutOfRange);
                    },
                };
                assert(tx as int == abs_val(term_x(bodies@, i as int, j as int)));
                assert(ty as int == abs_val(term_y(bodies@, i as int, j as int)));
                let mx: u128 = posx + negx;
                if tx > (ACC_LIMIT as u128) - mx {
                    proof {
                        lemma_mag_prefix_mono(bodies@, i as int, j as int + 1, n as int);
                        assert(mag_x(bodies@, i as int) > ACC_LIMIT);
                    }
                    return Err(SimError::OutOfRange);
                }
                let my: u128 = posy + negy;
                if ty > (ACC_LIMIT as u128) - my {
                    proof {
                        lemma_mag_prefix_mono(bodies@, i as int, j as int + 1, n as int);
                        assert(mag_y(bodies@, i as int) > ACC_LIMIT);
                    }
                    return Err(SimError::OutOfRange);
                }
                if dx >= 0 {
                    posx = posx + tx;
                } else {
                    negx = negx + tx;
                }
                if dy >= 0 {
                    posy = posy + ty;
                } else {
                    negy = negy + ty;
                }
            }
            j = j + 1;
        }
        let ax: i128 = (posx as i128) - (negx as i128);
        let ay: i128 = (posy as i128) - (negy as i128);
        assert(ax as int == accel_x(bodies@, i as int));
        assert(ay as int == accel_y(bodies@, i as int));
        assert(posx as int + negx as int == mag_x(bodies@, i as int));
        assert(posy as int + negy as int == mag_y(bodies@, i as int));
        assert(mag_x(bodies@, i as int) <= ACC_LIMIT);
        assert(mag_y(bodies@, i as int) <= ACC_LIMIT);
        let ghost prev_acc: Seq<(i128, i128)> = acc@;
        acc.push((ax, ay));
        proof {
            assert forall|k: int| 0 <= k < i + 1 implies acc@[k].0 == accel_x(bodies@, k)
                && acc@[k].1 == accel_y(bodies@, k) && mag_x(bodies@, k) <= ACC_LIMIT
                && mag_y(bodies@, k) <= ACC_LIMIT by {
                if k < i {
                    assert(acc@[k] == prev_acc[k]);
                    assert(prev_acc[k].0 == accel_x(bodies@, k));
                } else {
                    assert(acc@[k] == (ax, ay));
                }
            }
        }
        i = i + 1;
    }
    assert forall|k: int| 0 <= k < bodies@.len() implies mag_x(bodies@, k) <= ACC_LIMIT
        && mag_y(bodies@, k) <= ACC_LIMIT by {
        assert(acc@[k].0 == accel_x(bodies@, k));
    }
    assert(accel_ok(bodies@));
    Ok(acc)
}

/// Recomputes every body's acceleration from all other bodies, leaving
/// positions, velocities and masses untouched. Refuses the pass, leaving
/// the whole state untouched, when two bodies coincide or an accumulated
/// acceleration would leave the representable range.
pub fn update_acceleration_all_bodies(bodies: &mut Vec<Body>) -> (r: Result<(), SimError>)
    requires
        wf_seq(old(bodies)@),
    ensures
        match r {
            Ok(()) => {
                &&& !degenerate(old(bodies)@)
                &&& accel_ok(old(bodies)@)
                &&& final(bodies)@.len() == old(bodies)@.len()
                &&& forall|k: int| 0 <= k < old(bodies)@.len() ==> final(bodies)@[k] == (Body {
                    ax: accel_x(old(bodies)@, k) as i128,
                    ay: accel_y(old(bodies)@, k) as i128,
                    ..old(bodies)@[k]
                })
                &&& wf_seq(final(bodies)@)
            },
            Err(e) => {
                &&& final(bodies)@ == old(bodies)@
                &&& (e == SimError::DegenerateDistance <==> degenerate(old(bodies)@))
                &&& (e == SimError::DegenerateDistance || e == SimError::OutOfRange)
                &&& (e == SimError::OutOfRange ==> !accel_ok(old(bodies)@))
            },
        },
{
    if any_coincident(bodies) {
        return Err(SimError::DegenerateDistance);
    }
    let acc: Vec<(i128, i128)> = match compute_accels(bodies) {
        Ok(a) => a,
        Err(e) => {
            return Err(e);
        },
    };
    let ghost s0: Seq<Body> = bodies@;
    let n: usize = bodies.len();
    let mut i: usize = 0;
    while i < n
        invariant
            n == bodies@.len(),
            s0.len() == n,
            acc@.len() == n,
            wf_seq(s0),
            i <= n,
            forall|k: int| 0 <= k < n ==> acc@[k].0 == accel_x(s0, k) && acc@[k].1 == accel_y(
                s0,
                k,
            ) && mag_x(s0, k) <= ACC_LIMIT && mag_y(s0, k) <= ACC_LIMIT,
            forall|k: int| i <= k < n ==> bodies@[k] == s0[k],
            forall|k: int| 0 <= k < i ==> bodies@[k] == (Body {
                ax: acc@[k].0,
                ay: acc@[k].1,
                ..s0[k]
            }),
        decreases n - i,
    {
        let mut b: Body = bodies[i];
        b.ax = acc[i].0;
        b.ay = acc[i].1;
        bodies.set(i, b);
        i = i + 1;
    }
    proof {
        assert forall|k: int| 0 <= k < n implies bodies@[k] == (Body {
            ax: accel_x(s0, k) as i128,
            ay: accel_y(s0, k) as i128,
            ..s0[k]
        }) && body_wf(bodies@[k]) by {
            lemma_accel_prefix_abs(s0, k, n as int);
            assert(body_wf(s0[k]));
        }
    }
    Ok(())
}

/// Advances the whole system by one tick: one acceleration pass, then for
/// each body the position update with the old velocity and the new
/// acceleration, then the velocity update. Either every body advances, or
/// the state is left exactly as it was and the error says why.
pub fn simulate(bodies: &mut Vec<Body>) -> (r: Result<(), SimError>)
    requires
        wf_seq(old(bodies)@),
    ensures
        match r {
            Ok(()) => {
                &&& tick_ok(old(bodies)@)
                &&& final(bodies)@ == tick_state(old(bodies)@)
                &&& wf_seq(final(bodies)@)
            },
            Err(e) => {
                &&& final(bodies)@ == old(bodies)@
                &&& !tick_ok(old(bodies)@)
                &&& (e == SimError::DegenerateDistance <==> degenerate(old(bodies)@))
                &&& (e == SimError::DegenerateDistance || e == SimError::OutOfRange)
            },
        },
{
    let ghost s0: Seq<Body> = bodies@;
    let n: usize = bodies.len();
    // Work on a copy, so a refused tick leaves the state untouched.
    let mut work: Vec<Body> = Vec::new();
    let mut i: usize = 0;
    while i < n
        invariant
            n == bodies@.len(),
            bodies@ == s0,
            i <= n,
            work@.len() == i,
            forall|k: int| 0 <= k < i ==> work@[k] == s0[k],
        decreases n - i,
    {
        work.push(bodies[i]);
        i = i + 1;
    }
    assert(work@ =~= s0);
    match update_acceleration_all_bodies(&mut work) {
        Ok(()) => {},
        Err(e) => {
            return Err(e);
        },
    }
    let mut i: usize = 0;
    while i < n
        invariant
            n == work@.len(),
            s0.len() == n,
            bodies@ == s0,
            wf_seq(s0),
            !degenerate(s0),
            accel_ok(s0),
            i <= n,
            forall|k: int| i <= k < n ==> work@[k] == (Body {
                ax: accel_x(s0, k) as i128,
                ay: accel_y(s0, k) as i128,
                ..s0[k]
            }) && body_wf(work@[k]),
            forall|k: int| 0 <= k < i ==> work@[k] == tick_state(s0)[k] && body_wf(work@[k]),
            forall|k: int| 0 <= k < i ==> abs_val(new_x(s0, k)) <= POS_LIMIT && abs_val(
                new_y(s0, k),
            ) <= POS_LIMIT && abs_val(new_vx(s0, k)) <= VEL_LIMIT && abs_val(new_vy(s0, k))
                <= VEL_LIMIT,
        decreases n - i,
    {
        let mut b: Body = work[i];
        proof {
            lemma_accel_prefix_abs(s0, i as int, n as int);
            assert(mag_x(s0, i as int) <= ACC_LIMIT && mag_y(s0, i as int) <= ACC_LIMIT);
            assert(abs_val(accel_x(s0, i as int)) <= ACC_LIMIT);
            assert(abs_val(accel_y(s0, i as int)) <= ACC_LIMIT);
            assert(b.ax as int == accel_x(s0, i as int));
            assert(b.ay as int == accel_y(s0, i as int));
        }
        b.update_position();
        b.update_velocity();
        assert(b.x as int == new_x(s0, i as int));
        assert(b.y as int == new_y(s0, i as int));
        assert(b.vx as int == new_vx(s0, i as int));
        assert(b.vy as int == new_vy(s0, i as int));
        if b.x > POS_LIMIT || b.x < -POS_LIMIT || b.y > POS_LIMIT || b.y < -POS_LIMIT || b.vx
            > VEL_LIMIT || b.vx < -VEL_LIMIT || b.vy > VEL_LIMIT || b.vy < -VEL_LIMIT {
            assert(!bounds_ok(s0));
            return Err(SimError::OutOfRange);
        }
        let ghost prev_work: Seq<Body> = work@;
        work.set(i, b);
        proof {
            assert(body_wf(s0[i as int]));
            assert(body_wf(b));
            assert(work@[i as int] == tick_state(s0)[i as int]);
            assert forall|k: int| i + 1 <= k < n implies work@[k] == (Body {
                ax: accel_x(s0, k) as i128,
                ay: accel_y(s0, k) as i128,
                ..s0[k]
            }) && body_wf(work@[k]) by {
                assert(work@[k] == prev_work[k]);
            }
            assert forall|k: int| 0 <= k < i + 1 implies work@[k] == tick_state(s0)[k]
                && body_wf(work@[k]) by {
                if k < i {
                    assert(work@[k] == prev_work[k]);
                    assert(prev_work[k] == tick_state(s0)[k]);
                }
            }
            assert forall|k: int| 0 <= k < i + 1 implies abs_val(new_x(s0, k)) <= POS_LIMIT
                && abs_val(new_y(s0, k)) <= POS_LIMIT && abs_val(new_vx(s0, k)) <= VEL_LIMIT
                && abs_val(new_vy(s0, k)) <= VEL_LIMIT by {
                if k < i {
                    assert(abs_val(new_x(s0, k)) <= POS_LIMIT);
                }
            }
        }
        i = i + 1;
    }
    assert forall|k: int| 0 <= k < n implies abs_val(new_x(s0, k)) <= POS_LIMIT && abs_val(
        new_y(s0, k),
    ) <= POS_LIMIT && abs_val(new_vx(s0, k)) <= VEL_LIMIT && abs_val(new_vy(s0, k))
        <= VEL_LIMIT by {
        assert(work@[k] == tick_state(s0)[k]);
    }
    assert(bounds_ok(s0));
    assert(tick_ok(s0));
    *bodies = work;
    assert(bodies@ =~= tick_state(s0));
    Ok(())
}

} // verus!
