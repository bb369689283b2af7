//! System-level laws of the integrator: action and reaction, momentum
//! conservation for a pair (exact for equal masses, bounded by the
//! fixed-point quantum in general), determinism, and the degenerate
//! configuration.

use vstd::prelude::*;
use crate::body::{Body, sdiv};
use crate::math::{lemma_le_sqrt, lemma_sqrt_floor_is_sqrt, sqrt_floor};
use crate::params::{ACC_SCALE, DT, G_NUM, VEL_LIMIT};
use crate::sim::{abs_val, accel_x, accel_x_prefix, accel_y, accel_y_prefix, degenerate,
    delta_x, delta_y, dist_sq, lemma_dist_sq_symm, lemma_scale_steps_exact4, lemma_sqrt_pos,
    lemma_square_nonneg, new_vx, new_vy, scale_steps, term_mag, term_x, term_y, tick_ok,
    tick_state};
use vstd::arithmetic::div_mod::{lemma_div_of0, lemma_div_pos_is_pos, lemma_fundamental_div_mod,
    lemma_mod_division_less_than_divisor, lemma_mod_multiples_basic};
use vstd::arithmetic::mul::lemma_mul_nonnegative;

verus! {

/// The larger of two values.
pub open spec fn max_val(a: int, b: int) -> int {
    if a >= b {
        a
    } else {
        b
    }
}

/// The exact numerator of the gravitational acceleration of body i from
/// body j along x: G_NUM * mass_j * dx over the common denominator
/// d2 * sqrt(d2). The fixed-point pass evaluates its floor; this exact
/// form is what the pairwise laws are about.
pub open spec fn grav_num_x(s: Seq<Body>, i: int, j: int) -> int {
    (G_NUM as int) * s[j].mass * delta_x(s, i, j)
}

/// The exact numerator of the gravitational acceleration of body i from
/// body j along y.
pub open spec fn grav_num_y(s: Seq<Body>, i: int, j: int) -> int {
    (G_NUM as int) * s[j].mass * delta_y(s, i, j)
}

/// Action and reaction: the exact accelerations a pair induces on one
/// another share the denominator d2 * sqrt(d2) (the squared distance does
/// not depend on the order of the pair), and their mass-weighted
/// numerators cancel exactly - opposite directions, magnitudes in the
/// inverse ratio of the masses.
pub proof fn lemma_pair_action_reaction(s: Seq<Body>, i: int, j: int)
    requires
        0 <= i < s.len(),
        0 <= j < s.len(),
        i != j,
    ensures
        dist_sq(s, i, j) == dist_sq(s, j, i),
        s[i].mass * grav_num_x(s, i, j) + s[j].mass * grav_num_x(s, j, i) == 0,
        s[i].mass * grav_num_y(s, i, j) + s[j].mass * grav_num_y(s, j, i) == 0,
        abs_val(s[i].mass * grav_num_x(s, i, j)) == abs_val(s[j].mass * grav_num_x(s, j, i)),
        abs_val(s[i].mass * grav_num_y(s, i, j)) == abs_val(s[j].mass * grav_num_y(s, j, i)),
{
    lemma_dist_sq_symm(s, i, j);
    let c: int = G_NUM as int;
    let mi: int = s[i].mass as int;
    let mj: int = s[j].mass as int;
    let dx: int = delta_x(s, i, j);
    let dy: int = delta_y(s, i, j);
    assert(delta_x(s, j, i) == -dx);
    assert(delta_y(s, j, i) == -dy);
    assert(mi * (c * mj * dx) + mj * (c * mi * (-dx)) == 0) by (nonlinear_arith);
    assert(mi * (c * mj * dy) + mj * (c * mi * (-dy)) == 0) by (nonlinear_arith);
}

/// For two bodies of equal mass, the rounded contributions the pass
/// actually accumulates are exactly opposite, axis by axis.
pub proof fn lemma_pair_term_antisymmetric(s: Seq<Body>, i: int, j: int)
    requires
        0 <= i < s.len(),
        0 <= j < s.len(),
        i != j,
        s[i].mass == s[j].mass,
        dist_sq(s, i, j) != 0,
    ensures
        term_x(s, i, j) == -term_x(s, j, i),
        term_y(s, i, j) == -term_y(s, j, i),
{
    lemma_dist_sq_symm(s, i, j);
    lemma_square_nonneg(delta_x(s, i, j));
    lemma_square_nonneg(delta_y(s, i, j));
    let d2: int = dist_sq(s, i, j);
    assert(d2 >= 1);
    let m: int = s[j].mass as int;
    let dx: int = delta_x(s, i, j);
    let dy: int = delta_y(s, i, j);
    assert(delta_x(s, j, i) == -dx);
    assert(delta_y(s, j, i) == -dy);
    if dx == 0 || dy == 0 {
        lemma_zero_delta_term(m, m, d2);
    }
}

/// For a pair of equal masses, one tick conserves the total momentum
/// exactly: the two rounded contributions cancel, so the velocity changes
/// cancel once weighted by the (equal) masses.
pub proof fn lemma_momentum_pair_equal_mass(s: Seq<Body>)
    requires
        s.len() == 2,
        s[0].mass == s[1].mass,
        tick_ok(s),
    ensures
        tick_state(s)[0].mass * tick_state(s)[0].vx + tick_state(s)[1].mass
            * tick_state(s)[1].vx == s[0].mass * s[0].vx + s[1].mass * s[1].vx,
        tick_state(s)[0].mass * tick_state(s)[0].vy + tick_state(s)[1].mass
            * tick_state(s)[1].vy == s[0].mass * s[0].vy + s[1].mass * s[1].vy,
{
    assert(dist_sq(s, 0, 1) != 0);
    lemma_pair_term_antisymmetric(s, 0, 1);
    assert(accel_x_prefix(s, 0, 0) == 0);
    assert(accel_x_prefix(s, 0, 1) == 0);
    assert(accel_x_prefix(s, 0, 2) == term_x(s, 0, 1));
    assert(accel_x_prefix(s, 1, 0) == 0);
    assert(accel_x_prefix(s, 1, 1) == term_x(s, 1, 0));
    assert(accel_x_prefix(s, 1, 2) == term_x(s, 1, 0));
    assert(accel_y_prefix(s, 0, 0) == 0);
    assert(accel_y_prefix(s, 0, 1) == 0);
    assert(accel_y_prefix(s, 0, 2) == term_y(s, 0, 1));
    assert(accel_y_prefix(s, 1, 0) == 0);
    assert(accel_y_prefix(s, 1, 1) == term_y(s, 1, 0));
    assert(accel_y_prefix(s, 1, 2) == term_y(s, 1, 0));
    assert(accel_x(s, 0) == term_x(s, 0, 1) && accel_x(s, 1) == term_x(s, 1, 0));
    assert(accel_y(s, 0) == term_y(s, 0, 1) && accel_y(s, 1) == term_y(s, 1, 0));
    assert(abs_val(new_vx(s, 0)) <= VEL_LIMIT && abs_val(new_vy(s, 0)) <= VEL_LIMIT);
    assert(abs_val(new_vx(s, 1)) <= VEL_LIMIT && abs_val(new_vy(s, 1)) <= VEL_LIMIT);
    assert(tick_state(s)[0].vx as int == new_vx(s, 0));
    assert(tick_state(s)[1].vx as int == new_vx(s, 1));
    assert(tick_state(s)[0].vy as int == new_vy(s, 0));
    assert(tick_state(s)[1].vy as int == new_vy(s, 1));
    let m: int = s[0].mass as int;
    let tx: int = term_x(s, 0, 1);
    let ty: int = term_y(s, 0, 1);
    assert((-tx) * (DT as int) == -(tx * (DT as int))) by (nonlinear_arith);
    assert((-ty) * (DT as int) == -(ty * (DT as int))) by (nonlinear_arith);
    lemma_sdiv_odd(tx * (DT as int));
    lemma_sdiv_odd(ty * (DT as int));
    let ex: int = sdiv(tx * (DT as int));
    let ey: int = sdiv(ty * (DT as int));
    assert(new_vx(s, 0) == s[0].vx + ex && new_vx(s, 1) == s[1].vx + (-ex));
    assert(new_vy(s, 0) == s[0].vy + ey && new_vy(s, 1) == s[1].vy + (-ey));
    assert(m * (s[0].vx + ex) + m * (s[1].vx + (-ex)) == m * s[0].vx + m * s[1].vx)
        by (nonlinear_arith);
    assert(m * (s[0].vy + ey) + m * (s[1].vy + (-ey)) == m * s[0].vy + m * s[1].vy)
        by (nonlinear_arith);
}

/// Dividing the scale out of an exact opposite gives the exact opposite:
/// the signed floor rounds magnitudes, so it is odd.
proof fn lemma_sdiv_odd(v: int)
    ensures
        sdiv(-v) == -sdiv(v),
{
    lemma_div_of0(ACC_SCALE as int);
}

/// The rounded contributions a pair exchanges never point the same way:
/// along each axis, one is nonnegative exactly when the other is
/// nonpositive, whatever the two masses are.
pub proof fn lemma_pair_directions_opposed(s: Seq<Body>, i: int, j: int)
    requires
        0 <= i < s.len(),
        0 <= j < s.len(),
        i != j,
        dist_sq(s, i, j) != 0,
        0 < s[i].mass,
        0 < s[j].mass,
    ensures
        term_x(s, i, j) * term_x(s, j, i) <= 0,
        term_y(s, i, j) * term_y(s, j, i) <= 0,
{
    lemma_dist_sq_symm(s, i, j);
    lemma_square_nonneg(delta_x(s, i, j));
    lemma_square_nonneg(delta_y(s, i, j));
    let d2: int = dist_sq(s, i, j);
    assert(d2 >= 1);
    let mi: int = s[i].mass as int;
    let mj: int = s[j].mass as int;
    let dx: int = delta_x(s, i, j);
    let dy: int = delta_y(s, i, j);
    assert(delta_x(s, j, i) == -dx);
    assert(delta_y(s, j, i) == -dy);
    crate::sim::lemma_term_mag_nonneg(mi, abs_val(dx), d2);
    crate::sim::lemma_term_mag_nonneg(mj, abs_val(dx), d2);
    crate::sim::lemma_term_mag_nonneg(mi, abs_val(dy), d2);
    crate::sim::lemma_term_mag_nonneg(mj, abs_val(dy), d2);
    if dx == 0 || dy == 0 {
        lemma_zero_delta_term(mi, mj, d2);
    }
    assert(term_x(s, i, j) * term_x(s, j, i) <= 0) by (nonlinear_arith)
        requires
            term_x(s, i, j) >= 0 && term_x(s, j, i) <= 0 || term_x(s, i, j) <= 0 && term_x(
                s,
                j,
                i,
            ) >= 0,
    ;
    assert(term_y(s, i, j) * term_y(s, j, i) <= 0) by (nonlinear_arith)
        requires
            term_y(s, i, j) >= 0 && term_y(s, j, i) <= 0 || term_y(s, i, j) <= 0 && term_y(
                s,
                j,
                i,
            ) >= 0,
    ;
}

/// The mass-weighted rounded contributions of a pair along one axis
/// cancel to within ACC_SCALE + 1 times the larger mass - one coarse
/// quantum: writing out both floor divisions over the common denominator
/// r * d2 shows each side misses the exact product
/// ACC_SCALE * G_NUM * m_i * m_j * a / (r * d2) by less than its own
/// weighted share.
proof fn lemma_mag_mismatch(mi: int, mj: int, a: int, d2: int)
    requires
        1 <= mi,
        1 <= mj,
        0 <= a,
        1 <= d2,
        a * a <= d2,
    ensures
        abs_val(mi * term_mag(mj, a, d2) - mj * term_mag(mi, a, d2)) < ((ACC_SCALE as int) + 1)
            * max_val(mi, mj),
{
    let c: int = G_NUM as int;
    lemma_sqrt_pos(d2);
    lemma_sqrt_floor_is_sqrt(d2 as nat);
    let r: int = sqrt_floor(d2 as nat) as int;
    lemma_le_sqrt(d2 as nat, r as nat, a as nat);
    let k: int = r * d2;
    assert(k >= 1) by (nonlinear_arith)
        requires
            1 <= r,
            1 <= d2,
            k == r * d2,
    ;
    let e: int = 10000 * (c * mi * mj * a);
    // Side weighted by mi, built from mj.
    let tj: int = c * mj;
    lemma_mul_nonnegative(c, mj);
    let qj: int = tj / r;
    lemma_fundamental_div_mod(tj, r);
    lemma_mod_division_less_than_divisor(tj, r);
    lemma_div_pos_is_pos(tj, r);
    let rhoj: int = tj % r;
    let uj: int = qj * a;
    lemma_mul_nonnegative(qj, a);
    lemma_scale_steps_exact4(uj, d2);
    let tij: int = (10000 * uj) / d2;
    lemma_fundamental_div_mod(10000 * uj, d2);
    lemma_mod_division_less_than_divisor(10000 * uj, d2);
    let sigj: int = (10000 * uj) % d2;
    assert(tij == term_mag(mj, a, d2));
    let erri: int = mi * (10000 * (a * rhoj) + sigj * r);
    lemma_floor_expand(mi, mj, c, a, r, d2, qj, rhoj, tij, sigj, 10000);
    assert(mi * tij * k == e - erri);
    lemma_err_bound(mi, a, rhoj, sigj, r, d2, 10000);
    assert(0 <= erri && erri < 10001 * mi * k);
    // Side weighted by mj, built from mi.
    let ti: int = c * mi;
    lemma_mul_nonnegative(c, mi);
    let qi: int = ti / r;
    lemma_fundamental_div_mod(ti, r);
    lemma_mod_division_less_than_divisor(ti, r);
    lemma_div_pos_is_pos(ti, r);
    let rhoi: int = ti % r;
    let ui: int = qi * a;
    lemma_mul_nonnegative(qi, a);
    lemma_scale_steps_exact4(ui, d2);
    let tji: int = (10000 * ui) / d2;
    lemma_fundamental_div_mod(10000 * ui, d2);
    lemma_mod_division_less_than_divisor(10000 * ui, d2);
    let sigi: int = (10000 * ui) % d2;
    assert(tji == term_mag(mi, a, d2));
    let errj: int = mj * (10000 * (a * rhoi) + sigi * r);
    lemma_floor_expand(mj, mi, c, a, r, d2, qi, rhoi, tji, sigi, 10000);
    assert(mj * tji * k == 10000 * (c * mj * mi * a) - errj);
    assert(10000 * (c * mj * mi * a) == 10000 * (c * mi * mj * a)) by (nonlinear_arith);
    lemma_err_bound(mj, a, rhoi, sigi, r, d2, 10000);
    assert(0 <= errj && errj < 10001 * mj * k);
    // Subtract and divide out the positive common denominator.
    lemma_combine(mi * tij, mj * tji, e, erri, errj, mi, mj, k, 10001);
    assert(((ACC_SCALE as int) + 1) * max_val(mi, mj) == 10001 * max_val(mi, mj))
        by (nonlinear_arith)
        requires
            (ACC_SCALE as int) + 1 == 10001,
    ;
}

/// Writing one rounded contribution, weighted by the other body's mass,
/// over the common denominator r * d2: what the two floors discard is
/// the weighted error term. s is the acceleration scale folded into the
/// second division.
#[verifier::rlimit(100)]
proof fn lemma_floor_expand(
    w: int,
    m: int,
    c: int,
    a: int,
    r: int,
    d2: int,
    q: int,
    rho: int,
    t: int,
    sig: int,
    s: int,
)
    requires
        c * m == r * q + rho,
        s * (q * a) == d2 * t + sig,
    ensures
        w * t * (r * d2) == s * (c * w * m * a) - w * (s * (a * rho) + sig * r),
{
    assert(t * (r * d2) == (s * (q * a)) * r - sig * r) by (nonlinear_arith)
        requires
            s * (q * a) == d2 * t + sig,
    ;
    assert((s * (q * a)) * r == s * (a * (r * q))) by (nonlinear_arith);
    assert(s * (a * (r * q)) == s * (a * (c * m)) - s * (a * rho)) by (nonlinear_arith)
        requires
            c * m == r * q + rho,
    ;
    assert(t * (r * d2) == s * (a * (c * m)) - (s * (a * rho) + sig * r));
    assert(w * (t * (r * d2)) == w * (s * (a * (c * m))) - w * (s * (a * rho) + sig * r))
        by (nonlinear_arith)
        requires
            t * (r * d2) == s * (a * (c * m)) - (s * (a * rho) + sig * r),
    ;
    assert(w * t * (r * d2) == w * (t * (r * d2))) by (nonlinear_arith);
    assert(w * (s * (a * (c * m))) == s * (c * w * m * a)) by (nonlinear_arith);
}

/// What the two floors discard is less than s + 1 times the weighted
/// denominator: the first remainder is below r and meets a factor of at
/// most s times the distance (one displacement component is at most the
/// distance), the second is below d2 and meets a factor r.
proof fn lemma_err_bound(w: int, a: int, rho: int, sig: int, r: int, d2: int, s: int)
    by (nonlinear_arith)
    requires
        1 <= w,
        0 <= a,
        a <= r,
        0 <= rho < r,
        0 <= sig < d2,
        r * r <= d2,
        1 <= r,
        1 <= d2,
        1 <= s,
    ensures
        0 <= w * (s * (a * rho) + sig * r),
        w * (s * (a * rho) + sig * r) < (s + 1) * w * (r * d2),
{
}

/// Two values that each miss the same target by less than their own
/// share of the common positive denominator differ by less than the sum
/// of the shares, once the denominator is divided out.
proof fn lemma_combine(
    x: int,
    y: int,
    e: int,
    erri: int,
    errj: int,
    mi: int,
    mj: int,
    k: int,
    cf: int,
)
    by (nonlinear_arith)
    requires
        x * k == e - erri,
        y * k == e - errj,
        0 <= erri,
        erri < cf * mi * k,
        0 <= errj,
        errj < cf * mj * k,
        1 <= k,
    ensures
        -(cf * mi) < x - y,
        x - y < cf * mj,
{
}

/// Action and reaction of the rounded pass itself: the mass-weighted
/// contributions a pair exchanges cancel, in stored units, to within
/// ACC_SCALE + 1 times the larger mass - one coarse quantum of
/// acceleration - on each axis. With equal masses they cancel exactly
/// (lemma_pair_term_antisymmetric).
pub proof fn lemma_pair_mismatch_bound(s: Seq<Body>, i: int, j: int)
    requires
        0 <= i < s.len(),
        0 <= j < s.len(),
        i != j,
        dist_sq(s, i, j) != 0,
        0 < s[i].mass,
        0 < s[j].mass,
    ensures
        abs_val(s[i].mass * term_x(s, i, j) + s[j].mass * term_x(s, j, i)) < ((ACC_SCALE as int)
            + 1) * max_val(s[i].mass as int, s[j].mass as int),
        abs_val(s[i].mass * term_y(s, i, j) + s[j].mass * term_y(s, j, i)) < ((ACC_SCALE as int)
            + 1) * max_val(s[i].mass as int, s[j].mass as int),
{
    lemma_dist_sq_symm(s, i, j);
    lemma_square_nonneg(delta_x(s, i, j));
    lemma_square_nonneg(delta_y(s, i, j));
    let d2: int = dist_sq(s, i, j);
    assert(d2 >= 1);
    let mi: int = s[i].mass as int;
    let mj: int = s[j].mass as int;
    let dx: int = delta_x(s, i, j);
    let dy: int = delta_y(s, i, j);
    assert(delta_x(s, j, i) == -dx);
    assert(delta_y(s, j, i) == -dy);
    lemma_abs_square_le(dx, dy);
    lemma_abs_square_le(dy, dx);
    lemma_mag_mismatch(mi, mj, abs_val(dx), d2);
    lemma_mag_mismatch(mi, mj, abs_val(dy), d2);
    lemma_signed_sum(mi, mj, dx, term_mag(mj, abs_val(dx), d2), term_mag(mi, abs_val(dx), d2));
    lemma_signed_sum(mi, mj, dy, term_mag(mj, abs_val(dy), d2), term_mag(mi, abs_val(dy), d2));
    if dx == 0 || dy == 0 {
        lemma_zero_delta_term(mi, mj, d2);
        assert(((ACC_SCALE as int) + 1) * max_val(mi, mj) > 0) by (nonlinear_arith)
            requires
                (ACC_SCALE as int) == 10000,
                max_val(mi, mj) >= 1,
        ;
    }
    assert(term_x(s, i, j) == if dx >= 0 {
        term_mag(mj, abs_val(dx), d2)
    } else {
        -term_mag(mj, abs_val(dx), d2)
    });
    assert(term_x(s, j, i) == if -dx >= 0 {
        term_mag(mi, abs_val(dx), d2)
    } else {
        -term_mag(mi, abs_val(dx), d2)
    });
    assert(term_y(s, i, j) == if dy >= 0 {
        term_mag(mj, abs_val(dy), d2)
    } else {
        -term_mag(mj, abs_val(dy), d2)
    });
    assert(term_y(s, j, i) == if -dy >= 0 {
        term_mag(mi, abs_val(dy), d2)
    } else {
        -term_mag(mi, abs_val(dy), d2)
    });
}

/// A zero displacement along one axis contributes nothing along it:
/// every long-division digit of zero is zero.
proof fn lemma_zero_delta_term(mi: int, mj: int, d2: int)
    requires
        1 <= d2,
    ensures
        term_mag(mi, 0, d2) == 0,
        term_mag(mj, 0, d2) == 0,
{
    let r: int = sqrt_floor(d2 as nat) as int;
    assert(((G_NUM as int) * mi / r) * 0 == 0);
    assert(((G_NUM as int) * mj / r) * 0 == 0);
    lemma_div_of0(d2);
    lemma_mod_multiples_basic(0, d2);
    assert((0int) % d2 == 0);
    assert(scale_steps(0, 0, d2, 4) == scale_steps(0, 0, d2, 3));
    assert(scale_steps(0, 0, d2, 3) == scale_steps(0, 0, d2, 2));
    assert(scale_steps(0, 0, d2, 2) == scale_steps(0, 0, d2, 1));
    assert(scale_steps(0, 0, d2, 1) == scale_steps(0, 0, d2, 0));
    assert(scale_steps(0, 0, d2, 0) == 0);
}

/// Combining two opposite-signed contributions with their weights: the
/// weighted sum is, up to sign, the weighted difference of magnitudes,
/// so it inherits the mismatch bound.
proof fn lemma_signed_sum(mi: int, mj: int, d: int, tij: int, tji: int)
    ensures
        d > 0 ==> mi * tij + mj * (-tji) == mi * tij - mj * tji,
        d < 0 ==> mi * (-tij) + mj * tji == -(mi * tij - mj * tji),
{
    assert(mj * (-tji) == -(mj * tji)) by (nonlinear_arith);
    assert(mi * (-tij) == -(mi * tij)) by (nonlinear_arith);
}

/// The square of one displacement component is at most the squared
/// distance.
proof fn lemma_abs_square_le(d: int, e: int)
    ensures
        abs_val(d) * abs_val(d) <= d * d + e * e,
        abs_val(d) >= 0,
{
    assert(abs_val(d) * abs_val(d) <= d * d + e * e && abs_val(d) >= 0) by (nonlinear_arith)
        requires
            abs_val(d) == if d >= 0 {
                d
            } else {
                -d
            },
    ;
}

/// Momentum conservation for a pair, up to fixed-point rounding: one
/// tick changes each axis's total momentum by less than 2 * DT times the
/// larger mass, whatever the two masses are.
pub proof fn lemma_momentum_pair_bound(s: Seq<Body>)
    requires
        s.len() == 2,
        0 < s[0].mass,
        0 < s[1].mass,
        tick_ok(s),
    ensures
        abs_val(
            tick_state(s)[0].mass * tick_state(s)[0].vx + tick_state(s)[1].mass
                * tick_state(s)[1].vx - (s[0].mass * s[0].vx + s[1].mass * s[1].vx),
        ) < 2 * (DT as int) * max_val(s[0].mass as int, s[1].mass as int),
        abs_val(
            tick_state(s)[0].mass * tick_state(s)[0].vy + tick_state(s)[1].mass
                * tick_state(s)[1].vy - (s[0].mass * s[0].vy + s[1].mass * s[1].vy),
        ) < 2 * (DT as int) * max_val(s[0].mass as int, s[1].mass as int),
{
    assert(dist_sq(s, 0, 1) != 0);
    lemma_pair_mismatch_bound(s, 0, 1);
    assert(accel_x_prefix(s, 0, 0) == 0);
    assert(accel_x_prefix(s, 0, 1) == 0);
    assert(accel_x_prefix(s, 0, 2) == term_x(s, 0, 1));
    assert(accel_x_prefix(s, 1, 0) == 0);
    assert(accel_x_prefix(s, 1, 1) == term_x(s, 1, 0));
    assert(accel_x_prefix(s, 1, 2) == term_x(s, 1, 0));
    assert(accel_y_prefix(s, 0, 0) == 0);
    assert(accel_y_prefix(s, 0, 1) == 0);
    assert(accel_y_prefix(s, 0, 2) == term_y(s, 0, 1));
    assert(accel_y_prefix(s, 1, 0) == 0);
    assert(accel_y_prefix(s, 1, 1) == term_y(s, 1, 0));
    assert(accel_y_prefix(s, 1, 2) == term_y(s, 1, 0));
    assert(abs_val(new_vx(s, 0)) <= VEL_LIMIT && abs_val(new_vy(s, 0)) <= VEL_LIMIT);
    assert(abs_val(new_vx(s, 1)) <= VEL_LIMIT && abs_val(new_vy(s, 1)) <= VEL_LIMIT);
    assert(tick_state(s)[0].vx as int == new_vx(s, 0));
    assert(tick_state(s)[1].vx as int == new_vx(s, 1));
    assert(tick_state(s)[0].vy as int == new_vy(s, 0));
    assert(tick_state(s)[1].vy as int == new_vy(s, 1));
    let m0: int = s[0].mass as int;
    let m1: int = s[1].mass as int;
    let mm: int = max_val(m0, m1);
    let t0x: int = term_x(s, 0, 1);
    let t1x: int = term_x(s, 1, 0);
    let t0y: int = term_y(s, 0, 1);
    let t1y: int = term_y(s, 1, 0);
    let d0x: int = sdiv(t0x * (DT as int));
    let d1x: int = sdiv(t1x * (DT as int));
    let d0y: int = sdiv(t0y * (DT as int));
    let d1y: int = sdiv(t1y * (DT as int));
    lemma_sdiv_close(t0x * (DT as int));
    lemma_sdiv_close(t1x * (DT as int));
    lemma_sdiv_close(t0y * (DT as int));
    lemma_sdiv_close(t1y * (DT as int));
    assert(t0x * (DT as int) == t0x * 86400);
    assert(t1x * (DT as int) == t1x * 86400);
    assert(t0y * (DT as int) == t0y * 86400);
    assert(t1y * (DT as int) == t1y * 86400);
    assert(((ACC_SCALE as int) + 1) * mm == 10001 * mm);
    lemma_momentum_axis(m0, m1, t0x, t1x, d0x, d1x, mm);
    lemma_momentum_axis(m0, m1, t0y, t1y, d0y, d1y, mm);
    assert(tick_state(s)[0].mass == s[0].mass && tick_state(s)[1].mass == s[1].mass);
    assert(tick_state(s)[0].vx as int == s[0].vx + d0x);
    assert(tick_state(s)[1].vx as int == s[1].vx + d1x);
    assert(tick_state(s)[0].vy as int == s[0].vy + d0y);
    assert(tick_state(s)[1].vy as int == s[1].vy + d1y);
    lemma_ring_diff(m0, m1, s[0].vx as int, s[1].vx as int, d0x, d1x);
    lemma_ring_diff(m0, m1, s[0].vy as int, s[1].vy as int, d0y, d1y);
    assert(tick_state(s)[0].mass * tick_state(s)[0].vx + tick_state(s)[1].mass
        * tick_state(s)[1].vx - (s[0].mass * s[0].vx + s[1].mass * s[1].vx) == m0 * d0x + m1
        * d1x);
    assert(tick_state(s)[0].mass * tick_state(s)[0].vy + tick_state(s)[1].mass
        * tick_state(s)[1].vy - (s[0].mass * s[0].vy + s[1].mass * s[1].vy) == m0 * d0y + m1
        * d1y);
    assert(2 * (DT as int) * mm == 172800 * mm);
}

/// The scale divided out of a value lands within one step of the exact
/// quotient, on either side of zero.
proof fn lemma_sdiv_close(v: int)
    ensures
        v - 10000 < 10000 * sdiv(v),
        10000 * sdiv(v) < v + 10000,
{
    let sc: int = ACC_SCALE as int;
    if v >= 0 {
        lemma_fundamental_div_mod(v, sc);
        lemma_mod_division_less_than_divisor(v, sc);
        assert(sc * (v / sc) == 10000 * (v / sc));
        assert(sdiv(v) == v / sc);
    } else {
        lemma_fundamental_div_mod(-v, sc);
        lemma_mod_division_less_than_divisor(-v, sc);
        assert(sc * ((-v) / sc) == 10000 * ((-v) / sc));
        assert(sdiv(v) == -((-v) / sc));
    }
}

/// Weighted per-body velocity steps, each within one scale unit of its
/// exact share, sum to a momentum change below two coarse time-step
/// quanta of the larger mass.
proof fn lemma_momentum_axis(m0: int, m1: int, t0: int, t1: int, d0: int, d1: int, mm: int)
    requires
        1 <= m0 <= mm,
        1 <= m1 <= mm,
        t0 * 86400 - 10000 < 10000 * d0 < t0 * 86400 + 10000,
        t1 * 86400 - 10000 < 10000 * d1 < t1 * 86400 + 10000,
        -(10001 * mm) < m0 * t0 + m1 * t1 < 10001 * mm,
    ensures
        -(172800 * mm) < m0 * d0 + m1 * d1 < 172800 * mm,
{
    assert(m0 * (t0 * 86400 - 10000) < m0 * (10000 * d0) && m0 * (10000 * d0) < m0 * (t0 * 86400
        + 10000)) by (nonlinear_arith)
        requires
            1 <= m0,
            t0 * 86400 - 10000 < 10000 * d0,
            10000 * d0 < t0 * 86400 + 10000,
    ;
    assert(m1 * (t1 * 86400 - 10000) < m1 * (10000 * d1) && m1 * (10000 * d1) < m1 * (t1 * 86400
        + 10000)) by (nonlinear_arith)
        requires
            1 <= m1,
            t1 * 86400 - 10000 < 10000 * d1,
            10000 * d1 < t1 * 86400 + 10000,
    ;
    assert(m0 * (t0 * 86400 - 10000) == 86400 * (m0 * t0) - 10000 * m0 && m0 * (t0 * 86400
        + 10000) == 86400 * (m0 * t0) + 10000 * m0 && m0 * (10000 * d0) == 10000 * (m0 * d0))
        by (nonlinear_arith);
    assert(m1 * (t1 * 86400 - 10000) == 86400 * (m1 * t1) - 10000 * m1 && m1 * (t1 * 86400
        + 10000) == 86400 * (m1 * t1) + 10000 * m1 && m1 * (10000 * d1) == 10000 * (m1 * d1))
        by (nonlinear_arith);
}

/// Pulling one tick's velocity steps out of the momentum sum.
proof fn lemma_ring_diff(m0: int, m1: int, v0: int, v1: int, e0: int, e1: int)
    by (nonlinear_arith)
    ensures
        m0 * (v0 + e0) + m1 * (v1 + e1) - (m0 * v0 + m1 * v1) == m0 * e0 + m1 * e1,
{
}

/// The state reached after n ticks from s: each step advances by
/// tick_state exactly when the tick succeeds and stays put otherwise,
/// which is precisely what tick's contract promises of every call.
pub open spec fn advance(s: Seq<Body>, n: nat) -> Seq<Body>
    decreases n,
{
    if n == 0 {
        s
    } else {
        let p = advance(s, (n - 1) as nat);
        if tick_ok(p) {
            tick_state(p)
        } else {
            p
        }
    }
}

/// Determinism: n ticks from equal initial states reach equal final
/// states. The whole run is a function of the initial state and n alone -
/// no hidden randomness and no dependence on the clock.
pub proof fn lemma_advance_deterministic(a: Seq<Body>, b: Seq<Body>, n: nat)
    requires
        a == b,
    ensures
        advance(a, n) == advance(b, n),
{
}

/// A state whose tick is refused stays exactly as it is, however many
/// further ticks are attempted.
pub proof fn lemma_stuck_state_stays(s: Seq<Body>, n: nat)
    requires
        !tick_ok(s),
    ensures
        advance(s, n) == s,
    decreases n,
{
    if n > 0 {
        lemma_stuck_state_stays(s, (n - 1) as nat);
    }
}

/// Two bodies at identical coordinates are a degenerate configuration:
/// the gravitational law would divide by zero, so the tick is refused.
pub proof fn lemma_coincident_degenerate(s: Seq<Body>, i: int, j: int)
    requires
        0 <= i < s.len(),
        0 <= j < s.len(),
        i != j,
        s[i].x == s[j].x,
        s[i].y == s[j].y,
    ensures
        degenerate(s),
        !tick_ok(s),
{
    let a: int = if i < j {
        i
    } else {
        j
    };
    let b: int = if i < j {
        j
    } else {
        i
    };
    let d: int = delta_x(s, a, b);
    let e: int = delta_y(s, a, b);
    assert(d == 0 && e == 0);
    assert(d * d + e * e == 0) by (nonlinear_arith)
        requires
            d == 0,
            e == 0,
    ;
    assert(dist_sq(s, a, b) == 0);
}

} // verus!
