//! A gravitational N-body simulator over fixed-point integer state.
//!
//! A fixed set of point masses attracts one another by Newtonian
//! gravitation. Each tick computes every body's acceleration from all
//! other bodies (an O(n^2) all-pairs pass), then advances positions with
//! a second-order update using the old velocity and the new acceleration,
//! and finally advances velocities - a semi-implicit scheme whose exact
//! ordering every contract here pins down.
//!
//! All state is held in fixed-point integers: positions in micrometers,
//! velocities in micrometers per second, accelerations at a finer quantum
//! of 1e-10 m/s^2 (ACC_SCALE stored units per micrometer per second
//! squared), masses in kilograms. Every tick is therefore an exact,
//! reproducible function of the previous state; degenerate configurations
//! (two bodies at the same point) and values outside the representable
//! range are reported as errors instead of corrupting the state.

mod body;
mod laws;
mod math;
mod params;
mod sim;
mod store;

pub use body::{Body, body_wf, sdiv};
pub use laws::{
    advance, grav_num_x, grav_num_y, lemma_advance_deterministic, lemma_coincident_degenerate,
    lemma_momentum_pair_bound, lemma_momentum_pair_equal_mass, lemma_pair_action_reaction,
    lemma_pair_directions_opposed, lemma_pair_mismatch_bound, lemma_pair_term_antisymmetric,
    lemma_stuck_state_stays, max_val,
};
pub use math::{is_sqrt, isqrt, sqrt_floor};
pub use params::{ACC_LIMIT, ACC_SCALE, DT, G_NUM, HALF_DT_SQ, MASS_LIMIT, POS_LIMIT, VEL_LIMIT};
pub use sim::{
    SimError, abs_val, accel_ok, accel_x, accel_y, bounds_ok, degenerate, delta_x, delta_y,
    dist_sq, mag_x, mag_y, new_vx, new_vy, new_x, new_y, simulate, term_x, term_y, tick_ok,
    tick_state, update_acceleration_all_bodies, wf_seq,
};
pub use store::Simulation;
