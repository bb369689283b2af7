//! Physical constants and the representable fixed-point ranges.
//!
//! The unit scale is 10^6: positions are stored in micrometers (1e-6 m)
//! and velocities in micrometers per second. Accelerations are kept at a
//! finer quantum, ACC_SCALE units per micrometer per second squared, so
//! that even the feeble pull of a planet on its star (tens of nanometers
//! per second squared) survives the rounding instead of flooring to
//! zero. Masses are stored directly in kilograms.

use vstd::prelude::*;

verus! {

/// The fixed time step of one tick: one simulated day, in seconds.
pub const DT: i128 = 86400;

/// DT * DT / 2, the coefficient of the acceleration in the second-order
/// position update. 86400 * 86400 / 2 = 3_732_480_000 exactly.
pub const HALF_DT_SQ: i128 = 3_732_480_000;

/// The gravitational constant, 6.67430e-11 m^3 kg^-1 s^-2, premultiplied
/// by the cube of the unit scale: 66743e-15 * (1e6)^3 = 66_743_000.
/// With distances in micrometers and masses in kilograms, the acceleration
/// of body i along x, in stored units of 1/ACC_SCALE micrometers per
/// second squared, is the sum over all other bodies j of
/// ACC_SCALE * G_NUM * mass_j * dx / (d2 * sqrt(d2)), rounded down.
pub const G_NUM: u128 = 66_743_000;

/// Stored acceleration units per micrometer per second squared: the
/// acceleration quantum is 1e-4 um/s^2 = 1e-10 m/s^2. The kinematic
/// updates divide it back out.
pub const ACC_SCALE: i128 = 10_000;

/// Largest representable coordinate magnitude: 2e18 micrometers (2e12 m,
/// beyond the orbit of Saturn). Keeps every squared pair distance, and
/// ten times any division remainder by it, within u128.
pub const POS_LIMIT: i128 = 2_000_000_000_000_000_000;

/// Largest representable velocity magnitude: 1e15 micrometers per second
/// (1e9 m/s, above the speed of light).
pub const VEL_LIMIT: i128 = 1_000_000_000_000_000;

/// Largest representable acceleration magnitude, in stored units: 1e28,
/// that is 1e24 micrometers per second squared. Keeps the position and
/// velocity updates within i128.
pub const ACC_LIMIT: i128 = 10_000_000_000_000_000_000_000_000_000;

/// Largest representable mass: 4e30 kg (about two solar masses). Keeps
/// G_NUM * mass within u128.
pub const MASS_LIMIT: i128 = 4_000_000_000_000_000_000_000_000_000_000;

} // verus!
