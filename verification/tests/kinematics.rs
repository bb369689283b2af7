use nbody::{Body, isqrt};

#[test]
fn body_new_sets_fields_and_zero_acceleration() {
    let b: Body = Body::new(1, 2, 3, 4, 5);
    assert_eq!(b.x, 1);
    assert_eq!(b.y, 2);
    assert_eq!(b.mass, 3);
    assert_eq!(b.vx, 4);
    assert_eq!(b.vy, 5);
    assert_eq!(b.ax, 0);
    assert_eq!(b.ay, 0);
}

#[test]
fn update_position_is_second_order() {
    // Stored accelerations carry a scale of 10_000 per um/s^2: 20_000
    // stored units are 2 um/s^2.
    let mut b: Body = Body::new(0, 0, 1, 10, 20);
    b.ax = 20_000;
    b.ay = 30_000;
    b.update_position();
    // x + vx * 86400 + (ax * 3_732_480_000) / 10_000
    assert_eq!(b.x, 10 * 86400 + 2 * 3_732_480_000);
    assert_eq!(b.y, 20 * 86400 + 3 * 3_732_480_000);
    assert_eq!(b.vx, 10);
    assert_eq!(b.vy, 20);
    assert_eq!(b.ax, 20_000);
    assert_eq!(b.ay, 30_000);
}

#[test]
fn update_velocity_is_first_order() {
    let mut b: Body = Body::new(7, 8, 1, 10, 20);
    b.ax = 20_000;
    b.ay = -30_000;
    b.update_velocity();
    assert_eq!(b.vx, 10 + 2 * 86400);
    assert_eq!(b.vy, 20 - 3 * 86400);
    assert_eq!(b.x, 7);
    assert_eq!(b.y, 8);
}

#[test]
fn velocity_step_rounds_toward_zero() {
    // 3 stored units are 3e-4 um/s^2: over one day that is 25.92 um/s,
    // floored to 25 in magnitude on either side of zero.
    let mut b: Body = Body::new(0, 0, 1, 0, 0);
    b.ax = 3;
    b.ay = -3;
    b.update_velocity();
    assert_eq!(b.vx, 25);
    assert_eq!(b.vy, -25);
}

#[test]
fn isqrt_small_values() {
    assert_eq!(isqrt(0), 0);
    assert_eq!(isqrt(1), 1);
    assert_eq!(isqrt(2), 1);
    assert_eq!(isqrt(3), 1);
    assert_eq!(isqrt(4), 2);
    assert_eq!(isqrt(8), 2);
    assert_eq!(isqrt(9), 3);
    assert_eq!(isqrt(99), 9);
    assert_eq!(isqrt(100), 10);
}

#[test]
fn isqrt_large_values() {
    // The squared distance of the sun-earth configuration.
    assert_eq!(isqrt(22_380_160_000_000_000_000_000_000_000_000_000), 149_600_000_000_000_000);
    let big: u128 = 1_000_000_000_000_000_000_000_000_000_000;
    assert_eq!(isqrt(big), 1_000_000_000_000_000);
    assert_eq!(isqrt(big - 1), 999_999_999_999_999);
    let r: u128 = isqrt(u128::MAX);
    assert!(r * r <= u128::MAX);
    assert_eq!(r, 18_446_744_073_709_551_615);
}
