use nbody::{simulate, update_acceleration_all_bodies, Body, SimError, Simulation};

fn solar_system() -> Vec<Body> {
    vec![
        Body::new(0, 0, 1_989_000_000_000_000_000_000_000_000_000, 0, 0),
        Body::new(57_900_000_000_000_000, 0, 328_500_000_000_000_000_000_000, 0, 47_870_000_000),
        Body::new(108_200_000_000_000_000, 0, 4_867_000_000_000_000_000_000_000, 0,
            35_020_000_000),
        Body::new(149_600_000_000_000_000, 0, 5_972_000_000_000_000_000_000_000, 0,
            29_780_000_000),
        Body::new(227_900_000_000_000_000, 0, 639_000_000_000_000_000_000_000, 0, 24_070_000_000),
        Body::new(778_500_000_000_000_000, 0, 1_898_000_000_000_000_000_000_000_000, 0,
            13_070_000_000),
    ]
}

#[test]
fn acceleration_pass_refuses_coincident_bodies_unchanged() {
    let mut bodies: Vec<Body> = vec![
        Body::new(4, -4, 10, 1, 2),
        Body::new(4, -4, 20, 3, 4),
    ];
    let orig: Vec<Body> = bodies.clone();
    let r = update_acceleration_all_bodies(&mut bodies);
    assert_eq!(r.err().unwrap(), SimError::DegenerateDistance);
    assert_eq!(bodies, orig);
}

#[test]
fn simulate_matches_the_store_tick() {
    let mut bodies: Vec<Body> = solar_system();
    let mut sim: Simulation = Simulation::initialize(solar_system()).unwrap();
    for _ in 0..10 {
        simulate(&mut bodies).unwrap();
        sim.tick().unwrap();
    }
    let stored: &Vec<Body> = sim.bodies();
    for i in 0..bodies.len() {
        assert_eq!(bodies[i], stored[i]);
    }
}

#[test]
fn sun_earth_one_tick_pulls_earth_inward() {
    let mut sim: Simulation = Simulation::initialize(vec![
        Body::new(0, 0, 1_989_000_000_000_000_000_000_000_000_000, 0, 0),
        Body::new(149_600_000_000_000_000, 0, 5_972_000_000_000_000_000_000_000, 0,
            29_780_000_000),
    ]).unwrap();
    sim.tick().unwrap();
    let bs: &Vec<Body> = sim.bodies();
    let earth: Body = bs[1];
    // Strictly inside the old orbit radius by a clear margin (more than
    // 1e6 m in micrometer units), but not implausibly far inside it.
    assert!(earth.x < 149_600_000_000_000_000 - 1_000_000_000_000);
    assert!(earth.x > 149_600_000_000_000_000 - 100_000_000_000_000);
    // The pull is inward: the earth starts falling toward the sun.
    assert!(earth.vx < 0);
    // The tangential velocity is untouched by a purely radial pull, and
    // the earth slides along y by exactly vy * DT (its y-acceleration is
    // exactly zero: the pair sits on the x axis).
    assert_eq!(earth.vy, 29_780_000_000);
    assert_eq!(earth.ay, 0);
    assert_eq!(earth.y, 29_780_000_000 * 86400);
    // The sun recoils: the earth's pull, about 1.78e-8 m/s^2, is well
    // above the acceleration quantum of 1e-10 m/s^2, so one tick moves
    // the sun about 66 m toward the earth and gives it a small positive
    // velocity.
    let sun: Body = bs[0];
    assert!(sun.ax > 0);
    assert!(sun.x > 60_000_000 && sun.x < 80_000_000, "sun.x = {}", sun.x);
    assert!(sun.vx > 1_000 && sun.vx < 2_000, "sun.vx = {}", sun.vx);
    assert_eq!(sun.y, 0);
    assert_eq!(sun.vy, 0);
}

#[test]
fn acceleration_signs_and_mass_ratio() {
    let mut bodies: Vec<Body> = vec![
        Body::new(0, 0, 1_000_000_000_000_000_000_000_000_000_000, 0, 0),
        Body::new(100_000_000_000_000_000, 70_000_000_000_000_000,
            2_000_000_000_000_000_000_000_000_000_000, 0, 0),
    ];
    update_acceleration_all_bodies(&mut bodies).unwrap();
    let a: Body = bodies[0];
    let b: Body = bodies[1];
    // Opposite directions, component by component.
    assert!(a.ax > 0 && b.ax < 0);
    assert!(a.ay > 0 && b.ay < 0);
    // Magnitudes in the inverse ratio of the masses: twice the mass,
    // half the acceleration, up to fixed-point rounding.
    let ratio_x: f64 = (a.ax as f64) / (-(b.ax) as f64);
    let ratio_y: f64 = (a.ay as f64) / (-(b.ay) as f64);
    assert!((ratio_x - 2.0).abs() < 0.01, "ratio_x = {}", ratio_x);
    assert!((ratio_y - 2.0).abs() < 0.01, "ratio_y = {}", ratio_y);
}

#[test]
fn mass_ratio_holds_at_solar_scale() {
    // A star and a planet five orders of magnitude lighter: both rounded
    // accelerations are nonzero and the mass-weighted magnitudes agree
    // to within a tenth of a percent.
    let mut bodies: Vec<Body> = vec![
        Body::new(0, 0, 1_989_000_000_000_000_000_000_000_000_000, 0, 0),
        Body::new(149_600_000_000_000_000, 0, 5_972_000_000_000_000_000_000_000, 0, 0),
    ];
    update_acceleration_all_bodies(&mut bodies).unwrap();
    let star: Body = bodies[0];
    let planet: Body = bodies[1];
    assert!(star.ax > 0 && planet.ax < 0);
    assert_eq!(star.ay, 0);
    assert_eq!(planet.ay, 0);
    let weighted_star: f64 = (star.mass as f64) * (star.ax as f64);
    let weighted_planet: f64 = (planet.mass as f64) * (-planet.ax as f64);
    let rel: f64 = (weighted_star - weighted_planet).abs() / weighted_planet;
    assert!(rel < 1.0e-3, "weighted mismatch: {} vs {}", weighted_star, weighted_planet);
}

#[test]
fn acceleration_exactly_opposite_for_equal_masses() {
    let mut bodies: Vec<Body> = vec![
        Body::new(-3_000_000_000_000, 9_000_000_000_000_000,
            1_989_000_000_000_000_000_000_000_000_000, 5, -5),
        Body::new(120_000_000_000_000_000, -44_000_000_000_000_000,
            1_989_000_000_000_000_000_000_000_000_000, -5, 5),
    ];
    update_acceleration_all_bodies(&mut bodies).unwrap();
    // For equal masses the rounded contributions cancel exactly.
    assert_eq!(bodies[0].ax, -bodies[1].ax);
    assert_eq!(bodies[0].ay, -bodies[1].ay);
    assert!(bodies[0].ax != 0);
}

#[test]
fn equal_mass_pair_conserves_momentum_exactly() {
    let mut sim: Simulation = Simulation::initialize(vec![
        Body::new(149_600_000_000_000_000, 0, 1_989_000_000_000_000_000_000_000_000_000, 0,
            14_894_450_000),
        Body::new(-149_600_000_000_000_000, 0, 1_989_000_000_000_000_000_000_000_000_000, 0,
            -14_894_450_000),
    ]).unwrap();
    for _ in 0..100 {
        sim.tick().unwrap();
        let bs: &Vec<Body> = sim.bodies();
        // Equal masses: momentum conservation is exact, so the velocity
        // sums stay exactly zero, tick after tick.
        assert_eq!(bs[0].vx + bs[1].vx, 0);
        assert_eq!(bs[0].vy + bs[1].vy, 0);
    }
}

#[test]
fn comparable_masses_conserve_momentum_closely() {
    let mut sim: Simulation = Simulation::initialize(vec![
        Body::new(100_000_000_000_000_000, 0, 1_989_000_000_000_000_000_000_000_000_000, 0,
            12_000_000_000),
        Body::new(-90_000_000_000_000_000, 10_000_000_000_000_000,
            3_100_000_000_000_000_000_000_000_000_000, -4_000_000_000, -9_000_000_000),
        Body::new(0, -160_000_000_000_000_000, 900_000_000_000_000_000_000_000_000_000,
            8_000_000_000, 3_000_000_000),
    ]).unwrap();
    let total = |s: &Simulation| -> (f64, f64) {
        let bs: &Vec<Body> = s.bodies();
        let mut px: f64 = 0.0;
        let mut py: f64 = 0.0;
        for b in bs.iter() {
            px += (b.mass as f64) * (b.vx as f64);
            py += (b.mass as f64) * (b.vy as f64);
        }
        (px, py)
    };
    let (px0, py0) = total(&sim);
    let scale: f64 = px0.abs() + py0.abs();
    for _ in 0..200 {
        sim.tick().unwrap();
    }
    let (px1, py1) = total(&sim);
    // Conserved to within fixed-point rounding: the drift stays a small
    // fraction of the total momentum even after 200 days.
    assert!((px1 - px0).abs() < scale * 0.01, "px {} -> {}", px0, px1);
    assert!((py1 - py0).abs() < scale * 0.01, "py {} -> {}", py0, py1);
}

#[test]
fn symmetric_pair_keeps_constant_separation_over_a_period() {
    // Two equal solar masses on a circular orbit about the origin:
    // v = sqrt(G * m / (4 d)) with d = 1.496e11 m, one period is about
    // 730 days.
    let mut sim: Simulation = Simulation::initialize(vec![
        Body::new(149_600_000_000_000_000, 0, 1_989_000_000_000_000_000_000_000_000_000, 0,
            14_894_450_000),
        Body::new(-149_600_000_000_000_000, 0, 1_989_000_000_000_000_000_000_000_000_000, 0,
            -14_894_450_000),
    ]).unwrap();
    let sep0: f64 = 2.0 * 149_600_000_000_000_000_i128 as f64;
    for _ in 0..731 {
        sim.tick().unwrap();
        let snap: Vec<(i128, i128)> = sim.snapshot();
        let dx: f64 = (snap[0].0 - snap[1].0) as f64;
        let dy: f64 = (snap[0].1 - snap[1].1) as f64;
        let sep: f64 = (dx * dx + dy * dy).sqrt();
        // The first-order scheme lets the separation breathe by a few
        // percent over a period; it must neither collapse nor escape.
        assert!((sep - sep0).abs() < sep0 * 0.08, "separation drifted: {} vs {}", sep, sep0);
    }
}

#[test]
fn solar_system_runs_and_planets_advance() {
    let mut sim: Simulation = Simulation::initialize(solar_system()).unwrap();
    for _ in 0..365 {
        sim.tick().unwrap();
    }
    let snap: Vec<(i128, i128)> = sim.snapshot();
    // Every planet has left the positive x axis and none has escaped.
    for k in 1..6 {
        assert!(snap[k].1 != 0);
        let r2: f64 = (snap[k].0 as f64).powi(2) + (snap[k].1 as f64).powi(2);
        assert!(r2.sqrt() < 1.0e18);
    }
    // The fixed-point trajectory tracks the real-valued evaluation of
    // the same scheme closely: after a year that puts the earth at a
    // radius near 1.657e11 m, below the positive x axis.
    let ex: f64 = snap[3].0 as f64;
    let ey: f64 = snap[3].1 as f64;
    let r: f64 = (ex * ex + ey * ey).sqrt();
    assert!((r - 1.6567e17).abs() < 1.6567e17 * 0.02, "earth radius {}", r);
    assert!(ex > 0.0 && ey < 0.0, "earth quadrant off: {} {}", ex, ey);
}
