use nbody::{Body, SimError, Simulation, MASS_LIMIT, POS_LIMIT, VEL_LIMIT};

fn sun() -> Body {
    Body::new(0, 0, 1_989_000_000_000_000_000_000_000_000_000, 0, 0)
}

fn earth() -> Body {
    Body::new(149_600_000_000_000_000, 0, 5_972_000_000_000_000_000_000_000, 0, 29_780_000_000)
}

#[test]
fn initialize_accepts_valid_bodies() {
    let sim: Simulation = Simulation::initialize(vec![sun(), earth()]).unwrap();
    assert_eq!(sim.len(), 2);
    let snap: Vec<(i128, i128)> = sim.snapshot();
    assert_eq!(snap, vec![(0, 0), (149_600_000_000_000_000, 0)]);
    let bs: &Vec<Body> = sim.bodies();
    assert_eq!(bs[1].vy, 29_780_000_000);
    assert_eq!(bs[0].mass, 1_989_000_000_000_000_000_000_000_000_000);
}

#[test]
fn initialize_rejects_zero_mass() {
    let r = Simulation::initialize(vec![Body::new(0, 0, 0, 0, 0)]);
    assert_eq!(r.err().unwrap(), SimError::InvalidBody);
}

#[test]
fn initialize_rejects_negative_mass() {
    let r = Simulation::initialize(vec![sun(), Body::new(5, 5, -3, 0, 0)]);
    assert_eq!(r.err().unwrap(), SimError::InvalidBody);
}

#[test]
fn initialize_rejects_position_out_of_range() {
    let r = Simulation::initialize(vec![Body::new(POS_LIMIT + 1, 0, 1, 0, 0)]);
    assert_eq!(r.err().unwrap(), SimError::InvalidBody);
}

#[test]
fn initialize_rejects_velocity_out_of_range() {
    let r = Simulation::initialize(vec![Body::new(0, 0, 1, 0, -VEL_LIMIT - 1)]);
    assert_eq!(r.err().unwrap(), SimError::InvalidBody);
}

#[test]
fn single_body_moves_uniformly() {
    let mut sim: Simulation = Simulation::initialize(vec![Body::new(0, 0, 1, 5_000_000, -250)])
        .unwrap();
    sim.tick().unwrap();
    let snap: Vec<(i128, i128)> = sim.snapshot();
    // No other body, so no acceleration: plain uniform motion over one day.
    assert_eq!(snap[0], (5_000_000 * 86400, -250 * 86400));
    let bs: &Vec<Body> = sim.bodies();
    assert_eq!(bs[0].vx, 5_000_000);
    assert_eq!(bs[0].vy, -250);
    assert_eq!(bs[0].ax, 0);
    assert_eq!(bs[0].ay, 0);
}

#[test]
fn coincident_bodies_refuse_the_tick() {
    let mut sim: Simulation = Simulation::initialize(
        vec![Body::new(5, 5, 1_000, 0, 0), earth(), Body::new(5, 5, 2_000, 7, 7)],
    ).unwrap();
    let before: Vec<(i128, i128)> = sim.snapshot();
    let r = sim.tick();
    assert_eq!(r.err().unwrap(), SimError::DegenerateDistance);
    // A refused tick leaves every body exactly where it was.
    assert_eq!(sim.snapshot(), before);
    let bs: &Vec<Body> = sim.bodies();
    assert_eq!(bs[2].vx, 7);
}

#[test]
fn huge_masses_at_tiny_distance_refuse_the_tick() {
    let mut sim: Simulation = Simulation::initialize(
        vec![Body::new(0, 0, MASS_LIMIT, 0, 0), Body::new(1, 0, MASS_LIMIT, 0, 0)],
    ).unwrap();
    let before: Vec<(i128, i128)> = sim.snapshot();
    let r = sim.tick();
    assert_eq!(r.err().unwrap(), SimError::OutOfRange);
    assert_eq!(sim.snapshot(), before);
}

#[test]
fn runaway_body_refuses_the_tick() {
    let mut sim: Simulation = Simulation::initialize(
        vec![Body::new(POS_LIMIT - 1, 0, 1, VEL_LIMIT, 0)],
    ).unwrap();
    let r = sim.tick();
    assert_eq!(r.err().unwrap(), SimError::OutOfRange);
    assert_eq!(sim.snapshot(), vec![(POS_LIMIT - 1, 0)]);
}

#[test]
fn ticks_are_deterministic() {
    let make = || {
        Simulation::initialize(vec![
            sun(),
            Body::new(57_900_000_000_000_000, 0, 328_500_000_000_000_000_000_000, 0,
                47_870_000_000),
            earth(),
        ]).unwrap()
    };
    let mut a: Simulation = make();
    let mut b: Simulation = make();
    for _ in 0..50 {
        a.tick().unwrap();
    }
    for _ in 0..50 {
        b.tick().unwrap();
    }
    assert_eq!(a.snapshot(), b.snapshot());
    let ba: &Vec<Body> = a.bodies();
    let bb: &Vec<Body> = b.bodies();
    for i in 0..3 {
        assert_eq!(ba[i], bb[i]);
    }
}
