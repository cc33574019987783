//! Behavioral tests of aggregation, force evaluation and the simulation
//! step, with hand-computed expected values for the exact integer formulas.

use graviton::{
    Body, Pseudobody, Quadtree, QuadtreeBody, QuadtreeChild, QuadtreeError, Rgba, Simulation,
    Vec2, THETA_ONE,
};

fn grey() -> Rgba {
    Rgba { r: 128, g: 128, b: 128, a: 255 }
}

fn body(x: i64, y: i64, mass: i64) -> Body {
    Body::new(Vec2 { x, y }, Vec2 { x: 0, y: 0 }, mass, 1, grey())
}

fn proxy(x: i64, y: i64, key: usize) -> QuadtreeBody {
    QuadtreeBody { position: Vec2 { x, y }, body_key: key }
}

#[test]
fn body_and_pseudobody_accessors() {
    let b = Body::new(Vec2 { x: 1, y: 2 }, Vec2 { x: 3, y: 4 }, 5, 6, grey());
    assert_eq!(b.position, Vec2 { x: 1, y: 2 });
    assert_eq!(b.velocity, Vec2 { x: 3, y: 4 });
    assert_eq!(b.mass, 5);
    assert_eq!(b.radius(), 6);
    assert_eq!(b.color(), grey());
    let p = Pseudobody::new(Vec2 { x: 7, y: 8 }, 9);
    assert_eq!(p.position, Vec2 { x: 7, y: 8 });
    assert_eq!(p.mass, 9);
    let d = Pseudobody::default();
    assert_eq!(d.mass, 0);
    assert_eq!(d.position, Vec2 { x: 0, y: 0 });
}

#[test]
fn aggregation_conserves_mass_and_averages_centroids() {
    let mut tree: Quadtree<QuadtreeBody, Pseudobody> = Quadtree::new(16);
    // Four corners with masses 1, 2, 3, 4.
    assert_eq!(tree.insert(proxy(8, 8, 0)), Ok(()));
    assert_eq!(tree.insert(proxy(-8, 8, 1)), Ok(()));
    assert_eq!(tree.insert(proxy(8, -8, 2)), Ok(()));
    assert_eq!(tree.insert(proxy(-8, -8, 3)), Ok(()));
    let masses: Vec<i64> = vec![1, 2, 3, 4];
    tree.compute_aggregates(&masses);
    let root = tree.nodes().get(0).unwrap();
    assert!(matches!(root.child_key, QuadtreeChild::Node(_)));
    // Total mass 10 (conservation); centroid is the truncated weighted mean:
    // x: (8 - 16 + 24 - 32) / 10 = -16/10 -> -1, y: (8 + 16 - 24 - 32) / 10
    // = -32/10 -> -3.
    assert_eq!(root.data.mass, 10);
    assert_eq!(root.data.position, Vec2 { x: -1, y: -3 });
}

#[test]
fn aggregation_skips_empty_children() {
    let mut tree: Quadtree<QuadtreeBody, Pseudobody> = Quadtree::new(16);
    // Two bodies, so two of the root's four children stay empty.
    assert_eq!(tree.insert(proxy(8, 8, 0)), Ok(()));
    assert_eq!(tree.insert(proxy(-8, -8, 1)), Ok(()));
    let masses: Vec<i64> = vec![6, 2];
    tree.compute_aggregates(&masses);
    let root = tree.nodes().get(0).unwrap();
    // mass 8; centroid x = (48 - 16)/8 = 4, y = 4; the empty children
    // contribute nothing.
    assert_eq!(root.data.mass, 8);
    assert_eq!(root.data.position, Vec2 { x: 4, y: 4 });
}

#[test]
fn pairwise_force_matches_the_integer_formula() {
    let mut tree: Quadtree<QuadtreeBody, Pseudobody> = Quadtree::new(16);
    assert_eq!(tree.insert(proxy(0, 0, 0)), Ok(()));
    assert_eq!(tree.insert(proxy(3, 4, 1)), Ok(()));
    let masses: Vec<i64> = vec![7, 5];
    tree.compute_aggregates(&masses);
    // On body 0 from body 1: dx = 3, dy = 4, dsq = 25, base = 36,
    // isqrt = 6, den = 216; fx = 1000*5*3/216 = 69, fy = 1000*5*4/216 = 92.
    let f0 = tree.evaluate_force(&masses, 0, Vec2 { x: 0, y: 0 }, 0, 11, 1000);
    assert_eq!(f0, Vec2 { x: 69, y: 92 });
    // On body 1 from body 0: dx = -3, dy = -4; truncation toward zero:
    // fx = -21000/216 -> -97, fy = -28000/216 -> -129.
    let f1 = tree.evaluate_force(&masses, 1, Vec2 { x: 3, y: 4 }, 0, 11, 1000);
    assert_eq!(f1, Vec2 { x: -97, y: -129 });
}

#[test]
fn zero_threshold_recurses_to_leaves_and_matches_pairwise_summation() {
    let mut tree: Quadtree<QuadtreeBody, Pseudobody> = Quadtree::new(16);
    assert_eq!(tree.insert(proxy(8, 8, 0)), Ok(()));
    assert_eq!(tree.insert(proxy(8, 6, 1)), Ok(()));
    assert_eq!(tree.insert(proxy(-8, -8, 2)), Ok(()));
    let masses: Vec<i64> = vec![1, 1, 1];
    tree.compute_aggregates(&masses);
    // On body 2 at (-8,-8), brute force (theta = 0):
    // from (8,8): dx = dy = 16, dsq = 512, base = 537, isqrt = 23,
    //   den = 12351, fx = fy = 160000/12351 = 12;
    // from (8,6): dx = 16, dy = 14, dsq = 452, base = 477, isqrt = 21,
    //   den = 10017, fx = 160000/10017 = 15, fy = 140000/10017 = 13.
    let f = tree.evaluate_force(&masses, 2, Vec2 { x: -8, y: -8 }, 0, 25, 10000);
    assert_eq!(f, Vec2 { x: 12 + 15, y: 12 + 13 });
}

#[test]
fn huge_threshold_uses_the_root_aggregate() {
    let mut tree: Quadtree<QuadtreeBody, Pseudobody> = Quadtree::new(16);
    assert_eq!(tree.insert(proxy(8, 8, 0)), Ok(()));
    assert_eq!(tree.insert(proxy(8, 6, 1)), Ok(()));
    assert_eq!(tree.insert(proxy(-8, -8, 2)), Ok(()));
    let masses: Vec<i64> = vec![1, 1, 1];
    tree.compute_aggregates(&masses);
    // Root aggregate: mass 3, centroid (8/3 -> 2, 6/3 -> 2). With a huge
    // threshold the root is approximated at once (even for a member body):
    // dx = dy = 10, dsq = 200, base = 225, isqrt = 15, den = 3375,
    // fx = fy = 10000*3*10/3375 = 88.
    let f = tree.evaluate_force(
        &masses,
        2,
        Vec2 { x: -8, y: -8 },
        1000 * THETA_ONE,
        25,
        10000,
    );
    assert_eq!(f, Vec2 { x: 88, y: 88 });
}

#[test]
fn simulation_accessors_and_empty_tree() {
    let sim = Simulation::new(vec![body(1, 2, 3)], 16, THETA_ONE / 2, 1, 1);
    assert_eq!(sim.bodies().len(), 1);
    assert_eq!(sim.bodies()[0].position, Vec2 { x: 1, y: 2 });
    assert_eq!(sim.quadtree().extent(), 16);
    assert_eq!(sim.quadtree().nodes().len(), 1);
}

#[test]
fn advance_rejects_a_body_outside_the_extent() {
    let mut sim = Simulation::new(vec![body(0, 0, 1), body(40, 0, 1)], 16, 0, 1, 1);
    assert_eq!(sim.advance(10), Err(QuadtreeError::OutOfBounds));
    // Velocities untouched by the aborted step.
    assert_eq!(sim.bodies()[0].velocity, Vec2 { x: 0, y: 0 });
    assert_eq!(sim.bodies()[1].velocity, Vec2 { x: 0, y: 0 });
}

#[test]
fn advance_rejects_coincident_bodies_with_depth_exceeded() {
    let mut sim = Simulation::new(vec![body(5, 5, 1), body(5, 5, 1)], 16, 0, 1, 1);
    assert_eq!(sim.advance(10), Err(QuadtreeError::DepthExceeded));
}

#[test]
fn unit_square_step_is_symmetric_and_euler_ordered() {
    // Four bodies of equal mass at the corners of a unit square (one unit is
    // 65536 fixed-point steps), opening angle 0.5, softening about 1e-3 of a
    // square unit, dt = 10.
    let half: i64 = 32768;
    let mass: i64 = 65536;
    let soft: i64 = 4294967;
    let grav: i64 = 1 << 32;
    let dt: i64 = 10;
    let corners: [(i64, i64); 4] = [(half, half), (-half, half), (half, -half), (-half, -half)];
    let bodies: Vec<Body> = corners.iter().map(|(x, y)| body(*x, *y, mass)).collect();
    let mut sim = Simulation::new(bodies, 1 << 32, THETA_ONE / 2, soft, grav);
    assert_eq!(sim.advance(dt), Ok(()));

    // Euler order: positions move by the pre-step velocities (zero), so they
    // are unchanged; only the velocities picked up the forces.
    for (k, (x, y)) in corners.iter().enumerate() {
        assert_eq!(sim.bodies()[k].position, Vec2 { x: *x, y: *y });
    }
    let v0 = sim.bodies()[0].velocity;
    // Nonzero inward pull, diagonal-symmetric for a corner body.
    assert!(v0.x < 0 && v0.y < 0);
    assert_eq!(v0.x, v0.y);
    // All four corners feel forces of equal magnitude, pointing inward.
    for (k, (x, y)) in corners.iter().enumerate() {
        let v = sim.bodies()[k].velocity;
        assert_eq!(v.x.abs(), v0.x.abs());
        assert_eq!(v.y.abs(), v0.y.abs());
        assert!(v.x.signum() == -x.signum());
        assert!(v.y.signum() == -y.signum());
    }

    // A second step moves each position by the velocity gained in the first
    // step times dt: Euler integration with the previous step's velocity.
    let positions_before: Vec<Vec2> = sim.bodies().iter().map(|b| b.position).collect();
    let velocities_before: Vec<Vec2> = sim.bodies().iter().map(|b| b.velocity).collect();
    assert_eq!(sim.advance(dt), Ok(()));
    for k in 0..4 {
        let p = sim.bodies()[k].position;
        assert_eq!(p.x, positions_before[k].x + velocities_before[k].x * dt);
        assert_eq!(p.y, positions_before[k].y + velocities_before[k].y * dt);
    }
}

#[test]
fn calculate_body_force_agrees_with_the_tree_walk() {
    let mut sim = Simulation::new(
        vec![body(0, 0, 7), body(3, 4, 5)],
        16,
        0,
        11,
        1000,
    );
    assert_eq!(sim.advance(0), Ok(()));
    let masses: Vec<i64> = sim.bodies().iter().map(|b| b.mass).collect();
    let f = sim.calculate_body_force(&masses, 0);
    assert_eq!(f, Vec2 { x: 69, y: 92 });
    let g = sim
        .quadtree()
        .evaluate_force(&masses, 0, sim.bodies()[0].position, 0, 11, 1000);
    assert_eq!(f, g);
}
