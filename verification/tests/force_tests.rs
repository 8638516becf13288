//! Scenario tests for the mass aggregation and the force model: mass
//! conservation, centre-of-mass values, the two-body law, the exact
//! pairwise limit of the approximation, and the integrator.

use quadtree::barnes_hut::BarnesHutWrapper;
use quadtree::quadtree::QuadTree;
use quadtree::state::Particle;
use quadtree::state::State;
use quadtree::utils::BoundingBox;
use quadtree::utils::Vec2;

fn world(x0: i128, y0: i128, x1: i128, y1: i128) -> BoundingBox {
    BoundingBox::build(Vec2::new(x0, y0), Vec2::new(x1, y1))
}

fn particle_at(x: i128, y: i128, mass: i128) -> Particle {
    Particle::new(Vec2::new(x, y), Vec2::new(0, 0), mass)
}

fn aggregate(tree: &QuadTree, items: &[Particle]) -> BarnesHutWrapper {
    let mut bh = BarnesHutWrapper::new();
    bh.build_hierarchy(tree, items);
    bh
}

#[test]
fn root_mass_is_the_exact_sum_of_all_masses() {
    let mut tree = QuadTree::build(1, world(0, 0, 100, 100)).unwrap();
    let items = vec![
        particle_at(10, 10, 7),
        particle_at(90, 10, 11),
        particle_at(10, 90, 13),
        particle_at(90, 90, 17),
        particle_at(55, 44, 19),
    ];
    tree.construct_tree(&items);
    let bh = aggregate(&tree, &items);
    let root = bh.barnes_hut_data[0].expect("root aggregated");
    assert_eq!(root.mass, 7 + 11 + 13 + 17 + 19);
}

#[test]
fn center_of_mass_is_the_weighted_average_truncated() {
    let mut tree = QuadTree::build(1, world(0, 0, 100, 100)).unwrap();
    // masses 1 and 3 at x = 0 and x = 10: true centre x = 7.5, stored 7
    let items = vec![particle_at(0, 50, 1), particle_at(10, 50, 3)];
    tree.construct_tree(&items);
    let bh = aggregate(&tree, &items);
    let root = bh.barnes_hut_data[0].expect("root aggregated");
    assert_eq!(root.mass, 4);
    assert_eq!(root.mass_center.x, 7);
    assert_eq!(root.mass_center.y, 50);
}

#[test]
fn empty_world_aggregates_to_zero_mass() {
    let mut tree = QuadTree::build(1, world(0, 0, 100, 100)).unwrap();
    let items: Vec<Particle> = Vec::new();
    tree.construct_tree(&items);
    let bh = aggregate(&tree, &items);
    let root = bh.barnes_hut_data[0].expect("root aggregated");
    assert_eq!(root.mass, 0);
    assert_eq!(root.mass_center, Vec2::new(0, 0));
}

/// A state whose velocities reveal the computed accelerations: `dt` of one
/// full time unit and a modifier of one make `velocity == acceleration`
/// after a tick that starts from rest.
fn two_body_state() -> State {
    let mut state = State::build(100, 100).unwrap();
    state.config.gravity = 1000;
    state.config.epsilon_squared = 0;
    state.config.theta = 0;
    state.config.frame_time_dt_mod = 1000;
    state.particles.push(particle_at(10, 20, 1));
    state.particles.push(particle_at(20, 20, 2));
    state
}

#[test]
fn two_bodies_accelerate_toward_each_other_by_the_exact_law() {
    // masses 1 and 2 at distance 10, no softening, theta 0: the magnitude
    // on the lighter body is gravity * 2 / 100, exactly 20 scaled units
    let mut state = two_body_state();
    state.update_barnes_hut(1000);
    assert_eq!(state.particles[0].velocity, Vec2::new(20, 0));
    assert_eq!(state.particles[1].velocity, Vec2::new(-10, 0));
}

#[test]
fn barnes_hut_at_theta_zero_matches_direct_pairwise_exactly() {
    let mut approximate = two_body_state();
    let mut direct = two_body_state();
    approximate.update_barnes_hut(1000);
    direct.update(1000);
    assert_eq!(approximate.particles, direct.particles);
}

#[test]
fn theta_zero_matches_pairwise_on_a_larger_set() {
    let positions: [(i128, i128, i128); 6] =
        [(5, 7, 3), (90, 12, 5), (33, 81, 2), (61, 64, 8), (12, 44, 1), (77, 30, 4)];
    let mut approximate = State::build(100, 100).unwrap();
    let mut direct = State::build(100, 100).unwrap();
    for state in [&mut approximate, &mut direct] {
        state.config.gravity = 1000;
        state.config.epsilon_squared = 0;
        state.config.theta = 0;
        state.config.frame_time_dt_mod = 1000;
        for &(x, y, m) in positions.iter() {
            state.particles.push(particle_at(x, y, m));
        }
    }
    approximate.update_barnes_hut(1000);
    direct.update(1000);
    assert_eq!(approximate.particles, direct.particles);
}

#[test]
fn softening_damps_the_two_body_force() {
    // softening 100 doubles the squared distance: the magnitude halves
    let mut state = two_body_state();
    state.config.epsilon_squared = 100;
    state.update_barnes_hut(1000);
    assert_eq!(state.particles[0].velocity, Vec2::new(10, 0));
    assert_eq!(state.particles[1].velocity, Vec2::new(-5, 0));
}

#[test]
fn coarse_theta_merges_a_far_cluster() {
    // two tight heavy bodies far away act as one pseudo-mass when theta is
    // generous; the result is still finite and directed toward the cluster
    let mut state = State::build(1000, 1000).unwrap();
    state.config.gravity = 1000;
    state.config.epsilon_squared = 0;
    state.config.theta = 900;
    state.config.frame_time_dt_mod = 1000;
    state.particles.push(particle_at(10, 500, 1));
    state.particles.push(particle_at(900, 499, 10_000));
    state.particles.push(particle_at(900, 501, 10_000));
    state.update_barnes_hut(1000);
    assert!(state.particles[0].velocity.x > 0);
}

#[test]
fn accelerations_reports_one_entry_per_particle() {
    let mut state = two_body_state();
    state.quadtree.construct_tree(&state.particles);
    let bh = aggregate(&state.quadtree, &state.particles);
    let accels = state.accelerations(&bh);
    assert_eq!(accels.len(), 2);
    assert_eq!(accels[0], Vec2::new(20, 0));
    assert_eq!(accels[1], Vec2::new(-10, 0));
}

#[test]
fn many_points_conserve_mass_and_recall() {
    // a denser set: the root aggregate is still the exact total, and a
    // full-region query still reports every index once
    let mut tree = QuadTree::build(2, world(0, 0, 512, 512)).unwrap();
    let mut items = Vec::new();
    let mut expected_mass: i128 = 0;
    for k in 0..200i128 {
        let m = 1 + (k * k) % 37;
        expected_mass += m;
        items.push(particle_at((k * 89) % 509, (k * 57) % 503, m));
    }
    tree.construct_tree(&items);
    let bh = aggregate(&tree, &items);
    assert_eq!(bh.barnes_hut_data[0].unwrap().mass, expected_mass);

    let mut hits = tree.query_range(&world(0, 0, 512, 512));
    hits.sort();
    let expected: Vec<usize> = (0..200).collect();
    assert_eq!(hits, expected);
}

#[test]
fn particle_update_integrates_and_clears_acceleration() {
    let mut p = particle_at(100, 200, 5);
    p.velocity = Vec2::new(30, -40);
    p.acceleration = Vec2::new(2000, 1000);
    // dt of one time unit: x += 30 + (2000/2), y += -40 + (1000/2)
    p.update(1000);
    assert_eq!(p.position, Vec2::new(100 + 30 + 1000, 200 - 40 + 500));
    assert_eq!(p.velocity, Vec2::new(30 + 2000, -40 + 1000));
    assert_eq!(p.acceleration, Vec2::new(0, 0));
}

#[test]
fn constrain_wraps_to_the_opposite_edge() {
    let bounds = world(0, 0, 100, 100);
    let mut p = particle_at(0, 0, 1);
    p.position = Vec2::new(105, 50);
    p.constrain(&bounds);
    assert_eq!(p.position, Vec2::new(0, 50));
    p.position = Vec2::new(-3, 50);
    p.constrain(&bounds);
    assert_eq!(p.position, Vec2::new(100, 50));
    p.position = Vec2::new(50, 101);
    p.constrain(&bounds);
    assert_eq!(p.position, Vec2::new(50, 0));
    p.position = Vec2::new(60, 70);
    p.constrain(&bounds);
    assert_eq!(p.position, Vec2::new(60, 70));
}

#[test]
fn state_build_rejects_an_oversized_world() {
    assert!(State::build(-1, 100).is_err());
    assert!(State::build(100, 100).is_ok());
}

#[test]
fn update_dimensions_reroots_the_index() {
    let mut state = State::build(100, 100).unwrap();
    state.update_dimensions(640, 480);
    assert_eq!(state.dimensions.max, Vec2::new(640, 480));
    assert_eq!(state.quadtree.root_region().max, Vec2::new(640, 480));
}

#[test]
fn query_tree_reports_the_neighbourhood() {
    let mut state = State::build(100, 100).unwrap();
    state.particles.push(particle_at(10, 10, 1));
    state.particles.push(particle_at(90, 90, 1));
    state.quadtree.construct_tree(&state.particles);
    let near = State::query_tree(&state.quadtree, Vec2::new(12, 12), 20);
    assert!(near.contains(&0));
    assert!(!near.contains(&1));
}
