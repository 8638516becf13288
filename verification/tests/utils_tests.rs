//! Unit tests for the geometry and the integer helpers.

use quadtree::arith::isqrt;
use quadtree::state::Particle;
use quadtree::utils::mouse_to_screen;
use quadtree::utils::BoundingBox;
use quadtree::utils::Vec2;

fn world(x0: i128, y0: i128, x1: i128, y1: i128) -> BoundingBox {
    BoundingBox::build(Vec2::new(x0, y0), Vec2::new(x1, y1))
}

#[test]
fn contains_is_min_inclusive_max_exclusive() {
    let b = world(0, 0, 100, 100);
    assert!(b.contains(Vec2::new(0, 0)));
    assert!(b.contains(Vec2::new(99, 99)));
    assert!(!b.contains(Vec2::new(100, 50)));
    assert!(!b.contains(Vec2::new(50, 100)));
    assert!(!b.contains(Vec2::new(-1, 50)));
}

#[test]
fn overlap_is_consistent_with_containment() {
    let a = world(0, 0, 50, 50);
    assert!(a.overlaps(&world(25, 25, 75, 75)));
    assert!(!a.overlaps(&world(60, 60, 90, 90)));
    // the test is strict against the other's min edge and inclusive
    // against its max edge, matching the half-open containment convention
    assert!(!a.overlaps(&world(50, 0, 90, 50)));
    assert!(a.overlaps(&world(-40, 0, 0, 50)));
}

#[test]
fn split_quadrants_partition_the_parent() {
    let b = world(0, 0, 100, 100);
    let quads = b.split_quadrants();
    // the fixed order: upper-right, lower-left-of-centre, upper-left,
    // lower-right, splitting at (50, 50)
    assert_eq!(quads[0], world(50, 0, 100, 50));
    assert_eq!(quads[1], world(0, 0, 50, 50));
    assert_eq!(quads[2], world(0, 50, 50, 100));
    assert_eq!(quads[3], world(50, 50, 100, 100));
    // every point of the parent lies in exactly one quadrant
    for &(x, y) in [(0, 0), (49, 49), (50, 50), (99, 0), (0, 99), (50, 49), (49, 50)].iter() {
        let p = Vec2::new(x, y);
        let hits = quads.iter().filter(|q| q.contains(p)).count();
        assert_eq!(hits, 1);
    }
}

#[test]
fn odd_sized_boxes_split_at_the_floor_midpoint() {
    let b = world(0, 0, 5, 3);
    let quads = b.split_quadrants();
    assert_eq!(quads[1], world(0, 0, 2, 1));
    assert_eq!(quads[3], world(2, 1, 5, 3));
}

#[test]
fn dimensions_and_center() {
    let b = world(10, 20, 110, 50);
    assert_eq!(b.width(), 100);
    assert_eq!(b.height(), 30);
    assert_eq!(b.max_dimension(), 100);
    assert_eq!(b.center(), Vec2::new(60, 35));
}

#[test]
fn mouse_coordinates_flip_vertically() {
    let dims = world(0, 0, 800, 600);
    assert_eq!(mouse_to_screen(100, 30, &dims), Vec2::new(100, 570));
}

#[test]
fn isqrt_exact_values() {
    assert_eq!(isqrt(0), 0);
    assert_eq!(isqrt(1), 1);
    assert_eq!(isqrt(15), 3);
    assert_eq!(isqrt(16), 4);
    assert_eq!(isqrt(99), 9);
    assert_eq!(isqrt(100), 10);
    assert_eq!(isqrt(u128::MAX), (1u128 << 64) - 1);
}

#[test]
fn particle_new_starts_at_rest_acceleration() {
    let p = Particle::new(Vec2::new(3, 4), Vec2::new(5, 6), 7);
    assert_eq!(p.position, Vec2::new(3, 4));
    assert_eq!(p.velocity, Vec2::new(5, 6));
    assert_eq!(p.acceleration, Vec2::new(0, 0));
    assert_eq!(p.mass, 7);
}
