//! Scenario tests for the spatial index: construction, splitting, queries,
//! the silent-drop rule, the coincident-point policy, and rebuild
//! determinism.

use quadtree::quadtree::QuadTree;
use quadtree::quadtree::QuadTreeError;
use quadtree::state::Particle;
use quadtree::utils::BoundingBox;
use quadtree::utils::Vec2;

fn world(x0: i128, y0: i128, x1: i128, y1: i128) -> BoundingBox {
    BoundingBox::build(Vec2::new(x0, y0), Vec2::new(x1, y1))
}

fn particle_at(x: i128, y: i128, mass: i128) -> Particle {
    Particle::new(Vec2::new(x, y), Vec2::new(0, 0), mass)
}

fn sorted(mut v: Vec<usize>) -> Vec<usize> {
    v.sort();
    v
}

#[test]
fn build_rejects_zero_capacity() {
    let r = QuadTree::build(0, world(0, 0, 100, 100));
    assert_eq!(r.unwrap_err(), QuadTreeError::InvalidCapacity);
}

#[test]
fn build_rejects_malformed_boundary() {
    let r = QuadTree::build(1, world(50, 0, 10, 100));
    assert_eq!(r.unwrap_err(), QuadTreeError::InvalidBoundary);
    let r = QuadTree::build(1, world(-5, 0, 10, 100));
    assert_eq!(r.unwrap_err(), QuadTreeError::InvalidBoundary);
}

#[test]
fn four_spread_points_split_once_into_four_leaves() {
    // capacity 1, four points in distinct quadrants: exactly one split
    let mut tree = QuadTree::build(1, world(0, 0, 100, 100)).unwrap();
    let items = vec![
        particle_at(10, 10, 1),
        particle_at(90, 10, 1),
        particle_at(10, 90, 1),
        particle_at(90, 90, 1),
    ];
    tree.construct_tree(&items);

    // one root plus exactly four children, no further subdivision
    assert_eq!(tree.nodes.len(), 5);
    assert_eq!(tree.nodes[0].leaves, Some(1));
    for child in 1..5 {
        assert!(tree.nodes[child].leaves.is_none());
        let head = tree.nodes[child].data_head.expect("each child holds one point");
        assert_eq!(tree.node_pointers[head].len(), 1);
    }
    // fixed quadrant order: upper-right, lower-left, upper-left, lower-right
    // with y treated as the second axis (split at the centre (50, 50))
    let bin_of = |node: usize| tree.node_pointers[tree.nodes[node].data_head.unwrap()].clone();
    assert_eq!(bin_of(1), vec![1]); // (90, 10): x >= 50, y < 50
    assert_eq!(bin_of(2), vec![0]); // (10, 10): x < 50, y < 50
    assert_eq!(bin_of(3), vec![2]); // (10, 90): x < 50, y >= 50
    assert_eq!(bin_of(4), vec![3]); // (90, 90): x >= 50, y >= 50
}

#[test]
fn query_outside_root_is_empty() {
    let mut tree = QuadTree::build(1, world(0, 0, 100, 100)).unwrap();
    let items = vec![particle_at(10, 10, 1), particle_at(90, 90, 1)];
    tree.construct_tree(&items);
    let hits = tree.query_range(&world(200, 200, 300, 300));
    assert!(hits.is_empty());
}

#[test]
fn query_covering_root_returns_every_index() {
    let mut tree = QuadTree::build(2, world(0, 0, 100, 100)).unwrap();
    let items = vec![
        particle_at(10, 10, 1),
        particle_at(90, 10, 1),
        particle_at(10, 90, 1),
        particle_at(90, 90, 1),
        particle_at(50, 50, 1),
        particle_at(30, 70, 1),
        particle_at(71, 33, 1),
    ];
    tree.construct_tree(&items);
    let hits = sorted(tree.query_range(&world(0, 0, 100, 100)));
    assert_eq!(hits, vec![0, 1, 2, 3, 4, 5, 6]);
}

#[test]
fn query_range_prunes_but_never_misses() {
    let mut tree = QuadTree::build(1, world(0, 0, 100, 100)).unwrap();
    let items = vec![particle_at(10, 10, 1), particle_at(90, 90, 1), particle_at(12, 14, 1)];
    tree.construct_tree(&items);
    // a small box around the lower-left cluster must report both of its
    // points; the index may also report near neighbours, never fewer
    let hits = sorted(tree.query_range(&world(0, 0, 25, 25)));
    assert!(hits.contains(&0));
    assert!(hits.contains(&2));
    assert!(!hits.contains(&1));
}

#[test]
fn point_on_max_edge_is_silently_dropped() {
    // half-open cells: a point exactly on the max boundary belongs to no
    // node and is dropped, a point on the min boundary is kept
    let mut tree = QuadTree::build(1, world(0, 0, 100, 100)).unwrap();
    let items = vec![particle_at(100, 100, 1), particle_at(0, 0, 1), particle_at(100, 50, 1)];
    tree.construct_tree(&items);
    let hits = sorted(tree.query_range(&world(0, 0, 100, 100)));
    assert_eq!(hits, vec![1]);
}

#[test]
fn coincident_points_pile_up_in_one_unit_cell() {
    // more coincident points than the capacity: splitting cannot separate
    // them, so construction must terminate with one over-full unit cell
    let mut tree = QuadTree::build(1, world(0, 0, 128, 128)).unwrap();
    let items = vec![
        particle_at(37, 41, 1),
        particle_at(37, 41, 2),
        particle_at(37, 41, 3),
    ];
    tree.construct_tree(&items);
    let hits = sorted(tree.query_range(&world(0, 0, 128, 128)));
    assert_eq!(hits, vec![0, 1, 2]);
    // the bin holding them sits in a cell too small to split further
    let mut found = false;
    for node in &tree.nodes {
        if let Some(head) = node.data_head {
            if tree.node_pointers[head].len() == 3 {
                let w = node.boundary.max.x - node.boundary.min.x;
                let h = node.boundary.max.y - node.boundary.min.y;
                assert!(w <= 1 && h <= 1);
                found = true;
            } else {
                assert!(tree.node_pointers[head].len() <= 1);
            }
        }
    }
    assert!(found);
}

#[test]
fn capacity_respected_in_splittable_cells() {
    let mut tree = QuadTree::build(3, world(0, 0, 1000, 1000)).unwrap();
    let mut items = Vec::new();
    for k in 0..40 {
        items.push(particle_at(13 * k % 997, 29 * k % 991, 1));
    }
    tree.construct_tree(&items);
    for node in &tree.nodes {
        if let Some(head) = node.data_head {
            let w = node.boundary.max.x - node.boundary.min.x;
            let h = node.boundary.max.y - node.boundary.min.y;
            if w >= 2 || h >= 2 {
                assert!(tree.node_pointers[head].len() <= 3);
            }
        }
    }
}

#[test]
fn rebuild_twice_is_structurally_identical() {
    let mut tree = QuadTree::build(2, world(0, 0, 100, 100)).unwrap();
    let items = vec![
        particle_at(10, 10, 1),
        particle_at(90, 10, 1),
        particle_at(10, 90, 1),
        particle_at(90, 90, 1),
        particle_at(47, 53, 1),
    ];
    tree.construct_tree(&items);
    let nodes_first = tree.nodes.clone();
    let bins_first = tree.node_pointers.clone();
    tree.construct_tree(&items);
    assert_eq!(tree.nodes, nodes_first);
    assert_eq!(tree.node_pointers, bins_first);
}

#[test]
fn clear_tree_keeps_only_an_empty_root() {
    let mut tree = QuadTree::build(1, world(0, 0, 100, 100)).unwrap();
    let items = vec![particle_at(10, 10, 1), particle_at(90, 90, 1)];
    tree.construct_tree(&items);
    assert!(tree.nodes.len() > 1);
    tree.clear_tree();
    assert_eq!(tree.nodes.len(), 1);
    assert!(tree.nodes[0].leaves.is_none());
    assert!(tree.nodes[0].data_head.is_none());
    assert_eq!(tree.root_region(), world(0, 0, 100, 100));
}

#[test]
fn update_root_region_replaces_the_boundary() {
    let mut tree = QuadTree::build(1, world(0, 0, 100, 100)).unwrap();
    tree.update_root_region(world(0, 0, 640, 480));
    assert_eq!(tree.root_region(), world(0, 0, 640, 480));
    assert_eq!(tree.nodes.len(), 1);
}
