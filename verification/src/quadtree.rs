//! The spatial index: an arena of quadtree nodes addressed by integer
//! handles. A node is a *stem* (four contiguous children, no data), a *leaf*
//! with a bin of point indices, or empty. The tree is rebuilt from scratch
//! from the current point set; a leaf that exceeds its capacity is split into
//! quadrants, except that a unit cell (which only coincident points share)
//! absorbs any number of points rather than splitting forever.

use vstd::multiset::Multiset;
use vstd::prelude::*;

use crate::utils::box_wf;
use crate::utils::contains_spec;
use crate::utils::is_quadrant;
use crate::utils::lemma_point_in_both_overlaps;
use crate::utils::lemma_quadrant_partition;
use crate::utils::lemma_quadrant_wf;
use crate::utils::max_dim_spec;
use crate::utils::overlaps_spec;
use crate::utils::splittable_spec;
use crate::utils::BoundingBox;
use crate::utils::Vec2;
use crate::utils::COORD_LIMIT;

verus! {

/// The arena index of the root node.
pub const ROOT_INDEX: usize = 0;

/// Number of children of every stem: it is a 'quad'-tree.
pub const STEM_LEAF_COUNT: usize = 4;

/// The one capability the index needs of an item: a planar position.
pub trait PositionPlanar: Sized {
    spec fn pos_spec(&self) -> Vec2;

    fn position(&self) -> (v: Vec2)
        ensures
            v == self.pos_spec(),
    ;
}

/// The positions of a sequence of point-like items.
pub open spec fn positions_of<T: PositionPlanar>(items: Seq<T>) -> Seq<Vec2> {
    items.map_values(|t: T| t.pos_spec())
}

#[derive(Clone, Copy, Debug, PartialEq)]
pub struct QuadTreeNode {
    /// The region this node covers.
    pub boundary: BoundingBox,
    /// The first of four contiguous child indices, if this node is a stem.
    pub leaves: Option<usize>,
    /// Index into the bin store where this leaf's point indices live.
    pub data_head: Option<usize>,
}

impl QuadTreeNode {
    pub fn build(boundary: BoundingBox) -> (n: QuadTreeNode)
        ensures
            n.boundary == boundary,
            n.leaves is None,
            n.data_head is None,
    {
        QuadTreeNode { boundary, leaves: None, data_head: None }
    }
}

/// Index-arena quadtree: nodes in one growable array, bins of point indices
/// in another, both addressed by plain integers.
#[derive(Debug)]
pub struct QuadTree {
    /// All nodes of the tree; the root sits at `ROOT_INDEX`.
    pub nodes: Vec<QuadTreeNode>,
    /// One bin of item indices for each leaf that holds data.
    pub node_pointers: Vec<Vec<usize>>,
    /// Largest number of items a splittable leaf may keep.
    pub leaf_capacity: usize,
}

/// Rejected configurations for `QuadTree::build`.
#[derive(Clone, Copy, Debug, PartialEq, Eq)]
pub enum QuadTreeError {
    /// `leaf_capacity` was zero.
    InvalidCapacity,
    /// The root boundary was not a well-formed box.
    InvalidBoundary,
}

// ---------------------------------------------------------------------------
// Specification layer
// ---------------------------------------------------------------------------

/// The node at `i` is a stem (it has children).
pub open spec fn stem_at(t: QuadTree, i: int) -> bool {
    t.nodes@[i].leaves is Some
}

/// The index of stem `i`'s first child.
pub open spec fn first_child(t: QuadTree, i: int) -> int {
    t.nodes@[i].leaves->Some_0 as int
}

/// `j` is one of the four children of stem `s`.
pub open spec fn child_of(t: QuadTree, s: int, j: int) -> bool {
    &&& 0 <= s < t.nodes@.len()
    &&& stem_at(t, s)
    &&& first_child(t, s) <= j < first_child(t, s) + 4
}

/// The bin of item indices a node holds directly (empty for stems and
/// data-free leaves).
pub open spec fn bin_seq(t: QuadTree, i: int) -> Seq<usize> {
    match t.nodes@[i].data_head {
        Some(d) => t.node_pointers@[d as int]@,
        None => Seq::empty(),
    }
}

/// Everything stored in the subtree rooted at `i`, as a multiset of item
/// indices.
pub open spec fn subtree_bins(t: QuadTree, i: int) -> Multiset<usize>
    decreases t.nodes@.len() - i,
{
    if 0 <= i < t.nodes@.len() {
        let own = bin_seq(t, i).to_multiset();
        match t.nodes@[i].leaves {
            Some(l) => {
                let l = l as int;
                if i < l && l + 4 <= t.nodes@.len() {
                    own.add(subtree_bins(t, l)).add(subtree_bins(t, l + 1)).add(
                        subtree_bins(t, l + 2),
                    ).add(subtree_bins(t, l + 3))
                } else {
                    own
                }
            },
            None => own,
        }
    } else {
        Multiset::empty()
    }
}

/// `j` is a node of the subtree rooted at `i`.
pub open spec fn in_subtree(t: QuadTree, i: int, j: int) -> bool
    decreases t.nodes@.len() - i,
{
    if 0 <= i < t.nodes@.len() {
        i == j || (match t.nodes@[i].leaves {
            Some(l) => {
                let l = l as int;
                if i < l && l + 4 <= t.nodes@.len() {
                    in_subtree(t, l, j) || in_subtree(t, l + 1, j) || in_subtree(t, l + 2, j)
                        || in_subtree(t, l + 3, j)
                } else {
                    false
                }
            },
            None => false,
        })
    } else {
        false
    }
}

/// Local shape of one node: a well-formed boundary; a stem has four in-range
/// children covering its quadrants, no data, and a splittable cell; a data
/// head points into the bin store.
pub open spec fn node_wf(t: QuadTree, i: int) -> bool {
    let n = t.nodes@[i];
    &&& box_wf(n.boundary)
    &&& match n.leaves {
        Some(l) => {
            let l = l as int;
            &&& i < l
            &&& l + 4 <= t.nodes@.len()
            &&& n.data_head is None
            &&& splittable_spec(n.boundary)
            &&& forall|k: int|
                0 <= k < 4 ==> is_quadrant(n.boundary, k, #[trigger] t.nodes@[l + k].boundary)
        },
        None => true,
    }
    &&& match n.data_head {
        Some(d) => d < t.node_pointers@.len(),
        None => true,
    }
}

/// Global shape: every node locally well formed, the child ranges of
/// distinct stems disjoint (each node has at most one parent), and distinct
/// leaves owning distinct bins.
pub open spec fn tree_wf(t: QuadTree) -> bool {
    &&& 1 <= t.nodes@.len()
    &&& 1 <= t.leaf_capacity
    &&& forall|i: int| 0 <= i < t.nodes@.len() ==> #[trigger] node_wf(t, i)
    &&& forall|i: int, j: int|
        0 <= i < t.nodes@.len() && 0 <= j < t.nodes@.len() && i != j && #[trigger] stem_at(t, i)
            && #[trigger] stem_at(t, j) ==> (first_child(t, i) + 4 <= first_child(t, j)
            || first_child(t, j) + 4 <= first_child(t, i))
    &&& forall|i: int, j: int|
        0 <= i < t.nodes@.len() && 0 <= j < t.nodes@.len() && i != j
            && #[trigger] t.nodes@[i].data_head is Some && #[trigger] t.nodes@[j].data_head is Some
            ==> t.nodes@[i].data_head != t.nodes@[j].data_head
}

/// Every stored index points at a real item whose position lies inside the
/// boundary of the leaf holding it.
pub open spec fn linked_wf(t: QuadTree, pts: Seq<Vec2>) -> bool {
    forall|i: int, k: int|
        0 <= i < t.nodes@.len() && 0 <= k < bin_seq(t, i).len() ==> {
            &&& (#[trigger] bin_seq(t, i)[k]) < pts.len()
            &&& contains_spec(t.nodes@[i].boundary, pts[bin_seq(t, i)[k] as int])
        }
}

/// The overflow policy: a bin exceeds the leaf capacity only in a cell too
/// small to split (where only coincident points can pile up).
pub open spec fn capacity_wf(t: QuadTree) -> bool {
    forall|i: int|
        0 <= i < t.nodes@.len() && splittable_spec(t.nodes@[i].boundary) ==> (#[trigger] bin_seq(
            t,
            i,
        )).len() <= t.leaf_capacity
}

/// The full invariant construction maintains.
pub open spec fn tree_inv(t: QuadTree, pts: Seq<Vec2>) -> bool {
    &&& tree_wf(t)
    &&& linked_wf(t, pts)
    &&& capacity_wf(t)
}

/// The multiset of indices of the first `n` points that lie inside `b`:
/// what bulk construction stores.
pub open spec fn inserted_upto(pts: Seq<Vec2>, b: BoundingBox, n: int) -> Multiset<usize>
    decreases n,
{
    if n <= 0 {
        Multiset::empty()
    } else {
        let rest = inserted_upto(pts, b, n - 1);
        if contains_spec(b, pts[n - 1]) {
            rest.insert((n - 1) as usize)
        } else {
            rest
        }
    }
}

/// Whichever child of stem `i` contains `pt` is a leaf with room to spare:
/// inserting `pt` under `i` cannot split anything.
pub open spec fn stem_child_has_room(t: QuadTree, i: int, pt: Vec2) -> bool {
    forall|c: int|
        first_child(t, i) <= c < first_child(t, i) + 4 && contains_spec(
            (#[trigger] t.nodes@[c]).boundary,
            pt,
        ) ==> (t.nodes@[c].leaves is None && bin_seq(t, c).len() < t.leaf_capacity)
}

/// No quadrant of node `i`'s cell holds more of the node's own bin than
/// the leaf capacity: splitting `i` will not cascade into further splits.
pub open spec fn quadrants_within_capacity(t: QuadTree, i: int, pts: Seq<Vec2>) -> bool {
    forall|k: int, q: BoundingBox|
        0 <= k < 4 && #[trigger] is_quadrant(t.nodes@[i].boundary, k, q) ==> count_contained(
            pts,
            bin_seq(t, i),
            q,
        ) <= t.leaf_capacity
}

/// How many of the indices in `s` name positions inside `b`.
pub open spec fn count_contained(pts: Seq<Vec2>, s: Seq<usize>, b: BoundingBox) -> int
    decreases s.len(),
{
    if s.len() == 0 {
        0
    } else {
        count_contained(pts, s.drop_last(), b) + (if contains_spec(b, pts[s.last() as int]) {
            1int
        } else {
            0int
        })
    }
}

/// Counting one more index raises the count by one exactly when its
/// position is inside the box.
pub proof fn lemma_count_contained_push(pts: Seq<Vec2>, s: Seq<usize>, e: usize, b: BoundingBox)
    ensures
        count_contained(pts, s.push(e), b) == count_contained(pts, s, b) + (if contains_spec(
            b,
            pts[e as int],
        ) {
            1int
        } else {
            0int
        }),
{
    assert(s.push(e).drop_last() =~= s);
    assert(s.push(e).last() == e);
}

/// A prefix never contains more than the whole sequence.
pub proof fn lemma_count_contained_prefix(pts: Seq<Vec2>, s: Seq<usize>, m: int, b: BoundingBox)
    requires
        0 <= m <= s.len(),
    ensures
        count_contained(pts, s.take(m), b) <= count_contained(pts, s, b),
        0 <= count_contained(pts, s.take(m), b),
    decreases s.len() - m, s.len(),
{
    if m == s.len() {
        assert(s.take(m) =~= s);
        lemma_count_contained_nonneg(pts, s, b);
    } else {
        lemma_count_contained_prefix(pts, s, m + 1, b);
        assert(s.take(m + 1) =~= s.take(m).push(s[m]));
        lemma_count_contained_push(pts, s.take(m), s[m], b);
        lemma_count_contained_nonneg(pts, s.take(m), b);
    }
}

proof fn lemma_count_contained_nonneg(pts: Seq<Vec2>, s: Seq<usize>, b: BoundingBox)
    ensures
        0 <= count_contained(pts, s, b),
    decreases s.len(),
{
    if s.len() > 0 {
        lemma_count_contained_nonneg(pts, s.drop_last(), b);
    }
}

/// The item indices a range query reports, in traversal order: nothing from
/// a node whose boundary misses the region, all four children of a stem,
/// the whole bin of a leaf.
pub open spec fn collect_seq(t: QuadTree, i: int, region: BoundingBox) -> Seq<usize>
    decreases t.nodes@.len() - i,
{
    if 0 <= i < t.nodes@.len() {
        if !overlaps_spec(t.nodes@[i].boundary, region) {
            Seq::empty()
        } else {
            match t.nodes@[i].leaves {
                Some(l) => {
                    let l = l as int;
                    if i < l && l + 4 <= t.nodes@.len() {
                        collect_seq(t, l, region) + collect_seq(t, l + 1, region) + collect_seq(
                            t,
                            l + 2,
                            region,
                        ) + collect_seq(t, l + 3, region)
                    } else {
                        Seq::empty()
                    }
                },
                None => bin_seq(t, i),
            }
        }
    } else {
        Seq::empty()
    }
}

// ---------------------------------------------------------------------------
// Structural lemmas
// ---------------------------------------------------------------------------

/// Subtree members lie between their root and the end of the arena.
pub proof fn lemma_in_subtree_bounds(t: QuadTree, i: int, j: int)
    requires
        in_subtree(t, i, j),
    ensures
        0 <= i <= j < t.nodes@.len(),
    decreases t.nodes@.len() - i,
{
    if i != j {
        let l = first_child(t, i);
        if in_subtree(t, l, j) {
            lemma_in_subtree_bounds(t, l, j);
        } else if in_subtree(t, l + 1, j) {
            lemma_in_subtree_bounds(t, l + 1, j);
        } else if in_subtree(t, l + 2, j) {
            lemma_in_subtree_bounds(t, l + 2, j);
        } else {
            lemma_in_subtree_bounds(t, l + 3, j);
        }
    }
}

/// Whatever lies under a child also lies under the parent stem.
pub proof fn lemma_child_subtree_sub(t: QuadTree, i: int, k: int, j: int)
    requires
        0 <= i < t.nodes@.len(),
        stem_at(t, i),
        i < first_child(t, i),
        first_child(t, i) + 4 <= t.nodes@.len(),
        0 <= k < 4,
        in_subtree(t, first_child(t, i) + k, j),
    ensures
        in_subtree(t, i, j),
{
}

/// Every proper member of a subtree is a child of some stem of the subtree.
pub proof fn lemma_parent_witness(t: QuadTree, i: int, j: int)
    requires
        tree_wf(t),
        in_subtree(t, i, j),
        i != j,
    ensures
        exists|s: int| in_subtree(t, i, s) && #[trigger] child_of(t, s, j),
    decreases t.nodes@.len() - i,
{
    lemma_in_subtree_bounds(t, i, j);
    let l = first_child(t, i);
    assert(node_wf(t, i));
    assert(in_subtree(t, l, j) || in_subtree(t, l + 1, j) || in_subtree(t, l + 2, j)
        || in_subtree(t, l + 3, j));
    let k: int = if in_subtree(t, l, j) {
        0
    } else if in_subtree(t, l + 1, j) {
        1
    } else if in_subtree(t, l + 2, j) {
        2
    } else {
        3
    };
    assert(0 <= k < 4 && in_subtree(t, l + k, j));
    if l + k == j {
        assert(child_of(t, i, j));
        assert(in_subtree(t, i, i));
    } else {
        lemma_parent_witness(t, l + k, j);
        let s = choose|s: int| in_subtree(t, l + k, s) && #[trigger] child_of(t, s, j);
        lemma_child_subtree_sub(t, i, k, s);
    }
}

/// Subtrees of two distinct children of one stem share no node: each node
/// has at most one parent, so the descent paths cannot meet.
pub proof fn lemma_sibling_subtrees_disjoint(t: QuadTree, s: int, a: int, b: int, j: int)
    requires
        tree_wf(t),
        child_of(t, s, a),
        child_of(t, s, b),
        a != b,
    ensures
        !(in_subtree(t, a, j) && in_subtree(t, b, j)),
    decreases
            if j >= 0 {
                j
            } else {
                0
            },
{
    if in_subtree(t, a, j) && in_subtree(t, b, j) {
        assert(node_wf(t, s));
        lemma_in_subtree_bounds(t, a, j);
        lemma_in_subtree_bounds(t, b, j);
        if j == a {
            // a is a proper member of b's subtree; its parent stem there must
            // be s itself (one parent), which would put s strictly below b.
            lemma_parent_witness(t, b, a);
            let s2 = choose|s2: int| in_subtree(t, b, s2) && #[trigger] child_of(t, s2, a);
            lemma_in_subtree_bounds(t, b, s2);
            assert(s2 == s);
            assert(s >= b);
            assert(s < first_child(t, s));
            assert(false);
        } else if j == b {
            lemma_parent_witness(t, a, b);
            let s2 = choose|s2: int| in_subtree(t, a, s2) && #[trigger] child_of(t, s2, b);
            lemma_in_subtree_bounds(t, a, s2);
            assert(s2 == s);
            assert(s >= a);
            assert(s < first_child(t, s));
            assert(false);
        } else {
            lemma_parent_witness(t, a, j);
            lemma_parent_witness(t, b, j);
            let sa = choose|sa: int| in_subtree(t, a, sa) && #[trigger] child_of(t, sa, j);
            let sb = choose|sb: int| in_subtree(t, b, sb) && #[trigger] child_of(t, sb, j);
            lemma_in_subtree_bounds(t, a, sa);
            lemma_in_subtree_bounds(t, b, sb);
            assert(sa == sb);
            assert(node_wf(t, sa));
            assert(sa < first_child(t, sa));
            lemma_sibling_subtrees_disjoint(t, s, a, b, sa);
            assert(false);
        }
    }
}

/// Subtree membership depends only on the `leaves` links of the subtree's
/// own nodes: a tree that leaves them unchanged (and may have grown) has the
/// same subtree.
pub proof fn lemma_in_subtree_congruence(t0: QuadTree, t1: QuadTree, i: int)
    requires
        tree_wf(t0),
        0 <= i < t0.nodes@.len(),
        t0.nodes@.len() <= t1.nodes@.len(),
        forall|j: int|
            in_subtree(t0, i, j) ==> t1.nodes@[j].leaves == #[trigger] t0.nodes@[j].leaves,
    ensures
        forall|j: int| in_subtree(t1, i, j) <==> #[trigger] in_subtree(t0, i, j),
    decreases t0.nodes@.len() - i,
{
    assert(node_wf(t0, i));
    assert(in_subtree(t0, i, i));
    if stem_at(t0, i) {
        let l = first_child(t0, i);
        lemma_subtree_hyp_child(t0, t1, i, 0);
        lemma_subtree_hyp_child(t0, t1, i, 1);
        lemma_subtree_hyp_child(t0, t1, i, 2);
        lemma_subtree_hyp_child(t0, t1, i, 3);
        lemma_in_subtree_congruence(t0, t1, l);
        lemma_in_subtree_congruence(t0, t1, l + 1);
        lemma_in_subtree_congruence(t0, t1, l + 2);
        lemma_in_subtree_congruence(t0, t1, l + 3);
        assert forall|j: int| in_subtree(t1, i, j) <==> #[trigger] in_subtree(t0, i, j) by {
            assert(in_subtree(t1, l, j) <==> in_subtree(t0, l, j));
            assert(in_subtree(t1, l + 1, j) <==> in_subtree(t0, l + 1, j));
            assert(in_subtree(t1, l + 2, j) <==> in_subtree(t0, l + 2, j));
            assert(in_subtree(t1, l + 3, j) <==> in_subtree(t0, l + 3, j));
        }
    } else {
        assert forall|j: int| in_subtree(t1, i, j) <==> #[trigger] in_subtree(t0, i, j) by {
            assert(t1.nodes@[i].leaves == t0.nodes@[i].leaves);
        }
    }
}

/// The congruence hypotheses restrict from a stem to each of its children.
proof fn lemma_subtree_hyp_child(t0: QuadTree, t1: QuadTree, i: int, k: int)
    requires
        0 <= i < t0.nodes@.len(),
        stem_at(t0, i),
        i < first_child(t0, i),
        first_child(t0, i) + 4 <= t0.nodes@.len(),
        0 <= k < 4,
        forall|j: int|
            in_subtree(t0, i, j) ==> t1.nodes@[j].leaves == #[trigger] t0.nodes@[j].leaves,
    ensures
        forall|j: int|
            in_subtree(t0, first_child(t0, i) + k, j) ==> t1.nodes@[j].leaves
                == #[trigger] t0.nodes@[j].leaves,
{
    assert forall|j: int| in_subtree(t0, first_child(t0, i) + k, j) implies t1.nodes@[j].leaves
        == #[trigger] t0.nodes@[j].leaves by {
        lemma_child_subtree_sub(t0, i, k, j);
    }
}

/// What the four children of `first` collect, children `0..k` concatenated.
pub open spec fn collect_children(t: QuadTree, first: int, region: BoundingBox, k: int) -> Seq<
    usize,
>
    decreases k,
{
    if k <= 0 {
        Seq::empty()
    } else {
        collect_children(t, first, region, k - 1) + collect_seq(t, first + (k - 1), region)
    }
}

/// As above, together with the bins of the subtree's nodes.
proof fn lemma_subtree_hyp_child_bins(t0: QuadTree, t1: QuadTree, i: int, k: int)
    requires
        0 <= i < t0.nodes@.len(),
        stem_at(t0, i),
        i < first_child(t0, i),
        first_child(t0, i) + 4 <= t0.nodes@.len(),
        0 <= k < 4,
        forall|j: int| #[trigger] in_subtree(t0, i, j) ==> bin_seq(t1, j) == bin_seq(t0, j),
    ensures
        forall|j: int| #[trigger]
            in_subtree(t0, first_child(t0, i) + k, j) ==> bin_seq(t1, j) == bin_seq(t0, j),
{
    assert forall|j: int| #[trigger] in_subtree(t0, first_child(t0, i) + k, j) implies bin_seq(
        t1,
        j,
    ) == bin_seq(t0, j) by {
        lemma_child_subtree_sub(t0, i, k, j);
    }
}

/// Subtree contents depend only on the subtree's own nodes and bins.
pub proof fn lemma_subtree_bins_congruence(t0: QuadTree, t1: QuadTree, i: int)
    requires
        tree_wf(t0),
        0 <= i < t0.nodes@.len(),
        t0.nodes@.len() <= t1.nodes@.len(),
        forall|j: int|
            in_subtree(t0, i, j) ==> t1.nodes@[j].leaves == #[trigger] t0.nodes@[j].leaves,
        forall|j: int| #[trigger]
            in_subtree(t0, i, j) ==> bin_seq(t1, j) == bin_seq(t0, j),
    ensures
        subtree_bins(t1, i) == subtree_bins(t0, i),
    decreases t0.nodes@.len() - i,
{
    assert(node_wf(t0, i));
    assert(in_subtree(t0, i, i));
    assert(bin_seq(t1, i) == bin_seq(t0, i));
    if stem_at(t0, i) {
        let l = first_child(t0, i);
        lemma_subtree_hyp_child(t0, t1, i, 0);
        lemma_subtree_hyp_child(t0, t1, i, 1);
        lemma_subtree_hyp_child(t0, t1, i, 2);
        lemma_subtree_hyp_child(t0, t1, i, 3);
        lemma_subtree_hyp_child_bins(t0, t1, i, 0);
        lemma_subtree_hyp_child_bins(t0, t1, i, 1);
        lemma_subtree_hyp_child_bins(t0, t1, i, 2);
        lemma_subtree_hyp_child_bins(t0, t1, i, 3);
        lemma_subtree_bins_congruence(t0, t1, l);
        lemma_subtree_bins_congruence(t0, t1, l + 1);
        lemma_subtree_bins_congruence(t0, t1, l + 2);
        lemma_subtree_bins_congruence(t0, t1, l + 3);
    }
}

/// The capacity law: once construction is done, every leaf's bin is within
/// the leaf capacity — except in a cell too small to split, where only
/// coincident points can pile up.
pub proof fn lemma_capacity_policy(t: QuadTree, pts: Seq<Vec2>, i: int)
    requires
        tree_inv(t, pts),
        0 <= i < t.nodes@.len(),
        splittable_spec(t.nodes@[i].boundary),
    ensures
        bin_seq(t, i).len() <= t.leaf_capacity,
{
}

/// After an insertion into child `a` of stem `s`, every sibling subtree `b`
/// is untouched: its membership and contents are exactly as before.
proof fn lemma_sibling_preserved(tk: QuadTree, tk1: QuadTree, s: int, a: int, b: int)
    requires
        tree_wf(tk),
        child_of(tk, s, a),
        child_of(tk, s, b),
        a != b,
        tk.nodes@.len() <= tk1.nodes@.len(),
        forall|j: int|
            0 <= j < tk.nodes@.len() && !in_subtree(tk, a, j) ==> tk1.nodes@[j] == #[trigger] tk.nodes@[j]
                && bin_seq(tk1, j) == bin_seq(tk, j),
    ensures
        forall|j: int| in_subtree(tk1, b, j) <==> #[trigger] in_subtree(tk, b, j),
        subtree_bins(tk1, b) == subtree_bins(tk, b),
{
    assert(node_wf(tk, s));
    assert forall|j: int| #[trigger] in_subtree(tk, b, j) implies (tk1.nodes@[j].leaves
        == tk.nodes@[j].leaves && bin_seq(tk1, j) == bin_seq(tk, j)) by {
        lemma_in_subtree_bounds(tk, b, j);
        lemma_sibling_subtrees_disjoint(tk, s, a, b, j);
        assert(tk1.nodes@[j] == tk.nodes@[j]);
    }
    lemma_in_subtree_congruence(tk, tk1, b);
    lemma_subtree_bins_congruence(tk, tk1, b);
}

/// Every item index stored anywhere under a node names a real point lying
/// inside that node's boundary.
pub proof fn lemma_subtree_points_inside(t: QuadTree, pts: Seq<Vec2>, i: int, e: usize)
    requires
        tree_wf(t),
        linked_wf(t, pts),
        0 <= i < t.nodes@.len(),
        subtree_bins(t, i).count(e) > 0,
    ensures
        e < pts.len(),
        contains_spec(t.nodes@[i].boundary, pts[e as int]),
    decreases t.nodes@.len() - i,
{
    broadcast use vstd::seq_lib::group_to_multiset_ensures;
    broadcast use vstd::multiset::group_multiset_axioms;

    assert(node_wf(t, i));
    let own = bin_seq(t, i);
    if own.to_multiset().count(e) > 0 {
        assert(own.contains(e));
        let k = choose|k: int| 0 <= k < own.len() && own[k] == e;
        assert(bin_seq(t, i)[k] == e);
    } else {
        assert(stem_at(t, i));
        let l = first_child(t, i);
        let k: int = if subtree_bins(t, l).count(e) > 0 {
            0
        } else if subtree_bins(t, l + 1).count(e) > 0 {
            1
        } else if subtree_bins(t, l + 2).count(e) > 0 {
            2
        } else {
            3
        };
        assert(subtree_bins(t, l + k).count(e) > 0);
        lemma_subtree_points_inside(t, pts, l + k, e);
        assert(is_quadrant(t.nodes@[i].boundary, k, t.nodes@[l + k].boundary));
        lemma_quadrant_wf(t.nodes@[i].boundary, k, t.nodes@[l + k].boundary);
    }
}

/// The recall law for range queries: a region covering a node's whole
/// boundary collects exactly what the subtree stores — at the root, a query
/// over the entire root region returns every stored item index.
pub proof fn lemma_query_recall(t: QuadTree, pts: Seq<Vec2>, region: BoundingBox, i: int)
    requires
        tree_wf(t),
        linked_wf(t, pts),
        0 <= i < t.nodes@.len(),
        forall|p: Vec2|
            contains_spec(t.nodes@[i].boundary, p) ==> #[trigger] contains_spec(region, p),
    ensures
        collect_seq(t, i, region).to_multiset() == subtree_bins(t, i),
    decreases t.nodes@.len() - i,
{
    broadcast use vstd::seq_lib::group_to_multiset_ensures;
    broadcast use vstd::multiset::group_multiset_axioms;

    assert(node_wf(t, i));
    if !overlaps_spec(t.nodes@[i].boundary, region) {
        // an unreachable node stores nothing: any stored point would lie in
        // both the node's boundary and the region, which do overlap
        assert forall|e: usize| true implies subtree_bins(t, i).count(e) == 0 by {
            if subtree_bins(t, i).count(e) > 0 {
                lemma_subtree_points_inside(t, pts, i, e);
                lemma_point_in_both_overlaps(t.nodes@[i].boundary, region, pts[e as int]);
            }
        }
        assert(collect_seq(t, i, region).to_multiset() =~= subtree_bins(t, i));
    } else {
        match t.nodes@[i].leaves {
            Some(l) => {
                let l = l as int;
                assert forall|p: Vec2| contains_spec(t.nodes@[l + 0].boundary, p)
                    implies #[trigger] contains_spec(region, p) by {
                    lemma_quadrant_wf(t.nodes@[i].boundary, 0, t.nodes@[l + 0].boundary);
                }
                assert forall|p: Vec2| contains_spec(t.nodes@[l + 1].boundary, p)
                    implies #[trigger] contains_spec(region, p) by {
                    lemma_quadrant_wf(t.nodes@[i].boundary, 1, t.nodes@[l + 1].boundary);
                }
                assert forall|p: Vec2| contains_spec(t.nodes@[l + 2].boundary, p)
                    implies #[trigger] contains_spec(region, p) by {
                    lemma_quadrant_wf(t.nodes@[i].boundary, 2, t.nodes@[l + 2].boundary);
                }
                assert forall|p: Vec2| contains_spec(t.nodes@[l + 3].boundary, p)
                    implies #[trigger] contains_spec(region, p) by {
                    lemma_quadrant_wf(t.nodes@[i].boundary, 3, t.nodes@[l + 3].boundary);
                }
                lemma_query_recall(t, pts, region, l);
                lemma_query_recall(t, pts, region, l + 1);
                lemma_query_recall(t, pts, region, l + 2);
                lemma_query_recall(t, pts, region, l + 3);
                let c0 = collect_seq(t, l, region);
                let c1 = collect_seq(t, l + 1, region);
                let c2 = collect_seq(t, l + 2, region);
                let c3 = collect_seq(t, l + 3, region);
                vstd::seq_lib::lemma_multiset_commutative(c0, c1);
                vstd::seq_lib::lemma_multiset_commutative(c0 + c1, c2);
                vstd::seq_lib::lemma_multiset_commutative(c0 + c1 + c2, c3);
                assert(bin_seq(t, i) =~= Seq::<usize>::empty());
                assert(collect_seq(t, i, region).to_multiset() =~= subtree_bins(t, i));
            },
            None => {
                assert(collect_seq(t, i, region) == bin_seq(t, i));
            },
        }
    }
}

/// What construction stores counts each kept index exactly once.
pub proof fn lemma_inserted_upto_count(pts: Seq<Vec2>, b: BoundingBox, n: int, e: usize)
    requires
        0 <= n <= usize::MAX,
    ensures
        inserted_upto(pts, b, n).count(e) == (if (e as int) < n && contains_spec(b, pts[e as int]) {
            1nat
        } else {
            0nat
        }),
    decreases n,
{
    broadcast use vstd::multiset::group_multiset_axioms;

    if n > 0 {
        lemma_inserted_upto_count(pts, b, n - 1, e);
    }
}

/// Full recall, as sets of indices: when every point lies inside the root
/// region and the query region covers it, the query reports every point
/// index exactly once.
pub proof fn lemma_query_full_recall(
    t: QuadTree,
    pts: Seq<Vec2>,
    region: BoundingBox,
    n: int,
    e: usize,
)
    requires
        tree_wf(t),
        linked_wf(t, pts),
        0 <= n <= pts.len(),
        pts.len() <= usize::MAX,
        subtree_bins(t, 0) == inserted_upto(pts, t.nodes@[0].boundary, n),
        forall|i: int| 0 <= i < n ==> contains_spec(t.nodes@[0].boundary, #[trigger] pts[i]),
        forall|p: Vec2|
            contains_spec(t.nodes@[0].boundary, p) ==> #[trigger] contains_spec(region, p),
    ensures
        collect_seq(t, 0, region).to_multiset().count(e) == (if (e as int) < n {
            1nat
        } else {
            0nat
        }),
{
    lemma_query_recall(t, pts, region, 0);
    lemma_inserted_upto_count(pts, t.nodes@[0].boundary, n, e);
}

// ---------------------------------------------------------------------------
// Construction, clearing, accessors, range query
// ---------------------------------------------------------------------------

impl QuadTree {
    /// Creates an index with a single root leaf covering `boundary`.
    /// A zero capacity or a malformed boundary is rejected.
    pub fn build(leaf_capacity: usize, boundary: BoundingBox) -> (r: Result<
        QuadTree,
        QuadTreeError,
    >)
        ensures
            match r {
                Ok(t) => {
                    &&& leaf_capacity >= 1
                    &&& box_wf(boundary)
                    &&& tree_wf(t)
                    &&& capacity_wf(t)
                    &&& forall|pts: Seq<Vec2>| #[trigger] linked_wf(t, pts)
                    &&& t.leaf_capacity == leaf_capacity
                    &&& t.nodes@.len() == 1
                    &&& t.nodes@[0].boundary == boundary
                    &&& t.nodes@[0].leaves is None
                    &&& t.nodes@[0].data_head is None
                    &&& t.node_pointers@.len() == 0
                    &&& subtree_bins(t, 0) == Multiset::<usize>::empty()
                },
                Err(e) => {
                    &&& (leaf_capacity == 0 || !box_wf(boundary))
                    &&& (e == QuadTreeError::InvalidCapacity <==> leaf_capacity == 0)
                },
            },
    {
        if leaf_capacity == 0 {
            Err(QuadTreeError::InvalidCapacity)
        } else if !(boundary.min.x >= 0 && boundary.min.x <= boundary.max.x && boundary.max.x
            <= COORD_LIMIT && boundary.min.y >= 0 && boundary.min.y <= boundary.max.y
            && boundary.max.y <= COORD_LIMIT) {
            Err(QuadTreeError::InvalidBoundary)
        } else {
            let mut nodes: Vec<QuadTreeNode> = Vec::new();
            nodes.push(QuadTreeNode::build(boundary));
            let t = QuadTree { nodes, node_pointers: Vec::new(), leaf_capacity };
            proof {
                broadcast use vstd::seq_lib::group_to_multiset_ensures;
                broadcast use vstd::multiset::group_multiset_axioms;

                assert(node_wf(t, 0));
                assert(bin_seq(t, 0) =~= Seq::empty());
                assert(subtree_bins(t, 0) =~= Multiset::<usize>::empty());
            }
            Ok(t)
        }
    }

    /// Discards every node but the root and empties the root itself.
    pub fn clear_tree(&mut self)
        requires
            tree_wf(*old(self)),
        ensures
            tree_wf(*final(self)),
            capacity_wf(*final(self)),
            forall|pts: Seq<Vec2>| #[trigger] linked_wf(*final(self), pts),
            final(self).leaf_capacity == old(self).leaf_capacity,
            final(self).nodes@.len() == 1,
            final(self).nodes@[0].boundary == old(self).nodes@[0].boundary,
            final(self).nodes@[0].leaves is None,
            final(self).nodes@[0].data_head is None,
            final(self).node_pointers@.len() == 0,
            subtree_bins(*final(self), 0) == Multiset::<usize>::empty(),
    {
        let boundary = self.nodes[0].boundary;
        self.nodes.truncate(1);
        self.nodes[0] = QuadTreeNode::build(boundary);
        self.node_pointers.clear();
        proof {
            broadcast use vstd::seq_lib::group_to_multiset_ensures;
            broadcast use vstd::multiset::group_multiset_axioms;

            assert(node_wf(*old(self), 0));
            assert(node_wf(*self, 0));
            assert(bin_seq(*self, 0) =~= Seq::empty());
            assert(subtree_bins(*self, 0) =~= Multiset::<usize>::empty());
        }
    }

    /// The region the whole index covers.
    pub fn root_region(&self) -> (b: BoundingBox)
        requires
            tree_wf(*self),
        ensures
            b == self.nodes@[0].boundary,
    {
        self.nodes[0].boundary
    }

    /// Replaces the root region (when the world is resized) and clears the
    /// tree: the old partition no longer matches the new boundary, and the
    /// index is rebuilt from the point set each tick anyway.
    pub fn update_root_region(&mut self, region: BoundingBox)
        requires
            tree_wf(*old(self)),
            box_wf(region),
        ensures
            tree_wf(*final(self)),
            capacity_wf(*final(self)),
            forall|pts: Seq<Vec2>| #[trigger] linked_wf(*final(self), pts),
            final(self).leaf_capacity == old(self).leaf_capacity,
            final(self).nodes@.len() == 1,
            final(self).nodes@[0].boundary == region,
            final(self).nodes@[0].leaves is None,
            final(self).nodes@[0].data_head is None,
            final(self).node_pointers@.len() == 0,
            subtree_bins(*final(self), 0) == Multiset::<usize>::empty(),
    {
        self.clear_tree();
        self.nodes[0] = QuadTreeNode::build(region);
        proof {
            broadcast use vstd::seq_lib::group_to_multiset_ensures;
            broadcast use vstd::multiset::group_multiset_axioms;

            assert(node_wf(*self, 0));
            assert(bin_seq(*self, 0) =~= Seq::empty());
            assert(subtree_bins(*self, 0) =~= Multiset::<usize>::empty());
        }
    }

    /// Indices of every item stored in a node whose boundary overlaps the
    /// query region: a superset of exact membership, callers needing
    /// distance precision re-check distances themselves.
    pub fn query_range(&self, boundary: &BoundingBox) -> (output: Vec<usize>)
        requires
            tree_wf(*self),
        ensures
            output@ == collect_seq(*self, 0, *boundary),
    {
        let mut output: Vec<usize> = Vec::new();
        self.search_recursive(ROOT_INDEX, boundary, &mut output);
        output
    }

    fn search_recursive(
        &self,
        target_node_index: usize,
        boundary: &BoundingBox,
        outputs: &mut Vec<usize>,
    )
        requires
            tree_wf(*self),
            target_node_index < self.nodes@.len(),
        ensures
            final(outputs)@ == old(outputs)@ + collect_seq(
                *self,
                target_node_index as int,
                *boundary,
            ),
        decreases self.nodes@.len() - target_node_index,
    {
        let i = target_node_index;
        let node = self.nodes[i];
        if !node.boundary.overlaps(boundary) {
            proof {
                assert(outputs@ =~= old(outputs)@ + collect_seq(*self, i as int, *boundary));
            }
            return ;
        }
        proof {
            assert(node_wf(*self, i as int));
        }
        if let Some(leaf_start) = node.leaves {
            let ghost l = leaf_start as int;
            let total = self.nodes.len();
            let mut k: usize = 0;
            while k < 4
                invariant
                    tree_wf(*self),
                    i == target_node_index,
                    i < self.nodes@.len(),
                    self.nodes@[i as int].leaves == Some(leaf_start),
                    i < leaf_start,
                    l == leaf_start as int,
                    l + 4 <= self.nodes@.len(),
                    total == self.nodes@.len(),
                    k <= 4,
                    outputs@ == old(outputs)@ + collect_children(*self, l, *boundary, k as int),
                decreases 4 - k,
            {
                proof {
                    assert(collect_children(*self, l, *boundary, k + 1 as int)
                        == collect_children(*self, l, *boundary, k as int) + collect_seq(
                        *self,
                        l + k,
                        *boundary,
                    ));
                }
                self.search_recursive(leaf_start + k, boundary, outputs);
                proof {
                    assert(outputs@ =~= old(outputs)@ + collect_children(
                        *self,
                        l,
                        *boundary,
                        k + 1 as int,
                    ));
                }
                k = k + 1;
            }
            proof {
                reveal_with_fuel(collect_children, 5);
                assert(collect_seq(*self, i as int, *boundary) =~= collect_children(
                    *self,
                    l,
                    *boundary,
                    4,
                ));
                assert(outputs@ =~= old(outputs)@ + collect_seq(*self, i as int, *boundary));
            }
            return ;
        }
        if let Some(node_list_index) = node.data_head {
            outputs.extend_from_slice(self.node_pointers[node_list_index].as_slice());
            proof {
                assert(outputs@ =~= old(outputs)@ + collect_seq(*self, i as int, *boundary));
            }
        } else {
            proof {
                assert(collect_seq(*self, i as int, *boundary) =~= Seq::empty());
                assert(outputs@ =~= old(outputs)@ + collect_seq(*self, i as int, *boundary));
            }
        }
    }

    /// Clears the index, then inserts every item's index by its position.
    /// Exactly the in-boundary items end up stored, each exactly once;
    /// points outside the root region are silently dropped.
    pub fn construct_tree<T: PositionPlanar>(&mut self, items: &[T])
        requires
            tree_wf(*old(self)),
        ensures
            tree_inv(*final(self), positions_of(items@)),
            final(self).leaf_capacity == old(self).leaf_capacity,
            final(self).nodes@.len() >= 1,
            final(self).nodes@[0].boundary == old(self).nodes@[0].boundary,
            subtree_bins(*final(self), 0) == inserted_upto(
                positions_of(items@),
                old(self).nodes@[0].boundary,
                items@.len() as int,
            ),
    {
        let ghost pts = positions_of(items@);
        let ghost root_boundary = old(self).nodes@[0].boundary;
        self.clear_tree();
        let n = items.len();
        let mut index: usize = 0;
        while index < n
            invariant
                tree_inv(*self, pts),
                pts == positions_of(items@),
                pts.len() == items@.len(),
                n == items@.len(),
                index <= n,
                self.leaf_capacity == old(self).leaf_capacity,
                self.nodes@.len() >= 1,
                self.nodes@[0].boundary == root_boundary,
                root_boundary == old(self).nodes@[0].boundary,
                subtree_bins(*self, 0) == inserted_upto(pts, root_boundary, index as int),
            decreases n - index,
        {
            self.insert_recursive(ROOT_INDEX, index, items);
            index = index + 1;
        }
    }

    fn insert_recursive<T: PositionPlanar>(
        &mut self,
        target_node_index: usize,
        item_index: usize,
        items: &[T],
    )
        requires
            tree_inv(*old(self), positions_of(items@)),
            target_node_index < old(self).nodes@.len(),
            item_index < items@.len(),
        ensures
            tree_inv(*final(self), positions_of(items@)),
            final(self).leaf_capacity == old(self).leaf_capacity,
            old(self).nodes@.len() <= final(self).nodes@.len(),
            forall|j: int|
                0 <= j < old(self).nodes@.len() ==> (#[trigger] final(self).nodes@[j]).boundary
                    == old(self).nodes@[j].boundary,
            forall|j: int|
                0 <= j < old(self).nodes@.len() && (#[trigger] old(self).nodes@[j]).leaves is Some
                    ==> final(self).nodes@[j].leaves == old(self).nodes@[j].leaves,
            forall|j: int|
                #![trigger in_subtree(*old(self), target_node_index as int, j)]
                #![trigger final(self).nodes@[j], old(self).nodes@[j]]
                0 <= j < old(self).nodes@.len() && !in_subtree(
                    *old(self),
                    target_node_index as int,
                    j,
                ) ==> final(self).nodes@[j] == old(self).nodes@[j] && bin_seq(*final(self), j)
                    == bin_seq(*old(self), j),
            forall|j: int|
                #![trigger in_subtree(*old(self), target_node_index as int, j)]
                #![trigger in_subtree(*final(self), target_node_index as int, j)]
                0 <= j < old(self).nodes@.len() ==> (in_subtree(
                    *final(self),
                    target_node_index as int,
                    j,
                ) <==> in_subtree(*old(self), target_node_index as int, j)),
            subtree_bins(*final(self), target_node_index as int) == (if contains_spec(
                old(self).nodes@[target_node_index as int].boundary,
                positions_of(items@)[item_index as int],
            ) {
                subtree_bins(*old(self), target_node_index as int).insert(item_index)
            } else {
                subtree_bins(*old(self), target_node_index as int)
            }),
            // a point outside this cell changes nothing at all
            !contains_spec(
                old(self).nodes@[target_node_index as int].boundary,
                positions_of(items@)[item_index as int],
            ) ==> *final(self) == *old(self),
            // a leaf with room only appends to its bin: no node changes, no
            // split, no growth of the arena or the bin store
            (contains_spec(
                old(self).nodes@[target_node_index as int].boundary,
                positions_of(items@)[item_index as int],
            ) && old(self).nodes@[target_node_index as int].leaves is None && old(
                self,
            ).nodes@[target_node_index as int].data_head is Some && bin_seq(
                *old(self),
                target_node_index as int,
            ).len() < old(self).leaf_capacity) ==> (final(self).nodes@ == old(self).nodes@
                && final(self).node_pointers@.len() == old(self).node_pointers@.len() && bin_seq(
                *final(self),
                target_node_index as int,
            ) == bin_seq(*old(self), target_node_index as int).push(item_index)),
            // an empty leaf gains a fresh one-element bin at the end of the
            // bin store, and nothing else moves
            (contains_spec(
                old(self).nodes@[target_node_index as int].boundary,
                positions_of(items@)[item_index as int],
            ) && old(self).nodes@[target_node_index as int].leaves is None && old(
                self,
            ).nodes@[target_node_index as int].data_head is None) ==> (final(self).nodes@ == old(
                self,
            ).nodes@.update(
                target_node_index as int,
                (QuadTreeNode {
                    boundary: old(self).nodes@[target_node_index as int].boundary,
                    leaves: None,
                    data_head: Some(old(self).node_pointers@.len() as usize),
                }),
            ) && final(self).node_pointers@.len() == old(self).node_pointers@.len() + 1
                && bin_seq(*final(self), target_node_index as int) == Seq::<usize>::empty().push(
                item_index,
            )),
            // a stem whose receiving child is a leaf with room splits
            // nothing and grows nothing: exactly the containing child's bin
            // gains one index
            (contains_spec(
                old(self).nodes@[target_node_index as int].boundary,
                positions_of(items@)[item_index as int],
            ) && old(self).nodes@[target_node_index as int].leaves is Some
                && stem_child_has_room(
                *old(self),
                target_node_index as int,
                positions_of(items@)[item_index as int],
            )) ==> (final(self).nodes@.len() == old(self).nodes@.len() && (forall|j: int|
                0 <= j < old(self).nodes@.len() ==> (#[trigger] final(self).nodes@[j]).leaves
                    == old(self).nodes@[j].leaves) && (forall|c: int|
                first_child(*old(self), target_node_index as int) <= c < first_child(
                    *old(self),
                    target_node_index as int,
                ) + 4 ==> (#[trigger] bin_seq(*final(self), c)).len() == bin_seq(
                    *old(self),
                    c,
                ).len() + (if contains_spec(
                    old(self).nodes@[c].boundary,
                    positions_of(items@)[item_index as int],
                ) {
                    1int
                } else {
                    0int
                }))),
        decreases
                max_dim_spec(old(self).nodes@[target_node_index as int].boundary),
                (if old(self).nodes@[target_node_index as int].leaves is Some {
                    0int
                } else {
                    2int
                }),
    {
        broadcast use vstd::seq_lib::group_to_multiset_ensures;
        broadcast use vstd::multiset::group_multiset_axioms;

        let ghost pts = positions_of(items@);
        let ghost t0 = *old(self);
        let i = target_node_index;
        let ghost ii = i as int;
        let position = items[item_index].position();
        let ghost pt = pts[item_index as int];
        proof {
            assert(pt == position);
            assert(node_wf(t0, ii));
        }
        let node = self.nodes[i];

        if !node.boundary.contains(position) {
            return ;
        }

        if let Some(leaf_start) = node.leaves {
            let ghost l = leaf_start as int;
            let total = self.nodes.len();
            let mut k: usize = 0;
            while k < 4
                invariant
                    t0 == *old(self),
                    tree_inv(*self, pts),
                    pts == positions_of(items@),
                    item_index < items@.len(),
                    tree_inv(t0, pts),
                    i == target_node_index,
                    ii == i as int,
                    pt == pts[item_index as int],
                    contains_spec(t0.nodes@[ii].boundary, pt),
                    ii < t0.nodes@.len() <= self.nodes@.len(),
                    t0.nodes@[ii].leaves == Some(leaf_start),
                    i < leaf_start,
                    l == leaf_start as int,
                    l + 4 <= t0.nodes@.len(),
                    l + 4 <= total,
                    total <= self.nodes@.len(),
                    k <= 4,
                    self.leaf_capacity == t0.leaf_capacity,
                    self.nodes@[ii] == t0.nodes@[ii],
                    forall|j: int|
                        0 <= j < t0.nodes@.len() ==> (#[trigger] self.nodes@[j]).boundary
                            == t0.nodes@[j].boundary,
                    forall|j: int|
                        0 <= j < t0.nodes@.len() && (#[trigger] t0.nodes@[j]).leaves is Some
                            ==> self.nodes@[j].leaves == t0.nodes@[j].leaves,
                    forall|j: int|
                        0 <= j < t0.nodes@.len() && !(#[trigger] in_subtree(t0, ii, j))
                            ==> self.nodes@[j] == t0.nodes@[j] && bin_seq(*self, j) == bin_seq(
                            t0,
                            j,
                        ),
                    forall|c: int, j: int|
                        l <= c < l + 4 && 0 <= j < t0.nodes@.len() ==> ((#[trigger] in_subtree(
                            *self,
                            c,
                            j,
                        )) <==> in_subtree(t0, c, j)),
                    forall|c: int|
                        l + k <= c < l + 4 ==> #[trigger] subtree_bins(*self, c) == subtree_bins(
                            t0,
                            c,
                        ),
                    forall|c: int|
                        l <= c < l + k ==> #[trigger] subtree_bins(*self, c) == (if contains_spec(
                            t0.nodes@[c].boundary,
                            pt,
                        ) {
                            subtree_bins(t0, c).insert(item_index)
                        } else {
                            subtree_bins(t0, c)
                        }),
                    stem_child_has_room(t0, ii, pt) ==> self.nodes@.len() == t0.nodes@.len(),
                    forall|j: int|
                        stem_child_has_room(t0, ii, pt) && 0 <= j < t0.nodes@.len() ==> (
                        #[trigger] self.nodes@[j]).leaves == t0.nodes@[j].leaves,
                    forall|c: int|
                        stem_child_has_room(t0, ii, pt) && l <= c < l + 4 && !(contains_spec(
                            t0.nodes@[c].boundary,
                            pt,
                        ) && c - l < k) ==> (#[trigger] self.nodes@[c]) == t0.nodes@[c] && bin_seq(
                            *self,
                            c,
                        ) == bin_seq(t0, c),
                    forall|c: int|
                        stem_child_has_room(t0, ii, pt) && l <= c < l + 4 && contains_spec(
                            (#[trigger] t0.nodes@[c]).boundary,
                            pt,
                        ) && c - l < k ==> bin_seq(*self, c).len() == bin_seq(t0, c).len() + 1,
                decreases 4 - k,
            {
                let ghost tk = *self;
                proof {
                    assert(node_wf(t0, ii));
                    assert(is_quadrant(t0.nodes@[ii].boundary, k as int, t0.nodes@[l + k].boundary));
                    lemma_quadrant_wf(
                        t0.nodes@[ii].boundary,
                        k as int,
                        t0.nodes@[l + k].boundary,
                    );
                    assert(max_dim_spec(self.nodes@[l + k].boundary) < max_dim_spec(
                        t0.nodes@[ii].boundary,
                    ));
                }
                let child = leaf_start + k;
                self.insert_recursive(child, item_index, items);
                proof {
                    let tk1 = *self;
                    let ck = child as int;
                    assert(ck == l + k);
                    // untouched siblings keep membership and contents
                    assert forall|c: int| l <= c < l + 4 && c != ck implies ((forall|j: int|
                        in_subtree(tk1, c, j) <==> #[trigger] in_subtree(tk, c, j))
                        && subtree_bins(tk1, c) == subtree_bins(tk, c)) by {
                        assert(child_of(tk, ii, ck));
                        assert(child_of(tk, ii, c));
                        lemma_sibling_preserved(tk, tk1, ii, ck, c);
                    }
                    // the processed child's boundary is unchanged, so its
                    // containment test matches the pre-insertion tree's
                    assert(tk.nodes@[ck].boundary == t0.nodes@[ck].boundary);
                    assert(subtree_bins(tk1, ck) == (if contains_spec(t0.nodes@[ck].boundary, pt) {
                        subtree_bins(t0, ck).insert(item_index)
                    } else {
                        subtree_bins(t0, ck)
                    }));
                    // frame against t0 for nodes outside the target's subtree
                    assert forall|j: int|
                        0 <= j < t0.nodes@.len() && !(#[trigger] in_subtree(t0, ii, j)) implies (
                    tk1.nodes@[j] == t0.nodes@[j] && bin_seq(tk1, j) == bin_seq(t0, j)) by {
                        if in_subtree(t0, ck, j) {
                            lemma_child_subtree_sub(t0, ii, k as int, j);
                        }
                        assert(!in_subtree(t0, ck, j));
                        assert(!in_subtree(tk, ck, j));
                        assert(tk1.nodes@[j] == tk.nodes@[j] && bin_seq(tk1, j) == bin_seq(tk, j));
                    }
                    // the stem node itself lies outside its children
                    if in_subtree(tk, ck, ii) {
                        lemma_in_subtree_bounds(tk, ck, ii);
                    }
                    assert(!in_subtree(tk, ck, ii));
                    assert(tk1.nodes@[ii] == tk.nodes@[ii]);
                    // membership of each child subtree, carried back to t0
                    assert forall|c: int, j: int|
                        l <= c < l + 4 && 0 <= j < t0.nodes@.len() implies ((#[trigger] in_subtree(
                            tk1,
                            c,
                            j,
                        )) <==> in_subtree(t0, c, j)) by {
                        if c == ck {
                            assert(0 <= j < tk.nodes@.len());
                            assert(in_subtree(tk1, child as int, j) <==> in_subtree(
                                tk,
                                child as int,
                                j,
                            ));
                        } else {
                            assert(subtree_bins(tk1, c) == subtree_bins(tk, c));
                            assert(in_subtree(tk1, c, j) <==> in_subtree(tk, c, j));
                        }
                        assert(in_subtree(tk, c, j) <==> in_subtree(t0, c, j));
                    }
                    // under the no-split hypothesis, track the arena shape
                    // and the per-child bin lengths exactly
                    if stem_child_has_room(t0, ii, pt) {
                        assert(node_wf(t0, ii));
                        let b = t0.nodes@[ii].boundary;
                        let q0 = t0.nodes@[l + 0].boundary;
                        let q1 = t0.nodes@[l + 1].boundary;
                        let q2 = t0.nodes@[l + 2].boundary;
                        let q3 = t0.nodes@[l + 3].boundary;
                        assert(is_quadrant(b, 0, q0) && is_quadrant(b, 1, q1) && is_quadrant(
                            b,
                            2,
                            q2,
                        ) && is_quadrant(b, 3, q3));
                        lemma_quadrant_partition(b, q0, q1, q2, q3, pt);
                        if contains_spec(t0.nodes@[ck].boundary, pt) {
                            // the receiving child was still pristine, a leaf
                            // with room, so the call only appended to its bin
                            assert(tk.nodes@[ck] == t0.nodes@[ck]);
                            assert(bin_seq(tk, ck) == bin_seq(t0, ck));
                            assert(t0.nodes@[ck].leaves is None && bin_seq(t0, ck).len()
                                < t0.leaf_capacity);
                            assert(contains_spec(tk.nodes@[ck].boundary, pt));
                            if tk.nodes@[ck].data_head is Some {
                                assert(tk1.nodes@ == tk.nodes@);
                                assert(bin_seq(tk1, ck) == bin_seq(tk, ck).push(item_index));
                            } else {
                                assert(tk1.nodes@ == tk.nodes@.update(
                                    child as int,
                                    (QuadTreeNode {
                                        boundary: tk.nodes@[child as int].boundary,
                                        leaves: None,
                                        data_head: Some(tk.node_pointers@.len() as usize),
                                    }),
                                ));
                                assert(bin_seq(tk1, ck) == Seq::<usize>::empty().push(item_index));
                                assert(bin_seq(tk, ck) =~= Seq::<usize>::empty());
                            }
                            assert(tk1.nodes@.len() == tk.nodes@.len());
                            assert forall|j: int| 0 <= j < tk.nodes@.len() implies (
                            #[trigger] tk1.nodes@[j]).leaves == tk.nodes@[j].leaves by {}
                            assert(bin_seq(tk1, ck).len() == bin_seq(tk, ck).len() + 1);
                            assert forall|j: int|
                                0 <= j < tk.nodes@.len() && j != ck implies (tk1.nodes@[j]
                                == tk.nodes@[j] && bin_seq(tk1, j) == bin_seq(tk, j)) by {
                                assert(!in_subtree(tk, ck, j));
                            }
                        } else {
                            // not this child's point: the call changed nothing
                            assert(tk.nodes@[ck].boundary == t0.nodes@[ck].boundary);
                            assert(!contains_spec(tk.nodes@[ck].boundary, pt));
                            assert(tk1 == tk);
                        }
                    }
                }
                k = k + 1;
            }
            proof {
                // exactly one quadrant holds the point, so the whole stem
                // gains it exactly once
                assert(node_wf(t0, ii));
                let b = t0.nodes@[ii].boundary;
                let q0 = t0.nodes@[l + 0].boundary;
                let q1 = t0.nodes@[l + 1].boundary;
                let q2 = t0.nodes@[l + 2].boundary;
                let q3 = t0.nodes@[l + 3].boundary;
                assert(is_quadrant(b, 0, q0) && is_quadrant(b, 1, q1) && is_quadrant(b, 2, q2)
                    && is_quadrant(b, 3, q3));
                lemma_quadrant_partition(b, q0, q1, q2, q3, pt);
                assert(bin_seq(*self, ii) =~= Seq::<usize>::empty());
                assert(bin_seq(t0, ii) =~= Seq::<usize>::empty());
                assert(subtree_bins(*self, ii) == bin_seq(*self, ii).to_multiset().add(
                    subtree_bins(*self, l),
                ).add(subtree_bins(*self, l + 1)).add(subtree_bins(*self, l + 2)).add(
                    subtree_bins(*self, l + 3),
                ));
                assert(subtree_bins(t0, ii) == bin_seq(t0, ii).to_multiset().add(
                    subtree_bins(t0, l),
                ).add(subtree_bins(t0, l + 1)).add(subtree_bins(t0, l + 2)).add(
                    subtree_bins(t0, l + 3),
                ));
                if contains_spec(q0, pt) {
                    assert(subtree_bins(*self, l + 0) == subtree_bins(t0, l + 0).insert(
                        item_index,
                    ));
                    assert(subtree_bins(*self, l + 1) == subtree_bins(t0, l + 1));
                    assert(subtree_bins(*self, l + 2) == subtree_bins(t0, l + 2));
                    assert(subtree_bins(*self, l + 3) == subtree_bins(t0, l + 3));
                } else if contains_spec(q1, pt) {
                    assert(subtree_bins(*self, l + 1) == subtree_bins(t0, l + 1).insert(
                        item_index,
                    ));
                } else if contains_spec(q2, pt) {
                    assert(subtree_bins(*self, l + 2) == subtree_bins(t0, l + 2).insert(
                        item_index,
                    ));
                } else {
                    assert(contains_spec(q3, pt));
                    assert(subtree_bins(*self, l + 3) == subtree_bins(t0, l + 3).insert(
                        item_index,
                    ));
                }
                assert(subtree_bins(*self, ii) =~= subtree_bins(t0, ii).insert(item_index));
                assert forall|j: int| 0 <= j < t0.nodes@.len() implies (in_subtree(*self, ii, j)
                    <==> #[trigger] in_subtree(t0, ii, j)) by {
                    assert(in_subtree(*self, l, j) <==> in_subtree(t0, l, j));
                    assert(in_subtree(*self, l + 1, j) <==> in_subtree(t0, l + 1, j));
                    assert(in_subtree(*self, l + 2, j) <==> in_subtree(t0, l + 2, j));
                    assert(in_subtree(*self, l + 3, j) <==> in_subtree(t0, l + 3, j));
                }
            }
            return ;
        }

        if let Some(node_list_index) = node.data_head {
            self.node_pointers[node_list_index].push(item_index);
            proof {
                let t1 = *self;
                assert(bin_seq(t1, ii) =~= bin_seq(t0, ii).push(item_index));
                assert forall|j: int| 0 <= j < t0.nodes@.len() && j != ii implies bin_seq(t1, j)
                    =~= bin_seq(t0, j) by {
                    assert(node_wf(t0, j));
                }
                // capacity_wf may not hold at ii yet; it is restored below
                assert(tree_wf(t1)) by {
                    assert forall|j: int| 0 <= j < t1.nodes@.len() implies #[trigger] node_wf(
                        t1,
                        j,
                    ) by {
                        assert(node_wf(t0, j));
                    }
                    assert forall|a: int, b: int|
                        0 <= a < t1.nodes@.len() && 0 <= b < t1.nodes@.len() && a != b
                            && #[trigger] stem_at(t1, a) && #[trigger] stem_at(t1, b) implies (
                    first_child(t1, a) + 4 <= first_child(t1, b) || first_child(t1, b) + 4
                        <= first_child(t1, a)) by {
                        assert(stem_at(t0, a));
                        assert(stem_at(t0, b));
                    }
                    assert forall|a: int, b: int|
                        0 <= a < t1.nodes@.len() && 0 <= b < t1.nodes@.len() && a != b
                            && #[trigger] t1.nodes@[a].data_head is Some
                            && #[trigger] t1.nodes@[b].data_head is Some implies t1.nodes@[a].data_head
                        != t1.nodes@[b].data_head by {
                        assert(t0.nodes@[a].data_head is Some);
                        assert(t0.nodes@[b].data_head is Some);
                    }
                }
                assert(linked_wf(t1, pts)) by {
                    assert forall|j: int, c: int|
                        0 <= j < t1.nodes@.len() && 0 <= c < bin_seq(t1, j).len() implies ((
                    #[trigger] bin_seq(t1, j)[c]) < pts.len() && contains_spec(
                        t1.nodes@[j].boundary,
                        pts[bin_seq(t1, j)[c] as int],
                    )) by {
                        if j != ii {
                            assert(bin_seq(t1, j) == bin_seq(t0, j));
                        } else {
                            if c < bin_seq(t0, ii).len() {
                                assert(bin_seq(t1, j)[c] == bin_seq(t0, j)[c]);
                            } else {
                                assert(bin_seq(t1, j)[c] == item_index);
                            }
                        }
                    }
                }
                assert forall|j: int| in_subtree(t0, ii, j) implies t1.nodes@[j].leaves
                    == #[trigger] t0.nodes@[j].leaves by {
                    lemma_in_subtree_bounds(t0, ii, j);
                }
                lemma_in_subtree_congruence(t0, t1, ii);
                assert(subtree_bins(t1, ii) =~= subtree_bins(t0, ii).insert(item_index));
            }
            let bin_len = self.node_pointers[node_list_index].len();
            if bin_len > self.leaf_capacity {
                let w = node.boundary.max.x - node.boundary.min.x;
                let h = node.boundary.max.y - node.boundary.min.y;
                if w >= 2 || h >= 2 {
                    let ghost t1 = *self;
                    self.subdivide_stem_to_leaf(i, items);
                    proof {
                        let t2 = *self;
                        assert forall|j: int|
                            0 <= j < t0.nodes@.len() && !(#[trigger] in_subtree(t0, ii, j)) implies (
                        t2.nodes@[j] == t0.nodes@[j] && bin_seq(t2, j) == bin_seq(t0, j)) by {
                            assert(in_subtree(t0, ii, ii));
                            assert(j != ii);
                            assert(t1.nodes@[j] == t0.nodes@[j]);
                            assert(bin_seq(t1, j) == bin_seq(t0, j));
                            assert(t2.nodes@[j] == t1.nodes@[j]);
                            assert(bin_seq(t2, j) == bin_seq(t1, j));
                        }
                        assert forall|j: int| 0 <= j < t0.nodes@.len() implies (in_subtree(
                            t2,
                            ii,
                            j,
                        ) <==> #[trigger] in_subtree(t0, ii, j)) by {
                            assert(in_subtree(t2, ii, j) <==> in_subtree(t1, ii, j));
                            assert(in_subtree(t1, ii, j) <==> in_subtree(t0, ii, j));
                        }
                    }
                } else {
                    proof {
                        // cell too small to split: the overflow policy allows
                        // the bin to exceed the capacity here
                        assert(!splittable_spec(t0.nodes@[ii].boundary));
                        assert(capacity_wf(*self)) by {
                            assert forall|j: int|
                                0 <= j < self.nodes@.len() && splittable_spec(
                                    self.nodes@[j].boundary,
                                ) implies (#[trigger] bin_seq(*self, j)).len()
                                <= self.leaf_capacity by {
                                assert(node_wf(t0, j));
                                if j != ii {
                                    assert(bin_seq(*self, j) == bin_seq(t0, j));
                                }
                            }
                        }
                    }
                }
            } else {
                proof {
                    assert(capacity_wf(*self)) by {
                        assert forall|j: int|
                            0 <= j < self.nodes@.len() && splittable_spec(self.nodes@[j].boundary)
                            implies (#[trigger] bin_seq(*self, j)).len() <= self.leaf_capacity by {
                            assert(node_wf(t0, j));
                            if j != ii {
                                assert(bin_seq(*self, j) == bin_seq(t0, j));
                            }
                        }
                    }
                }
            }
            return ;
        }

        // empty leaf: give it a fresh bin holding just this item
        let node_index = self.node_pointers.len();
        let mut new_bin: Vec<usize> = Vec::new();
        new_bin.push(item_index);
        self.node_pointers.push(new_bin);
        self.nodes[i] = QuadTreeNode {
            boundary: node.boundary,
            leaves: None,
            data_head: Some(node_index),
        };
        proof {
            let t1 = *self;
            assert(bin_seq(t1, ii) =~= Seq::empty().push(item_index));
            assert(bin_seq(t0, ii) =~= Seq::<usize>::empty());
            assert forall|j: int| 0 <= j < t0.nodes@.len() && j != ii implies bin_seq(t1, j)
                =~= bin_seq(t0, j) by {
                assert(node_wf(t0, j));
            }
            assert(tree_inv(t1, pts)) by {
                assert forall|j: int| 0 <= j < t1.nodes@.len() implies #[trigger] node_wf(
                    t1,
                    j,
                ) by {
                    assert(node_wf(t0, j));
                }
                assert forall|a: int, b: int|
                    0 <= a < t1.nodes@.len() && 0 <= b < t1.nodes@.len() && a != b && #[trigger]
                        stem_at(t1, a) && #[trigger] stem_at(t1, b) implies (first_child(t1, a) + 4
                    <= first_child(t1, b) || first_child(t1, b) + 4 <= first_child(t1, a)) by {
                    assert(stem_at(t0, a));
                    assert(stem_at(t0, b));
                }
                assert forall|a: int, b: int|
                    0 <= a < t1.nodes@.len() && 0 <= b < t1.nodes@.len() && a != b
                        && #[trigger] t1.nodes@[a].data_head is Some
                        && #[trigger] t1.nodes@[b].data_head is Some implies t1.nodes@[a].data_head
                    != t1.nodes@[b].data_head by {
                    if a != ii && b != ii {
                        assert(t0.nodes@[a].data_head is Some);
                        assert(t0.nodes@[b].data_head is Some);
                    } else if a == ii {
                        assert(node_wf(t0, b));
                    } else {
                        assert(node_wf(t0, a));
                    }
                }
                assert forall|j: int, c: int|
                    0 <= j < t1.nodes@.len() && 0 <= c < bin_seq(t1, j).len() implies ((
                #[trigger] bin_seq(t1, j)[c]) < pts.len() && contains_spec(
                    t1.nodes@[j].boundary,
                    pts[bin_seq(t1, j)[c] as int],
                )) by {
                    if j != ii {
                        assert(bin_seq(t1, j) == bin_seq(t0, j));
                    }
                }
                assert(capacity_wf(t1)) by {
                    assert forall|j: int|
                        0 <= j < t1.nodes@.len() && splittable_spec(t1.nodes@[j].boundary) implies (
                    #[trigger] bin_seq(t1, j)).len() <= t1.leaf_capacity by {
                        assert(node_wf(t0, j));
                        if j != ii {
                            assert(bin_seq(t1, j) == bin_seq(t0, j));
                        }
                    }
                }
            }
            assert forall|j: int| true implies (in_subtree(t1, ii, j) <==> #[trigger] in_subtree(
                t0,
                ii,
                j,
            )) by {
                assert forall|m: int| in_subtree(t0, ii, m) implies t1.nodes@[m].leaves
                    == #[trigger] t0.nodes@[m].leaves by {
                    lemma_in_subtree_bounds(t0, ii, m);
                }
                lemma_in_subtree_congruence(t0, t1, ii);
            }
            assert(subtree_bins(t1, ii) =~= subtree_bins(t0, ii).insert(item_index));
        }
    }

    /// Splits an over-full leaf: allocates four quadrant children, drains
    /// the leaf's bin, and re-partitions every drained point into the new
    /// children. The node becomes a stem; nothing stored is gained or lost.
    fn subdivide_stem_to_leaf<T: PositionPlanar>(&mut self, target_node_index: usize, items: &[T])
        requires
            tree_wf(*old(self)),
            linked_wf(*old(self), positions_of(items@)),
            forall|j: int|
                0 <= j < old(self).nodes@.len() && j != target_node_index && splittable_spec(
                    old(self).nodes@[j].boundary,
                ) ==> (#[trigger] bin_seq(*old(self), j)).len() <= old(self).leaf_capacity,
            target_node_index < old(self).nodes@.len(),
            old(self).nodes@[target_node_index as int].leaves is None,
            splittable_spec(old(self).nodes@[target_node_index as int].boundary),
        ensures
            tree_inv(*final(self), positions_of(items@)),
            final(self).leaf_capacity == old(self).leaf_capacity,
            old(self).nodes@.len() <= final(self).nodes@.len(),
            forall|j: int|
                0 <= j < old(self).nodes@.len() ==> (#[trigger] final(self).nodes@[j]).boundary
                    == old(self).nodes@[j].boundary,
            forall|j: int|
                0 <= j < old(self).nodes@.len() && (#[trigger] old(self).nodes@[j]).leaves is Some
                    ==> final(self).nodes@[j].leaves == old(self).nodes@[j].leaves,
            forall|j: int|
                0 <= j < old(self).nodes@.len() && j != target_node_index
                    ==> final(self).nodes@[j] == old(self).nodes@[j] && bin_seq(*final(self), j)
                    == bin_seq(*old(self), j),
            forall|j: int|
                0 <= j < old(self).nodes@.len() ==> (in_subtree(
                    *final(self),
                    target_node_index as int,
                    j,
                ) <==> #[trigger] in_subtree(*old(self), target_node_index as int, j)),
            subtree_bins(*final(self), target_node_index as int) == subtree_bins(
                *old(self),
                target_node_index as int,
            ),
            // the node becomes a stem whose four children were appended at
            // the old end of the arena, covering its quadrants in order,
            // with its own bin reference cleared
            final(self).nodes@[target_node_index as int].leaves is Some,
            first_child(*final(self), target_node_index as int) == old(self).nodes@.len(),
            final(self).nodes@[target_node_index as int].data_head is None,
            old(self).nodes@.len() + 4 <= final(self).nodes@.len(),
            forall|k: int|
                0 <= k < 4 ==> is_quadrant(
                    old(self).nodes@[target_node_index as int].boundary,
                    k,
                    (#[trigger] final(self).nodes@[old(self).nodes@.len() + k]).boundary,
                ),
            // when no quadrant takes more than the capacity, the split does
            // not cascade: exactly four nodes are appended and each child
            // is a leaf holding exactly its quadrant's share
            quadrants_within_capacity(
                *old(self),
                target_node_index as int,
                positions_of(items@),
            ) ==> (final(self).nodes@.len() == old(self).nodes@.len() + 4 && (forall|c: int|
                old(self).nodes@.len() <= c < old(self).nodes@.len() + 4
                    ==> ((#[trigger] final(self).nodes@[c]).leaves is None && bin_seq(
                    *final(self),
                    c,
                ).len() == count_contained(
                    positions_of(items@),
                    bin_seq(*old(self), target_node_index as int),
                    final(self).nodes@[c].boundary,
                )))),
        decreases max_dim_spec(old(self).nodes@[target_node_index as int].boundary), 1int,
    {
        broadcast use vstd::seq_lib::group_to_multiset_ensures;
        broadcast use vstd::multiset::group_multiset_axioms;

        let ghost pts = positions_of(items@);
        let ghost t0 = *old(self);
        let i = target_node_index;
        let ghost ii = i as int;
        let node = self.nodes[i];
        let first = self.nodes.len();
        let ghost fc = first as int;
        proof {
            assert(node_wf(t0, ii));
        }
        let quads = node.boundary.split_quadrants();
        self.nodes.push(QuadTreeNode::build(quads[0]));
        self.nodes.push(QuadTreeNode::build(quads[1]));
        self.nodes.push(QuadTreeNode::build(quads[2]));
        self.nodes.push(QuadTreeNode::build(quads[3]));

        let drained: Vec<usize> = if let Some(d) = node.data_head {
            proof {
                assert((d as int) < self.node_pointers@.len());
            }
            let out = self.node_pointers[d].clone();
            self.node_pointers[d] = Vec::new();
            out
        } else {
            Vec::new()
        };
        self.nodes[i] = QuadTreeNode { boundary: node.boundary, leaves: Some(first), data_head: None };
        proof {
            let t1 = *self;
            assert(node_wf(t0, ii));
            assert(drained@ == bin_seq(t0, ii));
            assert forall|j: int| 0 <= j < t0.nodes@.len() && j != ii implies bin_seq(t1, j)
                =~= bin_seq(t0, j) by {
                assert(node_wf(t0, j));
            }
            assert(bin_seq(t1, ii) =~= Seq::<usize>::empty());
            assert(bin_seq(t1, fc) =~= Seq::<usize>::empty());
            assert(bin_seq(t1, fc + 1) =~= Seq::<usize>::empty());
            assert(bin_seq(t1, fc + 2) =~= Seq::<usize>::empty());
            assert(bin_seq(t1, fc + 3) =~= Seq::<usize>::empty());
            assert(tree_inv(t1, pts)) by {
                assert forall|j: int| 0 <= j < t1.nodes@.len() implies #[trigger] node_wf(
                    t1,
                    j,
                ) by {
                    if j < t0.nodes@.len() {
                        assert(node_wf(t0, j));
                        if j == ii {
                            assert(is_quadrant(node.boundary, 0, quads@[0]));
                            assert(is_quadrant(node.boundary, 1, quads@[1]));
                            assert(is_quadrant(node.boundary, 2, quads@[2]));
                            assert(is_quadrant(node.boundary, 3, quads@[3]));
                        }
                    } else {
                        lemma_quadrant_wf(node.boundary, j - fc, t1.nodes@[j].boundary);
                    }
                }
                assert forall|a: int, b: int|
                    0 <= a < t1.nodes@.len() && 0 <= b < t1.nodes@.len() && a != b && #[trigger]
                        stem_at(t1, a) && #[trigger] stem_at(t1, b) implies (first_child(t1, a) + 4
                    <= first_child(t1, b) || first_child(t1, b) + 4 <= first_child(t1, a)) by {
                    if a < t0.nodes@.len() && a != ii {
                        assert(node_wf(t0, a));
                        assert(stem_at(t0, a));
                    }
                    if b < t0.nodes@.len() && b != ii {
                        assert(node_wf(t0, b));
                        assert(stem_at(t0, b));
                    }
                }
                assert forall|a: int, b: int|
                    0 <= a < t1.nodes@.len() && 0 <= b < t1.nodes@.len() && a != b
                        && #[trigger] t1.nodes@[a].data_head is Some
                        && #[trigger] t1.nodes@[b].data_head is Some implies t1.nodes@[a].data_head
                    != t1.nodes@[b].data_head by {
                    assert(t0.nodes@[a].data_head is Some);
                    assert(t0.nodes@[b].data_head is Some);
                }
                assert(linked_wf(t1, pts)) by {
                    assert forall|j: int, c: int|
                        0 <= j < t1.nodes@.len() && 0 <= c < bin_seq(t1, j).len() implies ((
                    #[trigger] bin_seq(t1, j)[c]) < pts.len() && contains_spec(
                        t1.nodes@[j].boundary,
                        pts[bin_seq(t1, j)[c] as int],
                    )) by {
                        if j < t0.nodes@.len() && j != ii {
                            assert(bin_seq(t1, j) == bin_seq(t0, j));
                        }
                    }
                }
                assert(capacity_wf(t1)) by {
                    assert forall|j: int|
                        0 <= j < t1.nodes@.len() && splittable_spec(t1.nodes@[j].boundary) implies (
                    #[trigger] bin_seq(t1, j)).len() <= t1.leaf_capacity by {
                        if j < t0.nodes@.len() && j != ii {
                            assert(bin_seq(t1, j) == bin_seq(t0, j));
                        }
                    }
                }
            }
            // the fresh subtree holds exactly its four empty children
            assert(subtree_bins(t1, fc) =~= Multiset::<usize>::empty());
            assert(subtree_bins(t1, fc + 1) =~= Multiset::<usize>::empty());
            assert(subtree_bins(t1, fc + 2) =~= Multiset::<usize>::empty());
            assert(subtree_bins(t1, fc + 3) =~= Multiset::<usize>::empty());
            assert(subtree_bins(t1, ii) =~= Multiset::<usize>::empty());
            assert forall|j: int| 0 <= j < t0.nodes@.len() && j != ii implies !in_subtree(
                t1,
                ii,
                j,
            ) by {
                if in_subtree(t1, ii, j) {
                    assert(in_subtree(t1, fc, j) || in_subtree(t1, fc + 1, j) || in_subtree(
                        t1,
                        fc + 2,
                        j,
                    ) || in_subtree(t1, fc + 3, j));
                    if in_subtree(t1, fc, j) {
                        lemma_in_subtree_bounds(t1, fc, j);
                    }
                    if in_subtree(t1, fc + 1, j) {
                        lemma_in_subtree_bounds(t1, fc + 1, j);
                    }
                    if in_subtree(t1, fc + 2, j) {
                        lemma_in_subtree_bounds(t1, fc + 2, j);
                    }
                    if in_subtree(t1, fc + 3, j) {
                        lemma_in_subtree_bounds(t1, fc + 3, j);
                    }
                }
            }
        }

        let m_total = drained.len();
        let mut m: usize = 0;
        while m < m_total
            invariant
                t0 == *old(self),
                tree_inv(*self, pts),
                pts == positions_of(items@),
                tree_wf(t0),
                linked_wf(t0, pts),
                i == target_node_index,
                ii == i as int,
                ii < t0.nodes@.len(),
                m <= m_total,
                m_total == drained@.len(),
                drained@ == bin_seq(t0, ii),
                forall|c: int| 0 <= c < drained@.len() ==> (#[trigger] drained@[c]) < items@.len(),
                forall|c: int|
                    0 <= c < drained@.len() ==> contains_spec(
                        t0.nodes@[ii].boundary,
                        pts[#[trigger] drained@[c] as int],
                    ),
                t0.nodes@.len() + 4 <= self.nodes@.len(),
                self.leaf_capacity == t0.leaf_capacity,
                self.nodes@[ii].boundary == t0.nodes@[ii].boundary,
                self.nodes@[ii].leaves == Some(first),
                max_dim_spec(self.nodes@[ii].boundary) == max_dim_spec(t0.nodes@[ii].boundary),
                forall|j: int|
                    0 <= j < t0.nodes@.len() ==> (#[trigger] self.nodes@[j]).boundary
                        == t0.nodes@[j].boundary,
                forall|j: int|
                    0 <= j < t0.nodes@.len() && (#[trigger] t0.nodes@[j]).leaves is Some
                        ==> self.nodes@[j].leaves == t0.nodes@[j].leaves,
                forall|j: int|
                    0 <= j < t0.nodes@.len() && j != ii ==> (#[trigger] self.nodes@[j])
                        == t0.nodes@[j],
                forall|j: int|
                    0 <= j < t0.nodes@.len() && j != ii ==> (#[trigger] bin_seq(*self, j))
                        == bin_seq(t0, j),
                forall|j: int|
                    0 <= j < t0.nodes@.len() && j != ii ==> !(#[trigger] in_subtree(*self, ii, j)),
                subtree_bins(*self, ii) == drained@.take(m as int).to_multiset(),
                fc == first as int,
                fc == t0.nodes@.len(),
                forall|c: int|
                    fc <= c < fc + 4 ==> is_quadrant(
                        t0.nodes@[ii].boundary,
                        c - fc,
                        (#[trigger] self.nodes@[c]).boundary,
                    ),
                quadrants_within_capacity(t0, ii, pts) ==> self.nodes@.len() == t0.nodes@.len()
                    + 4,
                forall|c: int|
                    quadrants_within_capacity(t0, ii, pts) && fc <= c < fc + 4 ==> ((
                    #[trigger] self.nodes@[c]).leaves is None && bin_seq(*self, c).len()
                        == count_contained(pts, drained@.take(m as int), self.nodes@[c].boundary)),
            decreases m_total - m,
        {
            let ghost tk = *self;
            let e = drained[m];
            proof {
                assert(drained@[m as int] == e);
                assert(contains_spec(self.nodes@[ii].boundary, pts[e as int]));
                assert(self.nodes@[ii].leaves is Some);
                assert(max_dim_spec(self.nodes@[ii].boundary) == max_dim_spec(
                    t0.nodes@[ii].boundary,
                ));
                if quadrants_within_capacity(t0, ii, pts) {
                    // the receiving child still has room: its bin holds its
                    // quadrant's share of the processed prefix, strictly
                    // fewer than its total share, which the capacity bounds
                    assert forall|c: int|
                        first_child(*self, ii) <= c < first_child(*self, ii) + 4 && contains_spec(
                            (#[trigger] self.nodes@[c]).boundary,
                            pts[e as int],
                        ) implies (self.nodes@[c].leaves is None && bin_seq(*self, c).len()
                        < self.leaf_capacity) by {
                        assert(first_child(*self, ii) == fc);
                        assert(is_quadrant(t0.nodes@[ii].boundary, c - fc, self.nodes@[c].boundary));
                        assert(count_contained(pts, drained@, self.nodes@[c].boundary)
                            <= t0.leaf_capacity);
                        assert(drained@.take(m + 1 as int) =~= drained@.take(m as int).push(e));
                        lemma_count_contained_push(
                            pts,
                            drained@.take(m as int),
                            e,
                            self.nodes@[c].boundary,
                        );
                        lemma_count_contained_prefix(pts, drained@, m + 1, self.nodes@[c].boundary);
                    }
                    assert(stem_child_has_room(*self, ii, pts[e as int]));
                }
            }
            self.insert_recursive(i, e, items);
            proof {
                broadcast use vstd::seq_lib::group_to_multiset_ensures;
                broadcast use vstd::multiset::group_multiset_axioms;

                let tk1 = *self;
                assert(subtree_bins(tk1, ii) == subtree_bins(tk, ii).insert(e));
                assert(drained@.take(m + 1 as int) =~= drained@.take(m as int).push(e));
                assert(drained@.take(m as int).push(e).to_multiset() =~= drained@.take(
                    m as int,
                ).to_multiset().insert(e));
                assert(drained@.take(m + 1 as int).to_multiset() =~= drained@.take(
                    m as int,
                ).to_multiset().insert(e));
                assert forall|j: int| 0 <= j < t0.nodes@.len() && j != ii implies !(
                #[trigger] in_subtree(tk, ii, j)) by {}
                assert forall|j: int| 0 <= j < t0.nodes@.len() && j != ii implies (tk1.nodes@[j]
                    == t0.nodes@[j] && bin_seq(tk1, j) == bin_seq(t0, j)) by {
                    assert(0 <= j < tk.nodes@.len());
                    assert(tk.nodes@[j] == t0.nodes@[j] && bin_seq(tk, j) == bin_seq(t0, j));
                    assert(!in_subtree(tk, i as int, j));
                    assert(tk1.nodes@[j] == tk.nodes@[j]);
                    assert(bin_seq(tk1, j) == bin_seq(tk, j));
                }
                assert forall|j: int| 0 <= j < t0.nodes@.len() && j != ii implies !(
                #[trigger] in_subtree(tk1, ii, j)) by {
                    assert(!in_subtree(tk, ii, j));
                    assert(in_subtree(tk1, ii, j) <==> in_subtree(tk, ii, j));
                }
                if quadrants_within_capacity(t0, ii, pts) {
                    // the no-split consequent: arena unchanged, the one
                    // receiving child's bin grew by the counted share
                    assert(tk1.nodes@.len() == tk.nodes@.len());
                    assert forall|c: int| fc <= c < fc + 4 implies ((#[trigger] tk1.nodes@[c]).leaves
                        is None && bin_seq(tk1, c).len() == count_contained(
                        pts,
                        drained@.take(m + 1 as int),
                        tk1.nodes@[c].boundary,
                    )) by {
                        assert(first_child(tk, ii) == fc);
                        assert(tk1.nodes@[c].leaves == tk.nodes@[c].leaves);
                        assert(bin_seq(tk1, c).len() == bin_seq(tk, c).len() + (if contains_spec(
                            tk.nodes@[c].boundary,
                            pts[e as int],
                        ) {
                            1int
                        } else {
                            0int
                        }));
                        assert(tk1.nodes@[c].boundary == tk.nodes@[c].boundary);
                        assert(drained@.take(m + 1 as int) =~= drained@.take(m as int).push(e));
                        lemma_count_contained_push(
                            pts,
                            drained@.take(m as int),
                            e,
                            tk.nodes@[c].boundary,
                        );
                    }
                }
            }
            m = m + 1;
        }
        proof {
            assert(drained@.take(m_total as int) == drained@);
            assert(subtree_bins(*self, ii) == bin_seq(t0, ii).to_multiset());
            assert(subtree_bins(t0, ii) == bin_seq(t0, ii).to_multiset());
            assert forall|j: int| 0 <= j < t0.nodes@.len() implies (in_subtree(*self, ii, j)
                <==> #[trigger] in_subtree(t0, ii, j)) by {
                assert(in_subtree(t0, ii, j) <==> j == ii);
                assert(in_subtree(*self, ii, ii));
            }
            // the new stem's shape: bin reference gone, children at the old
            // arena end covering the quadrants
            assert(node_wf(*self, ii));
            assert(self.nodes@[ii].boundary == t0.nodes@[ii].boundary);
            assert forall|k: int| 0 <= k < 4 implies is_quadrant(
                t0.nodes@[ii].boundary,
                k,
                (#[trigger] self.nodes@[t0.nodes@.len() + k]).boundary,
            ) by {
                assert(first_child(*self, ii) == t0.nodes@.len());
                assert(is_quadrant(
                    self.nodes@[ii].boundary,
                    k,
                    self.nodes@[first_child(*self, ii) + k].boundary,
                ));
            }
        }
    }
}

} // verus!
