//! Mass aggregation over the spatial index: one post-order pass computes,
//! for every node, the total mass and the centre of mass of everything the
//! node's subtree stores. Masses are exact integer sums; a stem's centre is
//! the mass-weighted average of its children's centres, with the division
//! truncating, and a node of zero total mass keeps its raw (zero)
//! accumulator and must be treated as contributing nothing.

use vstd::multiset::Multiset;
use vstd::prelude::*;

use crate::arith::lemma_div_exact_multiple;
use crate::arith::lemma_div_le;
use crate::arith::lemma_msum_add;
use crate::arith::lemma_msum_bound;
use crate::arith::lemma_msum_empty;
use crate::arith::lemma_msum_insert;
use crate::arith::lemma_msum_pairwise_bound;
use crate::arith::lemma_msum_remove;
use crate::arith::msum;
use crate::quadtree::bin_seq;
use crate::quadtree::first_child;
use crate::quadtree::in_subtree;
use crate::quadtree::lemma_in_subtree_bounds;
use crate::quadtree::lemma_sibling_subtrees_disjoint;
use crate::quadtree::lemma_subtree_points_inside;
use crate::quadtree::linked_wf;
use crate::quadtree::node_wf;
use crate::quadtree::positions_of;
use crate::quadtree::stem_at;
use crate::quadtree::subtree_bins;
use crate::quadtree::tree_wf;
use crate::quadtree::QuadTree;
use crate::quadtree::ROOT_INDEX;
use crate::state::particle_ok;
use crate::state::Particle;
use crate::state::COUNT_LIMIT;
use crate::state::MASS_LIMIT;
use crate::utils::box_wf;
use crate::utils::BoundingBox;
use crate::utils::contains_spec;
use crate::utils::Vec2;
use crate::utils::COORD_LIMIT;

verus! {

/// Largest total mass a simulation can hold: `COUNT_LIMIT * MASS_LIMIT`.
pub const MASS_SUM_LIMIT: i128 = 1_152_921_504_606_846_976;

/// One aggregated node: total mass under it, and its centre of mass.
#[derive(Clone, Copy, Debug, PartialEq)]
pub struct BarnesHutNode {
    pub mass: i128,
    pub mass_center: Vec2,
}

impl BarnesHutNode {
    pub fn build(mass: i128, mass_center: Vec2) -> (n: BarnesHutNode)
        ensures
            n.mass == mass,
            n.mass_center == mass_center,
    {
        BarnesHutNode { mass, mass_center }
    }
}

/// Aggregated data for every node of a tree, indexed by node index.
pub struct BarnesHutWrapper {
    pub barnes_hut_data: Vec<Option<BarnesHutNode>>,
}

// ---------------------------------------------------------------------------
// Specification layer
// ---------------------------------------------------------------------------

/// The mass of item `e`.
pub open spec fn mass_fn(particles: Seq<Particle>) -> spec_fn(usize) -> int {
    |e: usize|
        if e < particles.len() {
            particles[e as int].mass as int
        } else {
            0
        }
}

/// The x-moment (position times mass) of item `e`.
pub open spec fn wx_fn(particles: Seq<Particle>) -> spec_fn(usize) -> int {
    |e: usize|
        if e < particles.len() {
            particles[e as int].position.x * particles[e as int].mass
        } else {
            0
        }
}

/// The y-moment of item `e`.
pub open spec fn wy_fn(particles: Seq<Particle>) -> spec_fn(usize) -> int {
    |e: usize|
        if e < particles.len() {
            particles[e as int].position.y * particles[e as int].mass
        } else {
            0
        }
}

/// Exact total mass stored under node `i`.
pub open spec fn subtree_mass(t: QuadTree, i: int, particles: Seq<Particle>) -> int {
    msum(subtree_bins(t, i), mass_fn(particles))
}

/// The x weighted-sum accumulator the hierarchy builder computes at node
/// `i`: a leaf sums the moments of its own points; a stem sums each child's
/// already-rounded centre times that child's mass.
pub open spec fn agg_wsum_x(t: QuadTree, i: int, particles: Seq<Particle>) -> int
    decreases t.nodes@.len() - i, 0int,
{
    if 0 <= i < t.nodes@.len() {
        match t.nodes@[i].leaves {
            Some(l) => {
                let l = l as int;
                if i < l && l + 4 <= t.nodes@.len() {
                    agg_center_x(t, l, particles) * subtree_mass(t, l, particles) + agg_center_x(
                        t,
                        l + 1,
                        particles,
                    ) * subtree_mass(t, l + 1, particles) + agg_center_x(t, l + 2, particles)
                        * subtree_mass(t, l + 2, particles) + agg_center_x(t, l + 3, particles)
                        * subtree_mass(t, l + 3, particles)
                } else {
                    0
                }
            },
            None => msum(subtree_bins(t, i), wx_fn(particles)),
        }
    } else {
        0
    }
}

/// The node's x centre of mass: the accumulator divided by the total mass,
/// or the raw accumulator when the mass is zero.
pub open spec fn agg_center_x(t: QuadTree, i: int, particles: Seq<Particle>) -> int
    decreases t.nodes@.len() - i, 1int,
{
    if subtree_mass(t, i, particles) > 0 {
        agg_wsum_x(t, i, particles) / subtree_mass(t, i, particles)
    } else {
        agg_wsum_x(t, i, particles)
    }
}

/// The y counterpart of `agg_wsum_x`.
pub open spec fn agg_wsum_y(t: QuadTree, i: int, particles: Seq<Particle>) -> int
    decreases t.nodes@.len() - i, 0int,
{
    if 0 <= i < t.nodes@.len() {
        match t.nodes@[i].leaves {
            Some(l) => {
                let l = l as int;
                if i < l && l + 4 <= t.nodes@.len() {
                    agg_center_y(t, l, particles) * subtree_mass(t, l, particles) + agg_center_y(
                        t,
                        l + 1,
                        particles,
                    ) * subtree_mass(t, l + 1, particles) + agg_center_y(t, l + 2, particles)
                        * subtree_mass(t, l + 2, particles) + agg_center_y(t, l + 3, particles)
                        * subtree_mass(t, l + 3, particles)
                } else {
                    0
                }
            },
            None => msum(subtree_bins(t, i), wy_fn(particles)),
        }
    } else {
        0
    }
}

/// The y counterpart of `agg_center_x`.
pub open spec fn agg_center_y(t: QuadTree, i: int, particles: Seq<Particle>) -> int
    decreases t.nodes@.len() - i, 1int,
{
    if subtree_mass(t, i, particles) > 0 {
        agg_wsum_y(t, i, particles) / subtree_mass(t, i, particles)
    } else {
        agg_wsum_y(t, i, particles)
    }
}

/// What one filled slot of the aggregation promises.
pub open spec fn agg_node_ok(
    t: QuadTree,
    particles: Seq<Particle>,
    slot: Option<BarnesHutNode>,
    j: int,
) -> bool {
    &&& slot is Some
    &&& slot->Some_0.mass == subtree_mass(t, j, particles)
    &&& slot->Some_0.mass_center.x == agg_center_x(t, j, particles)
    &&& slot->Some_0.mass_center.y == agg_center_y(t, j, particles)
}

/// The preconditions the whole aggregation pass works under.
pub open spec fn agg_inputs_ok(t: QuadTree, particles: Seq<Particle>) -> bool {
    &&& tree_wf(t)
    &&& linked_wf(t, positions_of(particles))
    &&& forall|c: int| 0 <= c < particles.len() ==> particle_ok(#[trigger] particles[c])
    &&& particles.len() <= COUNT_LIMIT
}

/// The aggregation is complete and correct for the whole tree.
pub open spec fn aggregated(bh: BarnesHutWrapper, t: QuadTree, particles: Seq<Particle>) -> bool {
    &&& bh.barnes_hut_data@.len() == t.nodes@.len()
    &&& forall|j: int|
        #[trigger] in_subtree(t, ROOT_INDEX as int, j) ==> agg_node_ok(
            t,
            particles,
            bh.barnes_hut_data@[j],
            j,
        )
}

// ---------------------------------------------------------------------------
// Lemmas
// ---------------------------------------------------------------------------

/// A sum over a stem's subtree splits into the four children's sums (the
/// stem itself holds no data).
pub proof fn lemma_subtree_msum_split(t: QuadTree, i: int, f: spec_fn(usize) -> int)
    requires
        tree_wf(t),
        0 <= i < t.nodes@.len(),
        stem_at(t, i),
    ensures
        msum(subtree_bins(t, i), f) == msum(subtree_bins(t, first_child(t, i)), f) + msum(
            subtree_bins(t, first_child(t, i) + 1),
            f,
        ) + msum(subtree_bins(t, first_child(t, i) + 2), f) + msum(
            subtree_bins(t, first_child(t, i) + 3),
            f,
        ),
{
    broadcast use vstd::seq_lib::group_to_multiset_ensures;
    broadcast use vstd::multiset::group_multiset_axioms;

    assert(node_wf(t, i));
    let l = first_child(t, i);
    let own = bin_seq(t, i).to_multiset();
    assert(bin_seq(t, i) =~= Seq::<usize>::empty());
    assert(own =~= Multiset::<usize>::empty());
    let s0 = subtree_bins(t, l);
    let s1 = subtree_bins(t, l + 1);
    let s2 = subtree_bins(t, l + 2);
    let s3 = subtree_bins(t, l + 3);
    assert(subtree_bins(t, i) == own.add(s0).add(s1).add(s2).add(s3));
    lemma_msum_empty(f);
    lemma_msum_add(own, s0, f);
    lemma_msum_add(own.add(s0), s1, f);
    lemma_msum_add(own.add(s0).add(s1), s2, f);
    lemma_msum_add(own.add(s0).add(s1).add(s2), s3, f);
}

/// Every aggregate is bounded: masses are non-negative, accumulators lie
/// between zero and `COORD_LIMIT` times the mass, and centres lie inside
/// the coordinate range.
pub proof fn lemma_agg_bounds(t: QuadTree, particles: Seq<Particle>, i: int)
    requires
        agg_inputs_ok(t, particles),
        0 <= i < t.nodes@.len(),
    ensures
        0 <= subtree_mass(t, i, particles),
        0 <= agg_wsum_x(t, i, particles) <= COORD_LIMIT * subtree_mass(t, i, particles),
        0 <= agg_wsum_y(t, i, particles) <= COORD_LIMIT * subtree_mass(t, i, particles),
        0 <= agg_center_x(t, i, particles) <= COORD_LIMIT,
        0 <= agg_center_y(t, i, particles) <= COORD_LIMIT,
    decreases t.nodes@.len() - i,
{
    broadcast use vstd::multiset::group_multiset_axioms;

    let pts = positions_of(particles);
    let m = subtree_mass(t, i, particles);
    assert(node_wf(t, i));
    lemma_msum_bound(subtree_bins(t, i), mass_fn(particles), MASS_LIMIT as int);
    if stem_at(t, i) {
        let l = first_child(t, i);
        lemma_agg_bounds(t, particles, l);
        lemma_agg_bounds(t, particles, l + 1);
        lemma_agg_bounds(t, particles, l + 2);
        lemma_agg_bounds(t, particles, l + 3);
        lemma_subtree_msum_split(t, i, mass_fn(particles));
        let m0 = subtree_mass(t, l, particles);
        let m1 = subtree_mass(t, l + 1, particles);
        let m2 = subtree_mass(t, l + 2, particles);
        let m3 = subtree_mass(t, l + 3, particles);
        let x0 = agg_center_x(t, l, particles);
        let x1 = agg_center_x(t, l + 1, particles);
        let x2 = agg_center_x(t, l + 2, particles);
        let x3 = agg_center_x(t, l + 3, particles);
        let y0 = agg_center_y(t, l, particles);
        let y1 = agg_center_y(t, l + 1, particles);
        let y2 = agg_center_y(t, l + 2, particles);
        let y3 = agg_center_y(t, l + 3, particles);
        assert(0 <= x0 * m0 <= COORD_LIMIT * m0 && 0 <= y0 * m0 <= COORD_LIMIT * m0)
            by (nonlinear_arith)
            requires
                0 <= x0 <= COORD_LIMIT,
                0 <= y0 <= COORD_LIMIT,
                0 <= m0,
        {
        }
        assert(0 <= x1 * m1 <= COORD_LIMIT * m1 && 0 <= y1 * m1 <= COORD_LIMIT * m1)
            by (nonlinear_arith)
            requires
                0 <= x1 <= COORD_LIMIT,
                0 <= y1 <= COORD_LIMIT,
                0 <= m1,
        {
        }
        assert(0 <= x2 * m2 <= COORD_LIMIT * m2 && 0 <= y2 * m2 <= COORD_LIMIT * m2)
            by (nonlinear_arith)
            requires
                0 <= x2 <= COORD_LIMIT,
                0 <= y2 <= COORD_LIMIT,
                0 <= m2,
        {
        }
        assert(0 <= x3 * m3 <= COORD_LIMIT * m3 && 0 <= y3 * m3 <= COORD_LIMIT * m3)
            by (nonlinear_arith)
            requires
                0 <= x3 <= COORD_LIMIT,
                0 <= y3 <= COORD_LIMIT,
                0 <= m3,
        {
        }
        assert(COORD_LIMIT * m0 + COORD_LIMIT * m1 + COORD_LIMIT * m2 + COORD_LIMIT * m3
            == COORD_LIMIT * m) by (nonlinear_arith)
            requires
                m == m0 + m1 + m2 + m3,
        {
        }
    } else {
        assert forall|e: usize|
            #![trigger (wx_fn(particles))(e)]
            #![trigger (wy_fn(particles))(e)]
            subtree_bins(t, i).count(e) > 0 implies (0 <= (wx_fn(particles))(e) && (wx_fn(
            particles,
        ))(e) <= COORD_LIMIT * (mass_fn(particles))(e) && 0 <= (mass_fn(particles))(e) && 0 <= (
        wy_fn(particles))(e) && (wy_fn(particles))(e) <= COORD_LIMIT * (mass_fn(particles))(
            e,
        )) by {
            lemma_subtree_points_inside(t, pts, i, e);
            let p = particles[e as int];
            assert(pts[e as int] == p.position);
            assert(contains_spec(t.nodes@[i].boundary, p.position));
            assert(0 <= p.position.x <= COORD_LIMIT && 0 <= p.position.y <= COORD_LIMIT);
            assert(particle_ok(p));
            assert(0 <= p.position.x * p.mass <= COORD_LIMIT * p.mass && 0 <= p.position.y * p.mass
                <= COORD_LIMIT * p.mass) by (nonlinear_arith)
                requires
                    0 <= p.position.x <= COORD_LIMIT,
                    0 <= p.position.y <= COORD_LIMIT,
                    0 <= p.mass,
            {
            }
        }
        lemma_msum_pairwise_bound(subtree_bins(t, i), wx_fn(particles), mass_fn(particles), COORD_LIMIT as int);
        lemma_msum_pairwise_bound(subtree_bins(t, i), wy_fn(particles), mass_fn(particles), COORD_LIMIT as int);
    }
    // centre bounds follow from the division
    if m > 0 {
        lemma_div_le(agg_wsum_x(t, i, particles), m, COORD_LIMIT * m, m);
        lemma_div_le(agg_wsum_y(t, i, particles), m, COORD_LIMIT * m, m);
        lemma_div_exact_multiple(COORD_LIMIT as int, m);
        assert(m * COORD_LIMIT == COORD_LIMIT * m) by (nonlinear_arith)
        {
        }
    } else {
        assert(COORD_LIMIT * m == 0) by (nonlinear_arith)
            requires
                m == 0,
        {
        }
    }
}

/// The exact sum of the masses of the first `n` particles.
pub open spec fn total_mass(particles: Seq<Particle>, n: int) -> int
    decreases n,
{
    if n <= 0 {
        0
    } else {
        total_mass(particles, n - 1) + particles[n - 1].mass
    }
}

/// What bulk construction stores holds at most one index per point.
pub proof fn lemma_inserted_upto_len(pts: Seq<Vec2>, b: BoundingBox, n: int)
    requires
        n >= 0,
    ensures
        crate::quadtree::inserted_upto(pts, b, n).len() <= n,
    decreases n,
{
    broadcast use vstd::multiset::group_multiset_axioms;

    if n > 0 {
        lemma_inserted_upto_len(pts, b, n - 1);
        if contains_spec(b, pts[n - 1]) {
            vstd::multiset::lemma_insert_len(
                crate::quadtree::inserted_upto(pts, b, n - 1),
                (n - 1) as usize,
            );
        }
    }
}

/// The mass stored by construction is the mass of the points it kept.
pub proof fn lemma_inserted_upto_mass(
    particles: Seq<Particle>,
    b: BoundingBox,
    n: int,
)
    requires
        0 <= n <= particles.len(),
        particles.len() <= usize::MAX,
        forall|i: int|
            0 <= i < n ==> contains_spec(b, (#[trigger] particles[i]).position),
    ensures
        msum(crate::quadtree::inserted_upto(positions_of(particles), b, n), mass_fn(particles))
            == total_mass(particles, n),
    decreases n,
{
    broadcast use vstd::multiset::group_multiset_axioms;

    let pts = positions_of(particles);
    if n > 0 {
        lemma_inserted_upto_mass(particles, b, n - 1);
        assert(pts[n - 1] == particles[n - 1].position);
        assert(contains_spec(b, pts[n - 1]));
        lemma_msum_insert(
            crate::quadtree::inserted_upto(pts, b, n - 1),
            mass_fn(particles),
            (n - 1) as usize,
        );
        assert((mass_fn(particles))((n - 1) as usize) == particles[n - 1].mass);
    }
}

/// Conservation: over an index that was built from points all lying inside
/// the root region, the root node's aggregated mass is exactly the sum of
/// every point's mass.
pub proof fn lemma_mass_conservation(bh: BarnesHutWrapper, t: QuadTree, particles: Seq<Particle>)
    requires
        tree_wf(t),
        particles.len() <= usize::MAX,
        aggregated(bh, t, particles),
        subtree_bins(t, ROOT_INDEX as int) == crate::quadtree::inserted_upto(
            positions_of(particles),
            t.nodes@[0].boundary,
            particles.len() as int,
        ),
        forall|i: int|
            0 <= i < particles.len() ==> contains_spec(
                t.nodes@[0].boundary,
                (#[trigger] particles[i]).position,
            ),
    ensures
        bh.barnes_hut_data@[0] is Some,
        bh.barnes_hut_data@[0]->Some_0.mass == total_mass(particles, particles.len() as int),
{
    assert(in_subtree(t, ROOT_INDEX as int, 0));
    assert(agg_node_ok(t, particles, bh.barnes_hut_data@[0], 0));
    lemma_inserted_upto_mass(particles, t.nodes@[0].boundary, particles.len() as int);
}

// ---------------------------------------------------------------------------
// The aggregation pass
// ---------------------------------------------------------------------------

impl BarnesHutWrapper {
    pub fn new() -> (bh: BarnesHutWrapper)
        ensures
            bh.barnes_hut_data@.len() == 0,
    {
        BarnesHutWrapper { barnes_hut_data: Vec::new() }
    }

    /// One post-order pass over the index: afterwards every reachable node
    /// has its exact subtree mass and its (truncated) centre of mass.
    pub fn build_hierarchy(&mut self, tree: &QuadTree, particles: &[Particle])
        requires
            agg_inputs_ok(*tree, particles@),
            subtree_mass(*tree, ROOT_INDEX as int, particles@) <= MASS_SUM_LIMIT,
        ensures
            aggregated(*final(self), *tree, particles@),
    {
        self.init_vector(tree);
        self.builder(ROOT_INDEX, tree, particles);
    }

    fn init_vector(&mut self, tree: &QuadTree)
        ensures
            final(self).barnes_hut_data@.len() == tree.nodes@.len(),
    {
        self.barnes_hut_data.clear();
        let n = tree.nodes.len();
        let mut c: usize = 0;
        while c < n
            invariant
                c <= n,
                self.barnes_hut_data@.len() == c,
            decreases n - c,
        {
            self.barnes_hut_data.push(None);
            c = c + 1;
        }
    }

    fn builder(&mut self, target_index: usize, tree: &QuadTree, particles: &[Particle]) -> (node:
        BarnesHutNode)
        requires
            agg_inputs_ok(*tree, particles@),
            target_index < tree.nodes@.len(),
            old(self).barnes_hut_data@.len() == tree.nodes@.len(),
            subtree_mass(*tree, target_index as int, particles@) <= MASS_SUM_LIMIT,
        ensures
            final(self).barnes_hut_data@.len() == old(self).barnes_hut_data@.len(),
            forall|j: int|
                #![trigger final(self).barnes_hut_data@[j]]
                0 <= j < old(self).barnes_hut_data@.len() && !in_subtree(
                    *tree,
                    target_index as int,
                    j,
                ) ==> final(self).barnes_hut_data@[j] == old(self).barnes_hut_data@[j],
            forall|j: int|
                #[trigger] in_subtree(*tree, target_index as int, j) ==> agg_node_ok(
                    *tree,
                    particles@,
                    final(self).barnes_hut_data@[j],
                    j,
                ),
            node.mass == subtree_mass(*tree, target_index as int, particles@),
            node.mass_center.x == agg_center_x(*tree, target_index as int, particles@),
            node.mass_center.y == agg_center_y(*tree, target_index as int, particles@),
        decreases tree.nodes@.len() - target_index,
    {
        broadcast use vstd::seq_lib::group_to_multiset_ensures;
        broadcast use vstd::multiset::group_multiset_axioms;

        let ghost t = *tree;
        let ghost ps = particles@;
        let ghost ii = target_index as int;
        let ghost pts = positions_of(ps);
        proof {
            assert(node_wf(t, ii));
            lemma_agg_bounds(t, ps, ii);
        }
        let mut mass: i128 = 0;
        let mut wx: i128 = 0;
        let mut wy: i128 = 0;

        let node_here = tree.nodes[target_index];
        let node_total = tree.nodes.len();
        if let Some(leaf_start) = node_here.leaves {
            let ghost l = leaf_start as int;
            proof {
                assert(l + 4 <= node_total);
            }
            proof {
                lemma_subtree_msum_split(t, ii, mass_fn(ps));
                lemma_agg_bounds(t, ps, l);
                lemma_agg_bounds(t, ps, l + 1);
                lemma_agg_bounds(t, ps, l + 2);
                lemma_agg_bounds(t, ps, l + 3);
            }
            let c0 = self.builder(leaf_start, tree, particles);
            let c1 = self.builder(leaf_start + 1, tree, particles);
            proof {
                assert forall|j: int| in_subtree(t, l, j) implies agg_node_ok(
                    t,
                    ps,
                    self.barnes_hut_data@[j],
                    j,
                ) by {
                    lemma_sibling_subtrees_disjoint(t, ii, l + 1, l, j);
                    lemma_in_subtree_bounds(t, l, j);
                }
            }
            let c2 = self.builder(leaf_start + 2, tree, particles);
            proof {
                assert forall|j: int| in_subtree(t, l, j) || in_subtree(t, l + 1, j) implies (
                agg_node_ok(t, ps, self.barnes_hut_data@[j], j)) by {
                    if in_subtree(t, l, j) {
                        lemma_sibling_subtrees_disjoint(t, ii, l + 2, l, j);
                        lemma_in_subtree_bounds(t, l, j);
                    } else {
                        lemma_sibling_subtrees_disjoint(t, ii, l + 2, l + 1, j);
                        lemma_in_subtree_bounds(t, l + 1, j);
                    }
                }
            }
            let c3 = self.builder(leaf_start + 3, tree, particles);
            proof {
                assert forall|j: int|
                    in_subtree(t, l, j) || in_subtree(t, l + 1, j) || in_subtree(
                        t,
                        l + 2,
                        j,
                    ) implies (agg_node_ok(t, ps, self.barnes_hut_data@[j], j)) by {
                    if in_subtree(t, l, j) {
                        lemma_sibling_subtrees_disjoint(t, ii, l + 3, l, j);
                        lemma_in_subtree_bounds(t, l, j);
                    } else if in_subtree(t, l + 1, j) {
                        lemma_sibling_subtrees_disjoint(t, ii, l + 3, l + 1, j);
                        lemma_in_subtree_bounds(t, l + 1, j);
                    } else {
                        lemma_sibling_subtrees_disjoint(t, ii, l + 3, l + 2, j);
                        lemma_in_subtree_bounds(t, l + 2, j);
                    }
                }
            }
            proof {
                let m0 = subtree_mass(t, l, ps);
                let m1 = subtree_mass(t, l + 1, ps);
                let m2 = subtree_mass(t, l + 2, ps);
                let m3 = subtree_mass(t, l + 3, ps);
                assert(c0.mass == m0 && c1.mass == m1 && c2.mass == m2 && c3.mass == m3);
                assert(m0 + m1 + m2 + m3 == subtree_mass(t, ii, ps));
                assert(0 <= c0.mass_center.x * m0 <= COORD_LIMIT * m0 && 0 <= c0.mass_center.y
                    * m0 <= COORD_LIMIT * m0) by (nonlinear_arith)
                    requires
                        0 <= c0.mass_center.x <= COORD_LIMIT,
                        0 <= c0.mass_center.y <= COORD_LIMIT,
                        0 <= m0,
                        c0.mass_center.x == agg_center_x(t, l, ps),
                        c0.mass_center.y == agg_center_y(t, l, ps),
                        agg_center_x(t, l, ps) == c0.mass_center.x,
                {
                }
                assert(0 <= c1.mass_center.x * m1 <= COORD_LIMIT * m1 && 0 <= c1.mass_center.y
                    * m1 <= COORD_LIMIT * m1) by (nonlinear_arith)
                    requires
                        0 <= c1.mass_center.x <= COORD_LIMIT,
                        0 <= c1.mass_center.y <= COORD_LIMIT,
                        0 <= m1,
                {
                }
                assert(0 <= c2.mass_center.x * m2 <= COORD_LIMIT * m2 && 0 <= c2.mass_center.y
                    * m2 <= COORD_LIMIT * m2) by (nonlinear_arith)
                    requires
                        0 <= c2.mass_center.x <= COORD_LIMIT,
                        0 <= c2.mass_center.y <= COORD_LIMIT,
                        0 <= m2,
                {
                }
                assert(0 <= c3.mass_center.x * m3 <= COORD_LIMIT * m3 && 0 <= c3.mass_center.y
                    * m3 <= COORD_LIMIT * m3) by (nonlinear_arith)
                    requires
                        0 <= c3.mass_center.x <= COORD_LIMIT,
                        0 <= c3.mass_center.y <= COORD_LIMIT,
                        0 <= m3,
                {
                }
                assert(COORD_LIMIT * m0 + COORD_LIMIT * m1 + COORD_LIMIT * m2 + COORD_LIMIT * m3
                    == COORD_LIMIT * (m0 + m1 + m2 + m3)) by (nonlinear_arith)
                {
                }
                assert(COORD_LIMIT * (m0 + m1 + m2 + m3) <= COORD_LIMIT * MASS_SUM_LIMIT)
                    by (nonlinear_arith)
                    requires
                        m0 + m1 + m2 + m3 <= MASS_SUM_LIMIT,
                {
                }
            }
            mass = c0.mass + c1.mass + c2.mass + c3.mass;
            wx = c0.mass_center.x * c0.mass + c1.mass_center.x * c1.mass + c2.mass_center.x
                * c2.mass + c3.mass_center.x * c3.mass;
            wy = c0.mass_center.y * c0.mass + c1.mass_center.y * c1.mass + c2.mass_center.y
                * c2.mass + c3.mass_center.y * c3.mass;
            proof {
                assert(mass == subtree_mass(t, ii, ps));
                assert(wx == agg_wsum_x(t, ii, ps));
                assert(wy == agg_wsum_y(t, ii, ps));
            }
        } else if let Some(node_list_index) = node_here.data_head {
            let bin = &tree.node_pointers[node_list_index];
            let ghost bs = bin_seq(t, ii);
            proof {
                assert(bs == bin@);
                assert(subtree_bins(t, ii) == bs.to_multiset());
            }
            let bin_len = bin.len();
            let mut c: usize = 0;
            while c < bin_len
                invariant
                    agg_inputs_ok(t, ps),
                    t == *tree,
                    ps == particles@,
                    pts == positions_of(ps),
                    ii == target_index as int,
                    0 <= ii < t.nodes@.len(),
                    bs == bin_seq(t, ii),
                    subtree_bins(t, ii) == bs.to_multiset(),
                    subtree_mass(t, ii, ps) <= MASS_SUM_LIMIT,
                    bin@ == bs,
                    bin_len == bs.len(),
                    c <= bin_len,
                    mass == msum(bs.take(c as int).to_multiset(), mass_fn(ps)),
                    wx == msum(bs.take(c as int).to_multiset(), wx_fn(ps)),
                    wy == msum(bs.take(c as int).to_multiset(), wy_fn(ps)),
                    0 <= mass <= subtree_mass(t, ii, ps),
                    0 <= wx <= COORD_LIMIT * mass,
                    0 <= wy <= COORD_LIMIT * mass,
                decreases bin_len - c,
            {
                broadcast use vstd::seq_lib::group_to_multiset_ensures;
                broadcast use vstd::multiset::group_multiset_axioms;

                let e = bin[c];
                proof {
                    assert(bs[c as int] == e);
                    assert(subtree_bins(t, ii).count(e) > 0) by {
                        assert(bs.contains(e));
                    }
                    lemma_subtree_points_inside(t, pts, ii, e);
                    assert(pts[e as int] == ps[e as int].position);
                    assert(contains_spec(t.nodes@[ii].boundary, ps[e as int].position));
                    assert(node_wf(t, ii));
                    assert(box_wf(t.nodes@[ii].boundary));
                    assert(particle_ok(ps[e as int]));
                }
                let p = particles[e];
                proof {
                    let q = ps[e as int];
                    assert(0 <= q.position.x * q.mass <= COORD_LIMIT * q.mass && 0
                        <= q.position.y * q.mass <= COORD_LIMIT * q.mass) by (nonlinear_arith)
                        requires
                            0 <= q.position.x <= COORD_LIMIT,
                            0 <= q.position.y <= COORD_LIMIT,
                            0 <= q.mass,
                    {
                    }
                    // the remaining suffix keeps the totals bounded
                    assert(bs =~= bs.take(c as int) + bs.skip(c as int));
                    vstd::seq_lib::lemma_multiset_commutative(bs.take(c as int), bs.skip(c as int));
                    lemma_msum_add(
                        bs.take(c as int).to_multiset(),
                        bs.skip(c as int).to_multiset(),
                        mass_fn(ps),
                    );
                    lemma_msum_bound(bs.skip(c as int).to_multiset(), mass_fn(ps), MASS_LIMIT as int);
                    assert(bs.take(c as int + 1) =~= bs.take(c as int).push(e));
                    lemma_msum_insert(bs.take(c as int).to_multiset(), mass_fn(ps), e);
                    lemma_msum_insert(bs.take(c as int).to_multiset(), wx_fn(ps), e);
                    lemma_msum_insert(bs.take(c as int).to_multiset(), wy_fn(ps), e);
                    assert((mass_fn(ps))(e) == q.mass);
                    assert((wx_fn(ps))(e) == q.position.x * q.mass);
                    assert((wy_fn(ps))(e) == q.position.y * q.mass);
                    // mass + q.mass is still at most the subtree total
                    lemma_msum_bound(bs.skip(c as int).to_multiset().remove(e), mass_fn(ps), MASS_LIMIT as int);
                    assert(bs.skip(c as int).to_multiset().count(e) > 0) by {
                        assert(bs.skip(c as int)[0] == e);
                        assert(bs.skip(c as int).contains(e));
                    }
                    lemma_msum_remove(bs.skip(c as int).to_multiset(), mass_fn(ps), e);
                    assert(COORD_LIMIT * (mass + q.mass) == COORD_LIMIT * mass + COORD_LIMIT
                        * q.mass) by (nonlinear_arith)
                    {
                    }
                    assert(q.position.x * q.mass <= COORD_LIMIT * q.mass && q.position.y * q.mass
                        <= COORD_LIMIT * q.mass);
                }
                mass = mass + p.mass;
                wx = wx + p.position.x * p.mass;
                wy = wy + p.position.y * p.mass;
                c = c + 1;
            }
            proof {
                assert(bs.take(bin_len as int) =~= bs);
                assert(mass == subtree_mass(t, ii, ps));
                assert(wx == agg_wsum_x(t, ii, ps));
                assert(wy == agg_wsum_y(t, ii, ps));
            }
        } else {
            proof {
                assert(bin_seq(t, ii) =~= Seq::<usize>::empty());
                assert(subtree_bins(t, ii) =~= Multiset::<usize>::empty());
                lemma_msum_empty(mass_fn(ps));
                lemma_msum_empty(wx_fn(ps));
                lemma_msum_empty(wy_fn(ps));
                assert(mass == subtree_mass(t, ii, ps));
                assert(wx == agg_wsum_x(t, ii, ps));
                assert(wy == agg_wsum_y(t, ii, ps));
            }
        }

        let updated = self.update_node(target_index, mass, Vec2::new(wx, wy));
        proof {
            assert(agg_node_ok(t, ps, self.barnes_hut_data@[ii], ii));
            assert forall|j: int| #[trigger] in_subtree(t, ii, j) implies agg_node_ok(
                t,
                ps,
                self.barnes_hut_data@[j],
                j,
            ) by {
                if j != ii {
                    lemma_in_subtree_bounds(t, ii, j);
                }
            }
        }
        updated
    }

    /// Stores one aggregated node: divide the accumulator by the mass when
    /// it is positive, keep the raw accumulator otherwise.
    fn update_node(&mut self, target_index: usize, mass: i128, mass_center: Vec2) -> (node:
        BarnesHutNode)
        requires
            target_index < old(self).barnes_hut_data@.len(),
            0 <= mass,
            0 <= mass_center.x,
            0 <= mass_center.y,
        ensures
            final(self).barnes_hut_data@.len() == old(self).barnes_hut_data@.len(),
            forall|j: int|
                #![trigger final(self).barnes_hut_data@[j]]
                0 <= j < old(self).barnes_hut_data@.len() && j != target_index as int
                    ==> final(self).barnes_hut_data@[j] == old(self).barnes_hut_data@[j],
            final(self).barnes_hut_data@[target_index as int] == Some(node),
            node.mass == mass,
            node.mass_center.x == (if mass > 0 {
                mass_center.x as int / mass as int
            } else {
                mass_center.x as int
            }),
            node.mass_center.y == (if mass > 0 {
                mass_center.y as int / mass as int
            } else {
                mass_center.y as int
            }),
    {
        let center = if mass > 0 {
            let cx = ((mass_center.x as u128) / (mass as u128)) as i128;
            let cy = ((mass_center.y as u128) / (mass as u128)) as i128;
            proof {
                lemma_div_le(mass_center.x as int, mass as int, mass_center.x as int, mass as int);
                lemma_div_le(mass_center.y as int, mass as int, mass_center.y as int, mass as int);
            }
            Vec2::new(cx, cy)
        } else {
            mass_center
        };
        let node = BarnesHutNode::build(mass, center);
        self.barnes_hut_data[target_index] = Some(node);
        node
    }
}

} // verus!
