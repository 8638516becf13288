//! Simulation state: particles, tunable parameters, and the per-tick force
//! computations — the exact pairwise sum and the Barnes-Hut approximation.
//!
//! All quantities are scaled integers. The limits below are what keep every
//! intermediate product inside `i128`; callers pick units so that their
//! values fit (for example thousandths of a pixel and thousandths of a mass
//! unit).

use vstd::prelude::*;

use crate::arith::lemma_div_exact_multiple;
use crate::arith::lemma_div_le;
use crate::arith::lemma_msum_bound;
use crate::arith::isqrt;
use crate::arith::lemma_sqrt_floor_bounds;
use crate::arith::sqrt_floor;
use crate::barnes_hut::agg_center_x;
use crate::barnes_hut::agg_center_y;
use crate::barnes_hut::agg_inputs_ok;
use crate::barnes_hut::agg_node_ok;
use crate::barnes_hut::aggregated;
use crate::barnes_hut::lemma_agg_bounds;
use crate::barnes_hut::lemma_subtree_msum_split;
use crate::barnes_hut::mass_fn;
use crate::barnes_hut::subtree_mass;
use crate::barnes_hut::BarnesHutWrapper;
use crate::barnes_hut::MASS_SUM_LIMIT;
use crate::quadtree::first_child;
use crate::quadtree::in_subtree;
use crate::quadtree::lemma_child_subtree_sub;
use crate::quadtree::node_wf;
use crate::quadtree::stem_at;
use crate::quadtree::subtree_bins;
use crate::quadtree::tree_wf;
use crate::quadtree::PositionPlanar;
use crate::quadtree::QuadTree;
use crate::utils::box_wf;
use crate::utils::BoundingBox;
use crate::utils::max_dim_spec;
use crate::utils::Vec2;
use crate::utils::COORD_LIMIT;

verus! {

/// Largest mass of a single particle.
pub const MASS_LIMIT: i128 = 1_073_741_824;

/// Largest number of particles one simulation holds.
pub const COUNT_LIMIT: usize = 1_073_741_824;

/// Largest gravitational constant.
pub const GRAVITY_LIMIT: i128 = 1_073_741_824;

/// Largest softening term (a squared distance).
pub const SOFTENING_LIMIT: i128 = 4_611_686_018_427_387_904;

/// `theta` is scaled by this: a stored value of 500 means one half.
pub const THETA_SCALE: i128 = 1000;

/// Largest scaled `theta`.
pub const THETA_LIMIT: i128 = 1_000_000;

/// Time steps are scaled by this: a stored `dt` of 1000 is one time unit.
pub const DT_SCALE: i128 = 1000;

/// Largest scaled time step for one tick.
pub const DT_LIMIT: i128 = 1_000_000;

/// Largest velocity component magnitude the integrator accepts.
pub const VELOCITY_LIMIT: i128 = 1_208_925_819_614_629_174_706_176;

/// Largest acceleration component magnitude the integrator accepts: the
/// force model never exceeds `GRAVITY_LIMIT` times the total mass.
pub const ACCEL_LIMIT: i128 = 1_237_940_039_285_380_274_899_124_224;

/// A point mass: position, velocity, acceleration and mass, all in scaled
/// integer units.
#[derive(Clone, Copy, Debug, PartialEq)]
pub struct Particle {
    pub position: Vec2,
    pub velocity: Vec2,
    pub acceleration: Vec2,
    pub mass: i128,
}

/// The bounds under which every computation on a particle stays exact.
pub open spec fn particle_ok(p: Particle) -> bool {
    0 <= p.mass <= MASS_LIMIT
}

impl Particle {
    pub fn new(position: Vec2, velocity: Vec2, mass: i128) -> (p: Particle)
        ensures
            p.position == position,
            p.velocity == velocity,
            p.acceleration == (Vec2 { x: 0, y: 0 }),
            p.mass == mass,
    {
        Particle { position, velocity, acceleration: Vec2 { x: 0, y: 0 }, mass }
    }
}

impl PositionPlanar for Particle {
    open spec fn pos_spec(&self) -> Vec2 {
        self.position
    }

    fn position(&self) -> (v: Vec2) {
        self.position
    }
}

/// The tunable parameters of one simulation, threaded explicitly through
/// each tick. `theta` is scaled by `THETA_SCALE`, `frame_time_dt_mod` by
/// `DT_SCALE`; the randomisation ranges only steer the caller's spawning.
#[derive(Clone, Copy, Debug, PartialEq)]
pub struct SimulationConfig {
    pub starting_spawn: usize,
    pub gravity: i128,
    pub epsilon_squared: i128,
    pub theta: i128,
    pub velocity_rand_max: i128,
    pub mass_rand_max: i128,
    pub frame_time_dt_mod: i128,
    pub neighbor_distance: i128,
}

pub open spec fn cfg_wf(cfg: SimulationConfig) -> bool {
    &&& 0 <= cfg.gravity <= GRAVITY_LIMIT
    &&& 0 <= cfg.epsilon_squared <= SOFTENING_LIMIT
    &&& 0 <= cfg.theta <= THETA_LIMIT
    &&& 0 <= cfg.frame_time_dt_mod <= DT_SCALE
    &&& 0 <= cfg.neighbor_distance <= COORD_LIMIT
}

// ---------------------------------------------------------------------------
// Force specification
// ---------------------------------------------------------------------------

/// The x component of the acceleration one pseudo-mass `m` at offset
/// `(px, py)` exerts: `px / d` times `gravity * m / (d*d + softening)`,
/// computed as a single truncated division of non-negative integers with
/// the sign of `px` applied last. A zero integer distance contributes
/// nothing (the degenerate-separation guard).
pub open spec fn contrib_x(px: int, py: int, gravity: int, m: int, soft: int) -> int {
    let d = sqrt_floor(px * px + py * py);
    if d == 0 {
        0
    } else {
        let den = d * (d * d + soft);
        if px >= 0 {
            (px * gravity * m) / den
        } else {
            -(((-px) * gravity * m) / den)
        }
    }
}

/// The y component of the same contribution: the roles of the offsets
/// swap.
pub open spec fn contrib_y(px: int, py: int, gravity: int, m: int, soft: int) -> int {
    contrib_x(py, px, gravity, m, soft)
}

/// The theta acceptance test: the node of size `s` at distance `d` is far
/// enough to treat as a single pseudo-mass when `s/d < theta`.
pub open spec fn accepts(s: int, d: int, theta: int) -> bool {
    s * THETA_SCALE < theta * d
}

/// The x acceleration the Barnes-Hut descent from node `i` accumulates for
/// a target at `target`: stop at distance zero, take a far-enough node (or
/// any leaf) as one pseudo-mass at its aggregated centre, otherwise open
/// the node and sum its four children.
pub open spec fn bh_accel_x(
    t: QuadTree,
    ps: Seq<Particle>,
    i: int,
    target: Vec2,
    cfg: SimulationConfig,
) -> int
    decreases t.nodes@.len() - i,
{
    if 0 <= i < t.nodes@.len() {
        let m = subtree_mass(t, i, ps);
        let px = agg_center_x(t, i, ps) - target.x;
        let py = agg_center_y(t, i, ps) - target.y;
        let d = sqrt_floor(px * px + py * py);
        if d == 0 {
            0
        } else {
            match t.nodes@[i].leaves {
                None => contrib_x(px, py, cfg.gravity as int, m, cfg.epsilon_squared as int),
                Some(l) => {
                    let l = l as int;
                    if accepts(max_dim_spec(t.nodes@[i].boundary), d, cfg.theta as int) {
                        contrib_x(px, py, cfg.gravity as int, m, cfg.epsilon_squared as int)
                    } else if i < l && l + 4 <= t.nodes@.len() {
                        bh_accel_x(t, ps, l, target, cfg) + bh_accel_x(t, ps, l + 1, target, cfg)
                            + bh_accel_x(t, ps, l + 2, target, cfg) + bh_accel_x(
                            t,
                            ps,
                            l + 3,
                            target,
                            cfg,
                        )
                    } else {
                        0
                    }
                },
            }
        }
    } else {
        0
    }
}

/// The y counterpart of `bh_accel_x`.
pub open spec fn bh_accel_y(
    t: QuadTree,
    ps: Seq<Particle>,
    i: int,
    target: Vec2,
    cfg: SimulationConfig,
) -> int
    decreases t.nodes@.len() - i,
{
    if 0 <= i < t.nodes@.len() {
        let m = subtree_mass(t, i, ps);
        let px = agg_center_x(t, i, ps) - target.x;
        let py = agg_center_y(t, i, ps) - target.y;
        let d = sqrt_floor(px * px + py * py);
        if d == 0 {
            0
        } else {
            match t.nodes@[i].leaves {
                None => contrib_y(px, py, cfg.gravity as int, m, cfg.epsilon_squared as int),
                Some(l) => {
                    let l = l as int;
                    if accepts(max_dim_spec(t.nodes@[i].boundary), d, cfg.theta as int) {
                        contrib_y(px, py, cfg.gravity as int, m, cfg.epsilon_squared as int)
                    } else if i < l && l + 4 <= t.nodes@.len() {
                        bh_accel_y(t, ps, l, target, cfg) + bh_accel_y(t, ps, l + 1, target, cfg)
                            + bh_accel_y(t, ps, l + 2, target, cfg) + bh_accel_y(
                            t,
                            ps,
                            l + 3,
                            target,
                            cfg,
                        )
                    } else {
                        0
                    }
                },
            }
        }
    } else {
        0
    }
}

/// One contribution never exceeds `gravity` times the pseudo-mass.
pub proof fn lemma_contrib_bound(px: int, py: int, gravity: int, m: int, soft: int)
    requires
        0 <= gravity,
        0 <= m,
        0 <= soft,
    ensures
        -(gravity * m) <= contrib_x(px, py, gravity, m, soft) <= gravity * m,
        -(gravity * m) <= contrib_y(px, py, gravity, m, soft) <= gravity * m,
{
    lemma_contrib_bound_one(px, py, gravity, m, soft);
    lemma_contrib_bound_one(py, px, gravity, m, soft);
}

proof fn lemma_contrib_bound_one(px: int, py: int, gravity: int, m: int, soft: int)
    requires
        0 <= gravity,
        0 <= m,
        0 <= soft,
    ensures
        -(gravity * m) <= contrib_x(px, py, gravity, m, soft) <= gravity * m,
{
    let n = px * px + py * py;
    assert(n >= 0 && px * px <= n) by (nonlinear_arith)
        requires
            n == px * px + py * py,
    {
    }
    lemma_sqrt_floor_bounds(n);
    let d = sqrt_floor(n);
    assert(0 <= gravity * m) by (nonlinear_arith)
        requires
            0 <= gravity,
            0 <= m,
    {
    }
    if d != 0 {
        let ax = if px >= 0 {
            px
        } else {
            -px
        };
        // |px| <= d since px*px <= n < (d+1)^2
        assert(ax <= d) by (nonlinear_arith)
            requires
                n == px * px + py * py,
                ax == px || ax == -px,
                n < (d + 1) * (d + 1),
                0 <= ax,
                0 <= d,
        {
        }
        let den = d * (d * d + soft);
        assert(d <= den && ax * gravity * m <= d * (gravity * m)) by (nonlinear_arith)
            requires
                den == d * (d * d + soft),
                1 <= d,
                0 <= soft,
                0 <= ax <= d,
                0 <= gravity,
                0 <= m,
        {
        }
        assert(0 <= ax * gravity * m) by (nonlinear_arith)
            requires
                0 <= ax,
                0 <= gravity,
                0 <= m,
        {
        }
        lemma_div_le(ax * gravity * m, den, d * (gravity * m), d);
        lemma_div_exact_multiple(gravity * m, d);
        assert((ax * gravity * m) / den <= gravity * m);
    }
}

/// Truncating signed division: the quotient of the magnitudes with the
/// dividend's sign, as machine division computes it.
pub open spec fn tdiv(a: int, b: int) -> int {
    if a >= 0 {
        a / b
    } else {
        -((-a) / b)
    }
}

/// The exact pairwise acceleration (x component) on the particle at index
/// `ti`, summed over the first `n` particles, skipping the self-pair; a
/// coincident pair (integer distance zero) contributes nothing.
pub open spec fn pairwise_accel_x(
    ps: Seq<Particle>,
    ti: int,
    n: int,
    cfg: SimulationConfig,
) -> int
    decreases n,
{
    if n <= 0 {
        0
    } else {
        let prev = pairwise_accel_x(ps, ti, n - 1, cfg);
        if n - 1 == ti {
            prev
        } else {
            prev + contrib_x(
                ps[n - 1].position.x - ps[ti].position.x,
                ps[n - 1].position.y - ps[ti].position.y,
                cfg.gravity as int,
                ps[n - 1].mass as int,
                cfg.epsilon_squared as int,
            )
        }
    }
}

/// The y counterpart of `pairwise_accel_x`.
pub open spec fn pairwise_accel_y(
    ps: Seq<Particle>,
    ti: int,
    n: int,
    cfg: SimulationConfig,
) -> int
    decreases n,
{
    if n <= 0 {
        0
    } else {
        let prev = pairwise_accel_y(ps, ti, n - 1, cfg);
        if n - 1 == ti {
            prev
        } else {
            prev + contrib_y(
                ps[n - 1].position.x - ps[ti].position.x,
                ps[n - 1].position.y - ps[ti].position.y,
                cfg.gravity as int,
                ps[n - 1].mass as int,
                cfg.epsilon_squared as int,
            )
        }
    }
}

/// The pairwise sum is bounded by `gravity` times the total mass.
pub proof fn lemma_pairwise_bound(ps: Seq<Particle>, ti: int, n: int, cfg: SimulationConfig)
    requires
        cfg_wf(cfg),
        0 <= n <= ps.len(),
        forall|c: int| 0 <= c < ps.len() ==> particle_ok(#[trigger] ps[c]),
    ensures
        -(cfg.gravity * crate::barnes_hut::total_mass(ps, n)) <= pairwise_accel_x(ps, ti, n, cfg)
            <= cfg.gravity * crate::barnes_hut::total_mass(ps, n),
        -(cfg.gravity * crate::barnes_hut::total_mass(ps, n)) <= pairwise_accel_y(ps, ti, n, cfg)
            <= cfg.gravity * crate::barnes_hut::total_mass(ps, n),
        0 <= crate::barnes_hut::total_mass(ps, n),
    decreases n,
{
    let g = cfg.gravity as int;
    if n > 0 {
        lemma_pairwise_bound(ps, ti, n - 1, cfg);
        let m = ps[n - 1].mass as int;
        lemma_contrib_bound(
            ps[n - 1].position.x - ps[ti].position.x,
            ps[n - 1].position.y - ps[ti].position.y,
            g,
            m,
            cfg.epsilon_squared as int,
        );
        assert(g * crate::barnes_hut::total_mass(ps, n - 1) + g * m == g
            * crate::barnes_hut::total_mass(ps, n)) by (nonlinear_arith)
            requires
                crate::barnes_hut::total_mass(ps, n) == crate::barnes_hut::total_mass(ps, n - 1)
                    + m,
        {
        }
    }
}

/// The whole descent never exceeds `gravity` times the subtree's mass: an
/// accepted node contributes at most that, and opening a node splits its
/// mass exactly among the children.
pub proof fn lemma_bh_accel_bound(
    t: QuadTree,
    ps: Seq<Particle>,
    i: int,
    target: Vec2,
    cfg: SimulationConfig,
)
    requires
        agg_inputs_ok(t, ps),
        cfg_wf(cfg),
        0 <= i < t.nodes@.len(),
    ensures
        -(cfg.gravity * subtree_mass(t, i, ps)) <= bh_accel_x(t, ps, i, target, cfg) <= cfg.gravity
            * subtree_mass(t, i, ps),
        -(cfg.gravity * subtree_mass(t, i, ps)) <= bh_accel_y(t, ps, i, target, cfg) <= cfg.gravity
            * subtree_mass(t, i, ps),
        0 <= subtree_mass(t, i, ps),
    decreases t.nodes@.len() - i,
{
    lemma_msum_bound(subtree_bins(t, i), mass_fn(ps), MASS_LIMIT as int);
    let m = subtree_mass(t, i, ps);
    let px = agg_center_x(t, i, ps) - target.x;
    let py = agg_center_y(t, i, ps) - target.y;
    let g = cfg.gravity as int;
    lemma_contrib_bound(px, py, g, m, cfg.epsilon_squared as int);
    assert(node_wf(t, i));
    if stem_at(t, i) {
        let l = first_child(t, i);
        lemma_bh_accel_bound(t, ps, l, target, cfg);
        lemma_bh_accel_bound(t, ps, l + 1, target, cfg);
        lemma_bh_accel_bound(t, ps, l + 2, target, cfg);
        lemma_bh_accel_bound(t, ps, l + 3, target, cfg);
        lemma_subtree_msum_split(t, i, mass_fn(ps));
        let m0 = subtree_mass(t, l, ps);
        let m1 = subtree_mass(t, l + 1, ps);
        let m2 = subtree_mass(t, l + 2, ps);
        let m3 = subtree_mass(t, l + 3, ps);
        assert(g * m0 + g * m1 + g * m2 + g * m3 == g * m) by (nonlinear_arith)
            requires
                m == m0 + m1 + m2 + m3,
        {
        }
    }
}

// ---------------------------------------------------------------------------
// The exact limit of the approximation
// ---------------------------------------------------------------------------

/// The pairwise contribution of stored point `e` towards a target.
pub open spec fn contrib_fn_x(ps: Seq<Particle>, target: Vec2, cfg: SimulationConfig) -> spec_fn(
    usize,
) -> int {
    |e: usize|
        if e < ps.len() {
            contrib_x(
                ps[e as int].position.x - target.x,
                ps[e as int].position.y - target.y,
                cfg.gravity as int,
                ps[e as int].mass as int,
                cfg.epsilon_squared as int,
            )
        } else {
            0
        }
}

pub open spec fn contrib_fn_y(ps: Seq<Particle>, target: Vec2, cfg: SimulationConfig) -> spec_fn(
    usize,
) -> int {
    |e: usize|
        if e < ps.len() {
            contrib_y(
                ps[e as int].position.x - target.x,
                ps[e as int].position.y - target.y,
                cfg.gravity as int,
                ps[e as int].mass as int,
                cfg.epsilon_squared as int,
            )
        } else {
            0
        }
}

/// No stem of the subtree has its aggregated centre exactly on the target
/// (the degenerate-distance guard would otherwise prune a live branch).
pub open spec fn no_stem_center_hit(t: QuadTree, ps: Seq<Particle>, i: int, target: Vec2) -> bool {
    forall|j: int|
        #[trigger] in_subtree(t, i, j) && stem_at(t, j) ==> !(agg_center_x(t, j, ps) == target.x
            && agg_center_y(t, j, ps) == target.y)
}

/// With `theta` at zero the descent opens every stem and visits every leaf;
/// when each leaf holds at most one point, what it accumulates is exactly
/// the pairwise contribution of every stored point.
pub proof fn lemma_theta_zero_exact(
    t: QuadTree,
    ps: Seq<Particle>,
    i: int,
    target: Vec2,
    cfg: SimulationConfig,
)
    requires
        agg_inputs_ok(t, ps),
        cfg_wf(cfg),
        cfg.theta == 0,
        0 <= i < t.nodes@.len(),
        forall|j: int| 0 <= j < t.nodes@.len() ==> (#[trigger] crate::quadtree::bin_seq(t, j)).len() <= 1,
        no_stem_center_hit(t, ps, i, target),
    ensures
        bh_accel_x(t, ps, i, target, cfg) == crate::arith::msum(
            subtree_bins(t, i),
            contrib_fn_x(ps, target, cfg),
        ),
        bh_accel_y(t, ps, i, target, cfg) == crate::arith::msum(
            subtree_bins(t, i),
            contrib_fn_y(ps, target, cfg),
        ),
    decreases t.nodes@.len() - i,
{
    broadcast use vstd::seq_lib::group_to_multiset_ensures;
    broadcast use vstd::multiset::group_multiset_axioms;

    let fx = contrib_fn_x(ps, target, cfg);
    let fy = contrib_fn_y(ps, target, cfg);
    assert(node_wf(t, i));
    assert(in_subtree(t, i, i));
    lemma_agg_bounds(t, ps, i);
    let m = subtree_mass(t, i, ps);
    let cx = agg_center_x(t, i, ps);
    let cy = agg_center_y(t, i, ps);
    let px = cx - target.x;
    let py = cy - target.y;
    let d = sqrt_floor(px * px + py * py);
    if stem_at(t, i) {
        let l = first_child(t, i);
        // theta zero never accepts: sizes are non-negative
        assert(!accepts(max_dim_spec(t.nodes@[i].boundary), d, cfg.theta as int)) by {
            assert(max_dim_spec(t.nodes@[i].boundary) >= 0);
            assert(max_dim_spec(t.nodes@[i].boundary) * THETA_SCALE >= 0) by (nonlinear_arith)
                requires
                    max_dim_spec(t.nodes@[i].boundary) >= 0,
                    THETA_SCALE == 1000,
            {
            }
        }
        // the stem centre misses the target, so the distance is not zero
        assert(d != 0) by {
            if d == 0 {
                assert(px * px + py * py >= 0) by (nonlinear_arith)
                {
                }
                lemma_sqrt_floor_bounds(px * px + py * py);
                assert(px * px + py * py == 0) by (nonlinear_arith)
                    requires
                        px * px + py * py >= 0,
                        px * px + py * py < 1,
                {
                }
                assert(px == 0 && py == 0) by (nonlinear_arith)
                    requires
                        px * px + py * py == 0,
                {
                }
            }
        }
        assert forall|j: int| #[trigger] in_subtree(t, l, j) && stem_at(t, j) implies !(
        agg_center_x(t, j, ps) == target.x && agg_center_y(t, j, ps) == target.y) by {
            lemma_child_subtree_sub(t, i, 0, j);
        }
        assert forall|j: int| #[trigger] in_subtree(t, l + 1, j) && stem_at(t, j) implies !(
        agg_center_x(t, j, ps) == target.x && agg_center_y(t, j, ps) == target.y) by {
            lemma_child_subtree_sub(t, i, 1, j);
        }
        assert forall|j: int| #[trigger] in_subtree(t, l + 2, j) && stem_at(t, j) implies !(
        agg_center_x(t, j, ps) == target.x && agg_center_y(t, j, ps) == target.y) by {
            lemma_child_subtree_sub(t, i, 2, j);
        }
        assert forall|j: int| #[trigger] in_subtree(t, l + 3, j) && stem_at(t, j) implies !(
        agg_center_x(t, j, ps) == target.x && agg_center_y(t, j, ps) == target.y) by {
            lemma_child_subtree_sub(t, i, 3, j);
        }
        lemma_theta_zero_exact(t, ps, l, target, cfg);
        lemma_theta_zero_exact(t, ps, l + 1, target, cfg);
        lemma_theta_zero_exact(t, ps, l + 2, target, cfg);
        lemma_theta_zero_exact(t, ps, l + 3, target, cfg);
        lemma_subtree_msum_split(t, i, fx);
        lemma_subtree_msum_split(t, i, fy);
    } else {
        // a leaf: zero or one stored point
        let bs = crate::quadtree::bin_seq(t, i);
        assert(subtree_bins(t, i) == bs.to_multiset());
        if bs.len() == 0 {
            assert(bs =~= Seq::<usize>::empty());
            assert(bs.to_multiset() =~= vstd::multiset::Multiset::<usize>::empty());
            crate::arith::lemma_msum_empty(fx);
            crate::arith::lemma_msum_empty(fy);
            crate::arith::lemma_msum_empty(mass_fn(ps));
            crate::arith::lemma_msum_empty(crate::barnes_hut::wx_fn(ps));
            crate::arith::lemma_msum_empty(crate::barnes_hut::wy_fn(ps));
            assert(m == 0);
            if d != 0 {
                assert(contrib_x(px, py, cfg.gravity as int, 0, cfg.epsilon_squared as int) == 0)
                    by {
                    lemma_contrib_zero_mass(px, py, cfg.gravity as int, cfg.epsilon_squared as int);
                }
                assert(contrib_y(px, py, cfg.gravity as int, 0, cfg.epsilon_squared as int) == 0)
                    by {
                    lemma_contrib_zero_mass(py, px, cfg.gravity as int, cfg.epsilon_squared as int);
                }
            }
        } else {
            let e = bs[0];
            assert(bs =~= Seq::<usize>::empty().push(e));
            assert(bs.to_multiset() =~= vstd::multiset::Multiset::<usize>::empty().insert(e));
            crate::arith::lemma_msum_insert(vstd::multiset::Multiset::<usize>::empty(), fx, e);
            crate::arith::lemma_msum_insert(vstd::multiset::Multiset::<usize>::empty(), fy, e);
            crate::arith::lemma_msum_insert(
                vstd::multiset::Multiset::<usize>::empty(),
                mass_fn(ps),
                e,
            );
            crate::arith::lemma_msum_insert(
                vstd::multiset::Multiset::<usize>::empty(),
                crate::barnes_hut::wx_fn(ps),
                e,
            );
            crate::arith::lemma_msum_insert(
                vstd::multiset::Multiset::<usize>::empty(),
                crate::barnes_hut::wy_fn(ps),
                e,
            );
            crate::arith::lemma_msum_empty(fx);
            crate::arith::lemma_msum_empty(fy);
            crate::arith::lemma_msum_empty(mass_fn(ps));
            crate::arith::lemma_msum_empty(crate::barnes_hut::wx_fn(ps));
            crate::arith::lemma_msum_empty(crate::barnes_hut::wy_fn(ps));
            // the stored index names a real particle inside the cell
            assert(crate::quadtree::bin_seq(t, i)[0] < crate::quadtree::positions_of(ps).len()
                && crate::utils::contains_spec(
                t.nodes@[i].boundary,
                crate::quadtree::positions_of(ps)[crate::quadtree::bin_seq(t, i)[0] as int],
            ));
            let p = ps[e as int];
            assert(crate::quadtree::positions_of(ps)[e as int] == p.position);
            assert(m == p.mass);
            assert(particle_ok(p));
            if p.mass > 0 {
                // a singleton's centre of mass is exactly its position
                assert(crate::barnes_hut::agg_wsum_x(t, i, ps) == p.position.x * p.mass);
                assert(crate::barnes_hut::agg_wsum_y(t, i, ps) == p.position.y * p.mass);
                assert(0 <= p.position.x && 0 <= p.position.y);
                lemma_div_exact_multiple(p.position.x as int, p.mass as int);
                lemma_div_exact_multiple(p.position.y as int, p.mass as int);
                assert(p.mass * p.position.x == p.position.x * p.mass) by (nonlinear_arith)
                {
                }
                assert(p.mass * p.position.y == p.position.y * p.mass) by (nonlinear_arith)
                {
                }
                assert(cx == p.position.x && cy == p.position.y);
            } else {
                // zero mass: both sides contribute nothing
                assert(m == 0);
                assert((mass_fn(ps))(e) == 0);
                if d != 0 {
                    lemma_contrib_zero_mass(px, py, cfg.gravity as int, cfg.epsilon_squared as int);
                    lemma_contrib_zero_mass(py, px, cfg.gravity as int, cfg.epsilon_squared as int);
                }
                let qx = p.position.x - target.x;
                let qy = p.position.y - target.y;
                let dq = sqrt_floor(qx * qx + qy * qy);
                if dq != 0 {
                    lemma_contrib_zero_mass(qx, qy, cfg.gravity as int, cfg.epsilon_squared as int);
                    lemma_contrib_zero_mass(qy, qx, cfg.gravity as int, cfg.epsilon_squared as int);
                }
            }
        }
    }
}

/// Summing the stored contributions index by index is the pairwise sum:
/// the target's own entry contributes nothing (its distance is zero).
proof fn lemma_inserted_contrib_sum(
    ps: Seq<Particle>,
    b: BoundingBox,
    n: int,
    ti: int,
    cfg: SimulationConfig,
)
    requires
        cfg_wf(cfg),
        0 <= n <= ps.len(),
        ps.len() <= usize::MAX,
        0 <= ti < ps.len(),
        forall|i: int| 0 <= i < n ==> crate::utils::contains_spec(b, (#[trigger] ps[i]).position),
    ensures
        crate::arith::msum(
            crate::quadtree::inserted_upto(crate::quadtree::positions_of(ps), b, n),
            contrib_fn_x(ps, ps[ti].position, cfg),
        ) == pairwise_accel_x(ps, ti, n, cfg),
        crate::arith::msum(
            crate::quadtree::inserted_upto(crate::quadtree::positions_of(ps), b, n),
            contrib_fn_y(ps, ps[ti].position, cfg),
        ) == pairwise_accel_y(ps, ti, n, cfg),
    decreases n,
{
    broadcast use vstd::multiset::group_multiset_axioms;

    let pts = crate::quadtree::positions_of(ps);
    let fx = contrib_fn_x(ps, ps[ti].position, cfg);
    let fy = contrib_fn_y(ps, ps[ti].position, cfg);
    if n > 0 {
        lemma_inserted_contrib_sum(ps, b, n - 1, ti, cfg);
        assert(pts[n - 1] == ps[n - 1].position);
        assert(crate::utils::contains_spec(b, pts[n - 1]));
        crate::arith::lemma_msum_insert(
            crate::quadtree::inserted_upto(pts, b, n - 1),
            fx,
            (n - 1) as usize,
        );
        crate::arith::lemma_msum_insert(
            crate::quadtree::inserted_upto(pts, b, n - 1),
            fy,
            (n - 1) as usize,
        );
        if n - 1 == ti {
            // the self entry: offset zero, integer distance zero
            assert(fx((n - 1) as usize) == 0 && fy((n - 1) as usize) == 0) by {
                assert(ps[n - 1].position.x - ps[ti].position.x == 0);
                assert(ps[n - 1].position.y - ps[ti].position.y == 0);
                assert(sqrt_floor(0) == 0);
            }
        }
    }
}

/// Convergence in the exact limit: over an index whose leaves each hold at
/// most one point (and whose points all lie inside the root region), the
/// Barnes-Hut acceleration at `theta == 0` equals the exact pairwise sum —
/// provided no stem's aggregated centre falls exactly on the target, where
/// the degenerate-distance guard would prune a live branch.
pub proof fn lemma_theta_zero_matches_pairwise(
    t: QuadTree,
    ps: Seq<Particle>,
    ti: int,
    cfg: SimulationConfig,
)
    requires
        agg_inputs_ok(t, ps),
        cfg_wf(cfg),
        cfg.theta == 0,
        forall|j: int|
            0 <= j < t.nodes@.len() ==> (#[trigger] crate::quadtree::bin_seq(t, j)).len() <= 1,
        subtree_bins(t, 0) == crate::quadtree::inserted_upto(
            crate::quadtree::positions_of(ps),
            t.nodes@[0].boundary,
            ps.len() as int,
        ),
        forall|i: int|
            0 <= i < ps.len() ==> crate::utils::contains_spec(
                t.nodes@[0].boundary,
                (#[trigger] ps[i]).position,
            ),
        0 <= ti < ps.len(),
        no_stem_center_hit(t, ps, 0, ps[ti].position),
    ensures
        bh_accel_x(t, ps, 0, ps[ti].position, cfg) == pairwise_accel_x(
            ps,
            ti,
            ps.len() as int,
            cfg,
        ),
        bh_accel_y(t, ps, 0, ps[ti].position, cfg) == pairwise_accel_y(
            ps,
            ti,
            ps.len() as int,
            cfg,
        ),
{
    lemma_theta_zero_exact(t, ps, 0, ps[ti].position, cfg);
    lemma_inserted_contrib_sum(ps, t.nodes@[0].boundary, ps.len() as int, ti, cfg);
}

/// A zero pseudo-mass contributes nothing.
proof fn lemma_contrib_zero_mass(px: int, py: int, gravity: int, soft: int)
    requires
        0 <= gravity,
        0 <= soft,
    ensures
        contrib_x(px, py, gravity, 0, soft) == 0,
{
    let n = px * px + py * py;
    assert(n >= 0) by (nonlinear_arith)
        requires
            n == px * px + py * py,
    {
    }
    lemma_sqrt_floor_bounds(n);
    let d = sqrt_floor(n);
    if d != 0 {
        let den = d * (d * d + soft);
        assert(0 < den) by (nonlinear_arith)
            requires
                den == d * (d * d + soft),
                1 <= d,
                0 <= soft,
        {
        }
        let ax = if px >= 0 {
            px
        } else {
            -px
        };
        assert(ax * gravity * 0 == 0) by (nonlinear_arith)
        {
        }
        assert(px * gravity * 0 == 0 && (-px) * gravity * 0 == 0) by (nonlinear_arith)
        {
        }
        vstd::arithmetic::div_mod::lemma_div_of0(den);
    }
}

// ---------------------------------------------------------------------------
// Executable force helpers
// ---------------------------------------------------------------------------

/// Truncating division of a possibly negative dividend by a positive
/// divisor, via unsigned magnitudes.
fn div_trunc(a: i128, b: i128) -> (r: i128)
    requires
        0 < b,
        -170141183460469231731687303715884105727i128 <= a,
    ensures
        r == tdiv(a as int, b as int),
        a >= 0 ==> 0 <= r <= a,
        a < 0 ==> a <= r <= 0,
{
    if a >= 0 {
        let q = (a as u128) / (b as u128);
        proof {
            lemma_div_le(a as int, b as int, a as int, 1);
            assert((a as int) / 1 == a as int);
        }
        q as i128
    } else {
        let q = ((-a) as u128) / (b as u128);
        proof {
            lemma_div_le((-a) as int, b as int, (-a) as int, 1);
            assert(((-a) as int) / 1 == (-a) as int);
        }
        -(q as i128)
    }
}

/// The acceleration one pseudo-mass exerts, both components, computed
/// exactly as `contrib_x` / `contrib_y` state it.
fn contribution(px: i128, py: i128, gravity: i128, m: i128, soft: i128) -> (r: (i128, i128))
    requires
        -2 * COORD_LIMIT <= px <= 2 * COORD_LIMIT,
        -2 * COORD_LIMIT <= py <= 2 * COORD_LIMIT,
        0 <= gravity <= GRAVITY_LIMIT,
        0 <= m <= MASS_SUM_LIMIT,
        0 <= soft <= SOFTENING_LIMIT,
    ensures
        r.0 == contrib_x(px as int, py as int, gravity as int, m as int, soft as int),
        r.1 == contrib_y(px as int, py as int, gravity as int, m as int, soft as int),
        -(gravity * m) <= r.0 <= gravity * m,
        -(gravity * m) <= r.1 <= gravity * m,
{
    proof {
        assert(0 <= px * px <= 4 * COORD_LIMIT * COORD_LIMIT && 0 <= py * py <= 4 * COORD_LIMIT
            * COORD_LIMIT && 0 <= px * px + py * py <= 8 * COORD_LIMIT * COORD_LIMIT)
            by (nonlinear_arith)
            requires
                -2 * COORD_LIMIT <= px <= 2 * COORD_LIMIT,
                -2 * COORD_LIMIT <= py <= 2 * COORD_LIMIT,
        {
        }
        lemma_contrib_bound(px as int, py as int, gravity as int, m as int, soft as int);
        assert(gravity * m <= GRAVITY_LIMIT * MASS_SUM_LIMIT) by (nonlinear_arith)
            requires
                0 <= gravity <= GRAVITY_LIMIT,
                0 <= m <= MASS_SUM_LIMIT,
        {
        }
    }
    let d2 = px * px + py * py;
    let du = isqrt(d2 as u128);
    proof {
        lemma_sqrt_floor_bounds(d2 as int);
        // the root fits comfortably: its square is at most d2
        assert((du as int) <= 3 * COORD_LIMIT) by (nonlinear_arith)
            requires
                (du as int) * (du as int) <= d2 as int,
                d2 as int <= 8 * COORD_LIMIT * COORD_LIMIT,
                0 <= du as int,
        {
        }
    }
    let d = du as i128;
    if d == 0 {
        (0, 0)
    } else {
        proof {
            assert(0 < d * (d * d + soft) <= 3 * COORD_LIMIT * (9 * COORD_LIMIT * COORD_LIMIT
                + SOFTENING_LIMIT)) by (nonlinear_arith)
                requires
                    0 < d <= 3 * COORD_LIMIT,
                    0 <= soft <= SOFTENING_LIMIT,
            {
            }
        }
        let den = d * (d * d + soft);
        let ax: i128 = if px >= 0 {
            px
        } else {
            -px
        };
        let ay: i128 = if py >= 0 {
            py
        } else {
            -py
        };
        proof {
            assert(0 <= ax * gravity <= 2 * COORD_LIMIT * GRAVITY_LIMIT && 0 <= ay * gravity <= 2
                * COORD_LIMIT * GRAVITY_LIMIT) by (nonlinear_arith)
                requires
                    0 <= ax <= 2 * COORD_LIMIT,
                    0 <= ay <= 2 * COORD_LIMIT,
                    0 <= gravity <= GRAVITY_LIMIT,
            {
            }
            assert(0 <= ax * gravity * m <= 2 * COORD_LIMIT * GRAVITY_LIMIT * MASS_SUM_LIMIT && 0
                <= ay * gravity * m <= 2 * COORD_LIMIT * GRAVITY_LIMIT * MASS_SUM_LIMIT)
                by (nonlinear_arith)
                requires
                    0 <= ax * gravity <= 2 * COORD_LIMIT * GRAVITY_LIMIT,
                    0 <= ay * gravity <= 2 * COORD_LIMIT * GRAVITY_LIMIT,
                    0 <= m <= MASS_SUM_LIMIT,
            {
            }
        }
        let numx = (ax as u128) * (gravity as u128) * (m as u128);
        let numy = (ay as u128) * (gravity as u128) * (m as u128);
        let magx = numx / (den as u128);
        let magy = numy / (den as u128);
        proof {
            // the quotient is bounded by gravity * m, as in the contribution bound
            assert(ax * ax <= d2 as int && ay * ay <= d2 as int) by (nonlinear_arith)
                requires
                    ax == px || ax == -px,
                    ay == py || ay == -py,
                    d2 == px * px + py * py,
            {
            }
            assert(ax <= d as int && ay <= d as int) by (nonlinear_arith)
                requires
                    ax * ax <= d2 as int,
                    ay * ay <= d2 as int,
                    (d2 as int) < ((d as int) + 1) * ((d as int) + 1),
                    0 <= ax,
                    0 <= ay,
                    0 <= d,
            {
            }
            assert((d as int) <= den as int && ax * gravity * m <= (d as int) * (gravity * m)
                && ay * gravity * m <= (d as int) * (gravity * m)) by (nonlinear_arith)
                requires
                    den == d * (d * d + soft),
                    1 <= d,
                    0 <= soft,
                    0 <= ax <= d as int,
                    0 <= ay <= d as int,
                    0 <= gravity,
                    0 <= m,
            {
            }
            lemma_div_le(ax * gravity * m, den as int, (d as int) * (gravity * m), d as int);
            lemma_div_le(ay * gravity * m, den as int, (d as int) * (gravity * m), d as int);
            lemma_div_exact_multiple(gravity * m, d as int);
        }
        let rx: i128 = if px >= 0 {
            magx as i128
        } else {
            -(magx as i128)
        };
        let ry: i128 = if py >= 0 {
            magy as i128
        } else {
            -(magy as i128)
        };
        (rx, ry)
    }
}

// ---------------------------------------------------------------------------
// Integration
// ---------------------------------------------------------------------------

/// Velocity after one step: `v + a*dt` in scaled units.
pub open spec fn integrated_velocity(v: int, a: int, dt: int) -> int {
    v + tdiv(a * dt, DT_SCALE as int)
}

/// Position after one step: `p + v*dt + (a*dt/2)*dt` in scaled units, the
/// half-acceleration term divided in two stages so it stays in range.
pub open spec fn integrated_position(p: int, v: int, a: int, dt: int) -> int {
    p + tdiv(v * dt, DT_SCALE as int) + tdiv(
        tdiv(a * dt, 2 * (DT_SCALE as int)) * dt,
        DT_SCALE as int,
    )
}

/// Boundary wrap: a coordinate beyond one edge reappears at the opposite
/// edge.
pub open spec fn constrain_coord(x: int, lo: int, hi: int) -> int {
    if x > hi {
        lo
    } else if x < lo {
        hi
    } else {
        x
    }
}

impl Particle {
    /// One explicit integration step; the acceleration is consumed and
    /// cleared.
    pub fn update(&mut self, dt: i128)
        requires
            0 <= dt <= DT_LIMIT,
            -COORD_LIMIT <= old(self).position.x <= COORD_LIMIT,
            -COORD_LIMIT <= old(self).position.y <= COORD_LIMIT,
            -VELOCITY_LIMIT <= old(self).velocity.x <= VELOCITY_LIMIT,
            -VELOCITY_LIMIT <= old(self).velocity.y <= VELOCITY_LIMIT,
            -ACCEL_LIMIT <= old(self).acceleration.x <= ACCEL_LIMIT,
            -ACCEL_LIMIT <= old(self).acceleration.y <= ACCEL_LIMIT,
        ensures
            final(self).position.x == integrated_position(
                old(self).position.x as int,
                old(self).velocity.x as int,
                old(self).acceleration.x as int,
                dt as int,
            ),
            final(self).position.y == integrated_position(
                old(self).position.y as int,
                old(self).velocity.y as int,
                old(self).acceleration.y as int,
                dt as int,
            ),
            final(self).velocity.x == integrated_velocity(
                old(self).velocity.x as int,
                old(self).acceleration.x as int,
                dt as int,
            ),
            final(self).velocity.y == integrated_velocity(
                old(self).velocity.y as int,
                old(self).acceleration.y as int,
                dt as int,
            ),
            final(self).acceleration == (Vec2 { x: 0, y: 0 }),
            final(self).mass == old(self).mass,
    {
        proof {
            lemma_integration_products(
                old(self).velocity.x as int,
                old(self).acceleration.x as int,
                dt as int,
            );
            lemma_integration_products(
                old(self).velocity.y as int,
                old(self).acceleration.y as int,
                dt as int,
            );
        }
        let vx_term = div_trunc(self.velocity.x * dt, DT_SCALE);
        let vy_term = div_trunc(self.velocity.y * dt, DT_SCALE);
        let half_ax = div_trunc(self.acceleration.x * dt, 2 * DT_SCALE);
        let half_ay = div_trunc(self.acceleration.y * dt, 2 * DT_SCALE);
        proof {
            lemma_half_term_products(
                half_ax as int,
                old(self).acceleration.x as int,
                dt as int,
            );
            lemma_half_term_products(
                half_ay as int,
                old(self).acceleration.y as int,
                dt as int,
            );
        }
        let ax_term = div_trunc(half_ax * dt, DT_SCALE);
        let ay_term = div_trunc(half_ay * dt, DT_SCALE);
        self.position.x = self.position.x + vx_term + ax_term;
        self.position.y = self.position.y + vy_term + ay_term;
        self.velocity.x = self.velocity.x + div_trunc(self.acceleration.x * dt, DT_SCALE);
        self.velocity.y = self.velocity.y + div_trunc(self.acceleration.y * dt, DT_SCALE);
        self.acceleration = Vec2 { x: 0, y: 0 };
    }

    /// Wraps the particle back into the simulation bounds, edge to opposite
    /// edge.
    pub fn constrain(&mut self, bounds: &BoundingBox)
        ensures
            final(self).position.x == constrain_coord(
                old(self).position.x as int,
                bounds.min.x as int,
                bounds.max.x as int,
            ),
            final(self).position.y == constrain_coord(
                old(self).position.y as int,
                bounds.min.y as int,
                bounds.max.y as int,
            ),
            final(self).velocity == old(self).velocity,
            final(self).acceleration == old(self).acceleration,
            final(self).mass == old(self).mass,
    {
        if self.position.x > bounds.max.x {
            self.position.x = bounds.min.x;
        } else if self.position.x < bounds.min.x {
            self.position.x = bounds.max.x;
        }
        if self.position.y > bounds.max.y {
            self.position.y = bounds.min.y;
        } else if self.position.y < bounds.min.y {
            self.position.y = bounds.max.y;
        }
    }
}

/// One particle after a full tick: it was given the acceleration `(ax,
/// ay)`, integrated over `dt`, and wrapped back into `bounds`.
pub open spec fn tick_outcome(
    p: Particle,
    ax: int,
    ay: int,
    dt: int,
    bounds: BoundingBox,
    q: Particle,
) -> bool {
    &&& q.mass == p.mass
    &&& q.acceleration == (Vec2 { x: 0, y: 0 })
    &&& q.velocity.x == integrated_velocity(p.velocity.x as int, ax, dt)
    &&& q.velocity.y == integrated_velocity(p.velocity.y as int, ay, dt)
    &&& q.position.x == constrain_coord(
        integrated_position(p.position.x as int, p.velocity.x as int, ax, dt),
        bounds.min.x as int,
        bounds.max.x as int,
    )
    &&& q.position.y == constrain_coord(
        integrated_position(p.position.y as int, p.velocity.y as int, ay, dt),
        bounds.min.y as int,
        bounds.max.y as int,
    )
}

/// At most `COUNT_LIMIT` particles of at most `MASS_LIMIT` each: the total
/// mass stays within the global budget.
pub proof fn lemma_total_mass_le(ps: Seq<Particle>, n: int)
    requires
        0 <= n <= ps.len(),
        ps.len() <= COUNT_LIMIT,
        forall|c: int| 0 <= c < ps.len() ==> particle_ok(#[trigger] ps[c]),
    ensures
        0 <= crate::barnes_hut::total_mass(ps, n) <= n * MASS_LIMIT,
        crate::barnes_hut::total_mass(ps, n) <= MASS_SUM_LIMIT,
    decreases n,
{
    if n > 0 {
        lemma_total_mass_le(ps, n - 1);
        assert((n - 1) * MASS_LIMIT + MASS_LIMIT == n * MASS_LIMIT) by (nonlinear_arith)
        {
        }
    }
    assert(n * MASS_LIMIT <= MASS_SUM_LIMIT) by (nonlinear_arith)
        requires
            0 <= n <= COUNT_LIMIT,
            COUNT_LIMIT as int * (MASS_LIMIT as int) == MASS_SUM_LIMIT as int,
    {
    }
}

/// The tick's time step never exceeds the raw step: the modifier is a
/// fraction of one.
proof fn lemma_tick_dt_bounds(dt: int, dt_mod: int)
    requires
        0 <= dt <= DT_LIMIT,
        0 <= dt_mod <= DT_SCALE,
    ensures
        0 <= dt * dt_mod,
        0 <= tdiv(dt * dt_mod, DT_SCALE as int) <= DT_LIMIT,
{
    assert(0 <= dt * dt_mod <= dt * (DT_SCALE as int)) by (nonlinear_arith)
        requires
            0 <= dt,
            0 <= dt_mod <= DT_SCALE,
    {
    }
    lemma_div_le(dt * dt_mod, DT_SCALE as int, dt * (DT_SCALE as int), DT_SCALE as int);
    lemma_div_exact_multiple(dt, DT_SCALE as int);
    assert((DT_SCALE as int) * dt == dt * (DT_SCALE as int));
}

/// A gravity-times-mass budget stays inside the acceleration limit.
proof fn lemma_accel_budget(g: int, m: int)
    requires
        0 <= g <= GRAVITY_LIMIT,
        0 <= m <= MASS_SUM_LIMIT,
    ensures
        0 <= g * m <= ACCEL_LIMIT,
{
    assert(0 <= g * m <= GRAVITY_LIMIT * MASS_SUM_LIMIT) by (nonlinear_arith)
        requires
            0 <= g <= GRAVITY_LIMIT,
            0 <= m <= MASS_SUM_LIMIT,
    {
    }
}

/// One more pair contribution keeps the partial sum inside the budget.
proof fn lemma_contrib_in_budget(g: int, m: int, total_before: int, cx: int, cy: int)
    requires
        0 <= g <= GRAVITY_LIMIT,
        0 <= m,
        0 <= total_before,
        total_before + m <= MASS_SUM_LIMIT,
        -(g * m) <= cx <= g * m,
        -(g * m) <= cy <= g * m,
    ensures
        -ACCEL_LIMIT <= cx <= ACCEL_LIMIT,
        -ACCEL_LIMIT <= cy <= ACCEL_LIMIT,
        g * total_before + g * m == g * (total_before + m),
        g * (total_before + m) <= ACCEL_LIMIT,
{
    assert(0 <= g * m <= g * (total_before + m) && g * total_before + g * m == g * (total_before
        + m) && g * (total_before + m) <= GRAVITY_LIMIT * MASS_SUM_LIMIT) by (nonlinear_arith)
        requires
            0 <= g <= GRAVITY_LIMIT,
            0 <= m,
            0 <= total_before,
            total_before + m <= MASS_SUM_LIMIT,
    {
    }
}

/// Splitting a mass among four children splits its gravity bound with it.
proof fn lemma_gravity_mass_split(g: int, m: int, m0: int, m1: int, m2: int, m3: int)
    requires
        0 <= g,
        m == m0 + m1 + m2 + m3,
        0 <= m0,
        0 <= m1,
        0 <= m2,
        0 <= m3,
    ensures
        g * m == g * m0 + g * m1 + g * m2 + g * m3,
        0 <= g * m0,
        0 <= g * m1,
        0 <= g * m2,
        0 <= g * m3,
{
    assert(g * m == g * m0 + g * m1 + g * m2 + g * m3 && 0 <= g * m0 && 0 <= g * m1 && 0 <= g * m2
        && 0 <= g * m3) by (nonlinear_arith)
        requires
            0 <= g,
            m == m0 + m1 + m2 + m3,
            0 <= m0,
            0 <= m1,
            0 <= m2,
            0 <= m3,
    {
    }
}

/// The integration products fit: velocity and acceleration terms stay far
/// inside the 128-bit range.
proof fn lemma_integration_products(v: int, a: int, dt: int)
    requires
        0 <= dt <= DT_LIMIT,
        -VELOCITY_LIMIT <= v <= VELOCITY_LIMIT,
        -ACCEL_LIMIT <= a <= ACCEL_LIMIT,
    ensures
        -(VELOCITY_LIMIT * DT_LIMIT) <= v * dt <= VELOCITY_LIMIT * DT_LIMIT,
        -(ACCEL_LIMIT * DT_LIMIT) <= a * dt <= ACCEL_LIMIT * DT_LIMIT,
{
    assert(-(VELOCITY_LIMIT * DT_LIMIT) <= v * dt <= VELOCITY_LIMIT * DT_LIMIT && -(ACCEL_LIMIT
        * DT_LIMIT) <= a * dt <= ACCEL_LIMIT * DT_LIMIT) by (nonlinear_arith)
        requires
            0 <= dt <= DT_LIMIT,
            -VELOCITY_LIMIT <= v <= VELOCITY_LIMIT,
            -ACCEL_LIMIT <= a <= ACCEL_LIMIT,
    {
    }
}

proof fn lemma_half_term_products(half: int, a: int, dt: int)
    requires
        0 <= dt <= DT_LIMIT,
        -ACCEL_LIMIT <= a <= ACCEL_LIMIT,
        half == tdiv(a * dt, 2 * (DT_SCALE as int)),
    ensures
        -(ACCEL_LIMIT * DT_LIMIT * 500) <= half * dt <= ACCEL_LIMIT * DT_LIMIT * 500,
{
    lemma_integration_products(0, a, dt);
    let num = a * dt;
    let bound = ACCEL_LIMIT * DT_LIMIT;
    let q = bound / 2000;
    if num >= 0 {
        lemma_div_le(num, 2 * (DT_SCALE as int), bound, 2 * (DT_SCALE as int));
    } else {
        lemma_div_le(-num, 2 * (DT_SCALE as int), bound, 2 * (DT_SCALE as int));
    }
    assert(-q <= half <= q);
    assert(0 <= q && q * 2000 <= bound);
    assert(-(bound * 500) <= half * dt <= bound * 500) by (nonlinear_arith)
        requires
            0 <= dt <= 1_000_000,
            -q <= half <= q,
            0 <= q,
            q * 2000 <= bound,
    {
    }
}

// ---------------------------------------------------------------------------
// The simulation state and the per-tick entry points
// ---------------------------------------------------------------------------

/// The whole simulation: world bounds, the point set, the parameters, and
/// the spatial index rebuilt from the points every tick.
#[derive(Debug)]
pub struct State {
    pub dimensions: BoundingBox,
    pub particles: Vec<Particle>,
    pub config: SimulationConfig,
    pub quadtree: QuadTree,
}

/// Everything a tick needs of the state: well-formed bounds, parameters and
/// index (covering the world), and particles within the exact-arithmetic
/// limits.
pub open spec fn state_wf(s: State) -> bool {
    &&& box_wf(s.dimensions)
    &&& cfg_wf(s.config)
    &&& tree_wf(s.quadtree)
    &&& s.quadtree.nodes@[0].boundary == s.dimensions
    &&& s.particles@.len() <= COUNT_LIMIT
    &&& forall|i: int| 0 <= i < s.particles@.len() ==> particle_ok(#[trigger] s.particles@[i])
    &&& forall|i: int|
        0 <= i < s.particles@.len() ==> {
            let p = #[trigger] s.particles@[i];
            &&& -COORD_LIMIT <= p.position.x <= COORD_LIMIT
            &&& -COORD_LIMIT <= p.position.y <= COORD_LIMIT
            &&& -VELOCITY_LIMIT <= p.velocity.x <= VELOCITY_LIMIT
            &&& -VELOCITY_LIMIT <= p.velocity.y <= VELOCITY_LIMIT
        }
}

impl State {
    /// A fresh simulation over a `width` by `height` world, with the stock
    /// parameter values (in scaled units) and no particles yet.
    pub fn build(width: i128, height: i128) -> (r: Result<State, crate::quadtree::QuadTreeError>)
        ensures
            match r {
                Ok(s) => {
                    &&& state_wf(s)
                    &&& s.particles@.len() == 0
                    &&& s.dimensions.min == (Vec2 { x: 0, y: 0 })
                    &&& s.dimensions.max == (Vec2 { x: width, y: height })
                    &&& s.config == (SimulationConfig {
                        starting_spawn: 100,
                        gravity: 1000,
                        epsilon_squared: 50,
                        theta: 500,
                        velocity_rand_max: 50,
                        mass_rand_max: 100,
                        frame_time_dt_mod: 100,
                        neighbor_distance: 300,
                    })
                    &&& s.quadtree.leaf_capacity == 1
                    &&& s.quadtree.nodes@.len() == 1
                    &&& s.quadtree.nodes@[0].leaves is None
                    &&& s.quadtree.nodes@[0].data_head is None
                    &&& s.quadtree.node_pointers@.len() == 0
                    &&& subtree_bins(s.quadtree, 0) == vstd::multiset::Multiset::<usize>::empty()
                },
                Err(_) => !(0 <= width <= COORD_LIMIT && 0 <= height <= COORD_LIMIT),
            },
    {
        let dimensions = BoundingBox::build(Vec2::new(0, 0), Vec2::new(width, height));
        let config = SimulationConfig {
            starting_spawn: 100,
            gravity: 1000,
            epsilon_squared: 50,
            theta: 500,
            velocity_rand_max: 50,
            mass_rand_max: 100,
            frame_time_dt_mod: 100,
            neighbor_distance: 300,
        };
        match QuadTree::build(1, dimensions) {
            Ok(quadtree) => Ok(
                State { dimensions, particles: Vec::new(), config, quadtree },
            ),
            Err(e) => Err(e),
        }
    }

    /// Rebuilds the spatial index from the current particle positions.
    fn init_tree(&mut self)
        requires
            tree_wf(old(self).quadtree),
        ensures
            final(self).dimensions == old(self).dimensions,
            final(self).particles == old(self).particles,
            final(self).config == old(self).config,
            crate::quadtree::tree_inv(
                final(self).quadtree,
                crate::quadtree::positions_of(old(self).particles@),
            ),
            final(self).quadtree.leaf_capacity == old(self).quadtree.leaf_capacity,
            final(self).quadtree.nodes@.len() >= 1,
            final(self).quadtree.nodes@[0].boundary == old(self).quadtree.nodes@[0].boundary,
            subtree_bins(final(self).quadtree, 0) == crate::quadtree::inserted_upto(
                crate::quadtree::positions_of(old(self).particles@),
                old(self).quadtree.nodes@[0].boundary,
                old(self).particles@.len() as int,
            ),
    {
        self.quadtree.construct_tree(&self.particles);
    }

    /// Indices of all points stored in nodes overlapping the axis-aligned
    /// box around the disk of radius `radius` at `pos`.
    pub fn query_tree(tree: &QuadTree, pos: Vec2, radius: i128) -> (output: Vec<usize>)
        requires
            tree_wf(*tree),
            -COORD_LIMIT <= pos.x <= COORD_LIMIT,
            -COORD_LIMIT <= pos.y <= COORD_LIMIT,
            0 <= radius <= COORD_LIMIT,
        ensures
            output@ == crate::quadtree::collect_seq(
                *tree,
                0,
                BoundingBox {
                    min: Vec2 { x: (pos.x - radius) as i128, y: (pos.y - radius) as i128 },
                    max: Vec2 { x: (pos.x + radius) as i128, y: (pos.y + radius) as i128 },
                },
            ),
    {
        tree.query_range(
            &BoundingBox::build(
                Vec2::new(pos.x - radius, pos.y - radius),
                Vec2::new(pos.x + radius, pos.y + radius),
            ),
        )
    }

    /// Walks the index from `node_index` and accumulates this node's
    /// Barnes-Hut acceleration contribution for the target particle.
    #[verifier::rlimit(100)]
    fn calculate_force_recursive(
        &self,
        node_index: usize,
        target_particle: &Particle,
        tree: &QuadTree,
        barnes_hut: &BarnesHutWrapper,
        acceleration: &mut Vec2,
    )
        requires
            cfg_wf(self.config),
            agg_inputs_ok(*tree, self.particles@),
            node_index < tree.nodes@.len(),
            barnes_hut.barnes_hut_data@.len() == tree.nodes@.len(),
            forall|j: int|
                #[trigger] in_subtree(*tree, node_index as int, j) ==> agg_node_ok(
                    *tree,
                    self.particles@,
                    barnes_hut.barnes_hut_data@[j],
                    j,
                ),
            subtree_mass(*tree, node_index as int, self.particles@) <= MASS_SUM_LIMIT,
            -COORD_LIMIT <= target_particle.position.x <= COORD_LIMIT,
            -COORD_LIMIT <= target_particle.position.y <= COORD_LIMIT,
            old(acceleration).x + self.config.gravity * subtree_mass(
                *tree,
                node_index as int,
                self.particles@,
            ) <= ACCEL_LIMIT,
            old(acceleration).x - self.config.gravity * subtree_mass(
                *tree,
                node_index as int,
                self.particles@,
            ) >= -ACCEL_LIMIT,
            old(acceleration).y + self.config.gravity * subtree_mass(
                *tree,
                node_index as int,
                self.particles@,
            ) <= ACCEL_LIMIT,
            old(acceleration).y - self.config.gravity * subtree_mass(
                *tree,
                node_index as int,
                self.particles@,
            ) >= -ACCEL_LIMIT,
        ensures
            final(acceleration).x == old(acceleration).x + bh_accel_x(
                *tree,
                self.particles@,
                node_index as int,
                target_particle.position,
                self.config,
            ),
            final(acceleration).y == old(acceleration).y + bh_accel_y(
                *tree,
                self.particles@,
                node_index as int,
                target_particle.position,
                self.config,
            ),
        decreases tree.nodes@.len() - node_index,
    {
        let ghost t = *tree;
        let ghost ps = self.particles@;
        let ghost ii = node_index as int;
        let ghost tpos = target_particle.position;
        let ghost cfg = self.config;

        let slot = barnes_hut.barnes_hut_data[node_index];
        proof {
            assert(in_subtree(t, ii, ii));
            assert(agg_node_ok(t, ps, slot, ii));
            lemma_agg_bounds(t, ps, ii);
            lemma_bh_accel_bound(t, ps, ii, tpos, cfg);
        }
        let node_data = slot.unwrap();
        let px = node_data.mass_center.x - target_particle.position.x;
        let py = node_data.mass_center.y - target_particle.position.y;
        proof {
            assert(0 <= px * px <= 4 * COORD_LIMIT * COORD_LIMIT && 0 <= py * py <= 4 * COORD_LIMIT
                * COORD_LIMIT && 0 <= px * px + py * py <= 8 * COORD_LIMIT * COORD_LIMIT)
                by (nonlinear_arith)
                requires
                    -2 * COORD_LIMIT <= px <= 2 * COORD_LIMIT,
                    -2 * COORD_LIMIT <= py <= 2 * COORD_LIMIT,
            {
            }
        }
        let d2 = px * px + py * py;
        let du = isqrt(d2 as u128);
        proof {
            lemma_sqrt_floor_bounds(d2 as int);
            assert((du as int) <= 3 * COORD_LIMIT) by (nonlinear_arith)
                requires
                    (du as int) * (du as int) <= d2 as int,
                    d2 as int <= 8 * COORD_LIMIT * COORD_LIMIT,
                    0 <= du as int,
            {
            }
        }
        let d = du as i128;
        if d == 0 {
            return ;
        }
        let node_here = tree.nodes[node_index];
        proof {
            assert(node_wf(t, ii));
        }
        let s = node_here.boundary.max_dimension();
        proof {
            assert(0 <= self.config.theta * d <= THETA_LIMIT * (3 * COORD_LIMIT))
                by (nonlinear_arith)
                requires
                    0 <= self.config.theta <= THETA_LIMIT,
                    0 <= d <= 3 * COORD_LIMIT,
            {
            }
        }
        let far_enough = s * THETA_SCALE < self.config.theta * d;
        if far_enough || node_here.leaves.is_none() {
            let (cx, cy) = contribution(
                px,
                py,
                self.config.gravity,
                node_data.mass,
                self.config.epsilon_squared,
            );
            proof {
                assert(-(cfg.gravity * subtree_mass(t, ii, ps)) <= cx <= cfg.gravity
                    * subtree_mass(t, ii, ps));
                assert(-(cfg.gravity * subtree_mass(t, ii, ps)) <= cy <= cfg.gravity
                    * subtree_mass(t, ii, ps));
            }
            acceleration.x = acceleration.x + cx;
            acceleration.y = acceleration.y + cy;
        } else {
            let leaf_start = match node_here.leaves {
                Some(l) => l,
                None => 0,
            };
            let ghost l = leaf_start as int;
            let nn = tree.nodes.len();
            proof {
                assert(l + 4 <= nn);
                lemma_subtree_msum_split(t, ii, mass_fn(ps));
                lemma_msum_bound(subtree_bins(t, l), mass_fn(ps), MASS_LIMIT as int);
                lemma_msum_bound(subtree_bins(t, l + 1), mass_fn(ps), MASS_LIMIT as int);
                lemma_msum_bound(subtree_bins(t, l + 2), mass_fn(ps), MASS_LIMIT as int);
                lemma_msum_bound(subtree_bins(t, l + 3), mass_fn(ps), MASS_LIMIT as int);
                lemma_bh_accel_bound(t, ps, l, tpos, cfg);
                lemma_bh_accel_bound(t, ps, l + 1, tpos, cfg);
                lemma_bh_accel_bound(t, ps, l + 2, tpos, cfg);
                lemma_bh_accel_bound(t, ps, l + 3, tpos, cfg);
                lemma_gravity_mass_split(
                    cfg.gravity as int,
                    subtree_mass(t, ii, ps),
                    subtree_mass(t, l, ps),
                    subtree_mass(t, l + 1, ps),
                    subtree_mass(t, l + 2, ps),
                    subtree_mass(t, l + 3, ps),
                );
                assert forall|j: int| #[trigger] in_subtree(t, l, j) implies agg_node_ok(
                    t,
                    ps,
                    barnes_hut.barnes_hut_data@[j],
                    j,
                ) by {
                    lemma_child_subtree_sub(t, ii, 0, j);
                }
                assert forall|j: int| #[trigger] in_subtree(t, l + 1, j) implies agg_node_ok(
                    t,
                    ps,
                    barnes_hut.barnes_hut_data@[j],
                    j,
                ) by {
                    lemma_child_subtree_sub(t, ii, 1, j);
                }
                assert forall|j: int| #[trigger] in_subtree(t, l + 2, j) implies agg_node_ok(
                    t,
                    ps,
                    barnes_hut.barnes_hut_data@[j],
                    j,
                ) by {
                    lemma_child_subtree_sub(t, ii, 2, j);
                }
                assert forall|j: int| #[trigger] in_subtree(t, l + 3, j) implies agg_node_ok(
                    t,
                    ps,
                    barnes_hut.barnes_hut_data@[j],
                    j,
                ) by {
                    lemma_child_subtree_sub(t, ii, 3, j);
                }
            }
            self.calculate_force_recursive(
                leaf_start,
                target_particle,
                tree,
                barnes_hut,
                acceleration,
            );
            self.calculate_force_recursive(
                leaf_start + 1,
                target_particle,
                tree,
                barnes_hut,
                acceleration,
            );
            self.calculate_force_recursive(
                leaf_start + 2,
                target_particle,
                tree,
                barnes_hut,
                acceleration,
            );
            self.calculate_force_recursive(
                leaf_start + 3,
                target_particle,
                tree,
                barnes_hut,
                acceleration,
            );
        }
    }

    /// The Barnes-Hut acceleration of one particle: a full descent from the
    /// root.
    pub fn barnes_hut_force_recursive(
        &self,
        barnes_hut: &BarnesHutWrapper,
        target_index: usize,
    ) -> (a: Vec2)
        requires
            cfg_wf(self.config),
            agg_inputs_ok(self.quadtree, self.particles@),
            aggregated(*barnes_hut, self.quadtree, self.particles@),
            subtree_mass(self.quadtree, 0, self.particles@) <= MASS_SUM_LIMIT,
            target_index < self.particles@.len(),
            -COORD_LIMIT <= self.particles@[target_index as int].position.x <= COORD_LIMIT,
            -COORD_LIMIT <= self.particles@[target_index as int].position.y <= COORD_LIMIT,
        ensures
            a.x == bh_accel_x(
                self.quadtree,
                self.particles@,
                0,
                self.particles@[target_index as int].position,
                self.config,
            ),
            a.y == bh_accel_y(
                self.quadtree,
                self.particles@,
                0,
                self.particles@[target_index as int].position,
                self.config,
            ),
            -ACCEL_LIMIT <= a.x <= ACCEL_LIMIT,
            -ACCEL_LIMIT <= a.y <= ACCEL_LIMIT,
    {
        let target_particle = self.particles[target_index];
        let mut acceleration = Vec2::new(0, 0);
        proof {
            lemma_bh_accel_bound(self.quadtree, self.particles@, 0, target_particle.position, self.config);
            assert(self.config.gravity * subtree_mass(self.quadtree, 0, self.particles@)
                <= GRAVITY_LIMIT * MASS_SUM_LIMIT) by (nonlinear_arith)
                requires
                    0 <= self.config.gravity <= GRAVITY_LIMIT,
                    0 <= subtree_mass(self.quadtree, 0, self.particles@) <= MASS_SUM_LIMIT,
            {
            }
        }
        self.calculate_force_recursive(
            crate::quadtree::ROOT_INDEX,
            &target_particle,
            &self.quadtree,
            barnes_hut,
            &mut acceleration,
        );
        acceleration
    }

    /// Gives each particle its computed acceleration, integrates it over
    /// `dt`, and wraps it back into the world bounds.
    fn integrate_all(&mut self, accels: &Vec<Vec2>, dt: i128)
        requires
            box_wf(old(self).dimensions),
            0 <= dt <= DT_LIMIT,
            accels@.len() == old(self).particles@.len(),
            forall|i: int|
                0 <= i < old(self).particles@.len() ==> {
                    let p = #[trigger] old(self).particles@[i];
                    &&& -COORD_LIMIT <= p.position.x <= COORD_LIMIT
                    &&& -COORD_LIMIT <= p.position.y <= COORD_LIMIT
                    &&& -VELOCITY_LIMIT <= p.velocity.x <= VELOCITY_LIMIT
                    &&& -VELOCITY_LIMIT <= p.velocity.y <= VELOCITY_LIMIT
                },
            forall|i: int|
                0 <= i < accels@.len() ==> {
                    let a = #[trigger] accels@[i];
                    &&& -ACCEL_LIMIT <= a.x <= ACCEL_LIMIT
                    &&& -ACCEL_LIMIT <= a.y <= ACCEL_LIMIT
                },
        ensures
            final(self).dimensions == old(self).dimensions,
            final(self).config == old(self).config,
            final(self).quadtree == old(self).quadtree,
            final(self).particles@.len() == old(self).particles@.len(),
            forall|i: int|
                0 <= i < old(self).particles@.len() ==> tick_outcome(
                    #[trigger] old(self).particles@[i],
                    accels@[i].x as int,
                    accels@[i].y as int,
                    dt as int,
                    old(self).dimensions,
                    final(self).particles@[i],
                ),
    {
        let bounds = self.dimensions;
        let n = self.particles.len();
        let mut i: usize = 0;
        while i < n
            invariant
                box_wf(old(self).dimensions),
                0 <= dt <= DT_LIMIT,
                bounds == old(self).dimensions,
                n == old(self).particles@.len(),
                i <= n,
                accels@.len() == n,
                self.dimensions == old(self).dimensions,
                self.config == old(self).config,
                self.quadtree == old(self).quadtree,
                self.particles@.len() == n,
                forall|k: int|
                    0 <= k < old(self).particles@.len() ==> {
                        let p = #[trigger] old(self).particles@[k];
                        &&& -COORD_LIMIT <= p.position.x <= COORD_LIMIT
                        &&& -COORD_LIMIT <= p.position.y <= COORD_LIMIT
                        &&& -VELOCITY_LIMIT <= p.velocity.x <= VELOCITY_LIMIT
                        &&& -VELOCITY_LIMIT <= p.velocity.y <= VELOCITY_LIMIT
                    },
                forall|k: int|
                    0 <= k < accels@.len() ==> {
                        let a = #[trigger] accels@[k];
                        &&& -ACCEL_LIMIT <= a.x <= ACCEL_LIMIT
                        &&& -ACCEL_LIMIT <= a.y <= ACCEL_LIMIT
                    },
                forall|k: int|
                    i <= k < n ==> (#[trigger] self.particles@[k]) == old(self).particles@[k],
                forall|k: int|
                    0 <= k < i ==> tick_outcome(
                        #[trigger] old(self).particles@[k],
                        accels@[k].x as int,
                        accels@[k].y as int,
                        dt as int,
                        old(self).dimensions,
                        self.particles@[k],
                    ),
            decreases n - i,
        {
            let mut p = self.particles[i];
            proof {
                assert(p == old(self).particles@[i as int]);
            }
            p.acceleration = accels[i];
            p.update(dt);
            p.constrain(&bounds);
            self.particles[i] = p;
            i = i + 1;
        }
    }

    /// One simulation tick with the Barnes-Hut approximation: rebuild the
    /// index, aggregate masses bottom-up, give every particle its
    /// theta-criterion acceleration, then integrate and wrap.
    pub fn update_barnes_hut(&mut self, dt: i128)
        requires
            state_wf(*old(self)),
            0 <= dt <= DT_LIMIT,
        ensures
            final(self).dimensions == old(self).dimensions,
            final(self).config == old(self).config,
            crate::quadtree::tree_inv(
                final(self).quadtree,
                crate::quadtree::positions_of(old(self).particles@),
            ),
            final(self).quadtree.nodes@[0].boundary == old(self).dimensions,
            subtree_bins(final(self).quadtree, 0) == crate::quadtree::inserted_upto(
                crate::quadtree::positions_of(old(self).particles@),
                old(self).dimensions,
                old(self).particles@.len() as int,
            ),
            final(self).particles@.len() == old(self).particles@.len(),
            forall|i: int|
                0 <= i < old(self).particles@.len() ==> tick_outcome(
                    #[trigger] old(self).particles@[i],
                    bh_accel_x(
                        final(self).quadtree,
                        old(self).particles@,
                        0,
                        old(self).particles@[i].position,
                        old(self).config,
                    ),
                    bh_accel_y(
                        final(self).quadtree,
                        old(self).particles@,
                        0,
                        old(self).particles@[i].position,
                        old(self).config,
                    ),
                    tdiv((dt * old(self).config.frame_time_dt_mod) as int, DT_SCALE as int),
                    old(self).dimensions,
                    final(self).particles@[i],
                ),
    {
        let ghost ps = self.particles@;
        let ghost cfg = self.config;
        let ghost dims = self.dimensions;
        proof {
            lemma_tick_dt_bounds(dt as int, cfg.frame_time_dt_mod as int);
        }
        let tick_dt = div_trunc(dt * self.config.frame_time_dt_mod, DT_SCALE);
        self.init_tree();
        let ghost t = self.quadtree;
        proof {
            crate::barnes_hut::lemma_inserted_upto_len(
                crate::quadtree::positions_of(ps),
                dims,
                ps.len() as int,
            );
            lemma_msum_bound(subtree_bins(t, 0), mass_fn(ps), MASS_LIMIT as int);
            assert(subtree_bins(t, 0).len() * (MASS_LIMIT as int) <= MASS_SUM_LIMIT as int)
                by (nonlinear_arith)
                requires
                    0 <= subtree_bins(t, 0).len() <= COUNT_LIMIT as int,
                    COUNT_LIMIT as int * (MASS_LIMIT as int) == MASS_SUM_LIMIT as int,
        {
            }
        }
        let mut barnes_hut = BarnesHutWrapper::new();
        barnes_hut.build_hierarchy(&self.quadtree, &self.particles);
        let accels = self.accelerations(&barnes_hut);
        self.integrate_all(&accels, tick_dt);
    }

    /// One theta-criterion acceleration per particle, over the current
    /// index and aggregation, with the parameters the configuration holds.
    pub fn accelerations(&self, barnes_hut: &BarnesHutWrapper) -> (accels: Vec<Vec2>)
        requires
            state_wf(*self),
            agg_inputs_ok(self.quadtree, self.particles@),
            aggregated(*barnes_hut, self.quadtree, self.particles@),
            subtree_mass(self.quadtree, 0, self.particles@) <= MASS_SUM_LIMIT,
        ensures
            accels@.len() == self.particles@.len(),
            forall|k: int|
                0 <= k < self.particles@.len() ==> (#[trigger] accels@[k]).x == bh_accel_x(
                    self.quadtree,
                    self.particles@,
                    0,
                    self.particles@[k].position,
                    self.config,
                ) && accels@[k].y == bh_accel_y(
                    self.quadtree,
                    self.particles@,
                    0,
                    self.particles@[k].position,
                    self.config,
                ) && -ACCEL_LIMIT <= accels@[k].x <= ACCEL_LIMIT && -ACCEL_LIMIT <= accels@[k].y
                    <= ACCEL_LIMIT,
    {
        let n = self.particles.len();
        let mut accels: Vec<Vec2> = Vec::new();
        let mut i: usize = 0;
        while i < n
            invariant
                state_wf(*self),
                aggregated(*barnes_hut, self.quadtree, self.particles@),
                agg_inputs_ok(self.quadtree, self.particles@),
                subtree_mass(self.quadtree, 0, self.particles@) <= MASS_SUM_LIMIT,
                n == self.particles@.len(),
                i <= n,
                accels@.len() == i,
                forall|k: int|
                    0 <= k < i ==> (#[trigger] accels@[k]).x == bh_accel_x(
                        self.quadtree,
                        self.particles@,
                        0,
                        self.particles@[k].position,
                        self.config,
                    ) && accels@[k].y == bh_accel_y(
                        self.quadtree,
                        self.particles@,
                        0,
                        self.particles@[k].position,
                        self.config,
                    ) && -ACCEL_LIMIT <= accels@[k].x <= ACCEL_LIMIT && -ACCEL_LIMIT
                        <= accels@[k].y <= ACCEL_LIMIT,
            decreases n - i,
        {
            let a = self.barnes_hut_force_recursive(barnes_hut, i);
            accels.push(a);
            i = i + 1;
        }
        accels
    }

    /// One simulation tick with the exact pairwise force sum: every pair of
    /// distinct particles interacts directly. The index is still rebuilt,
    /// as every tick does, so that readers of the tree see current data.
    pub fn update(&mut self, dt: i128)
        requires
            state_wf(*old(self)),
            0 <= dt <= DT_LIMIT,
        ensures
            final(self).dimensions == old(self).dimensions,
            final(self).config == old(self).config,
            crate::quadtree::tree_inv(
                final(self).quadtree,
                crate::quadtree::positions_of(old(self).particles@),
            ),
            final(self).quadtree.nodes@[0].boundary == old(self).dimensions,
            final(self).particles@.len() == old(self).particles@.len(),
            forall|i: int|
                0 <= i < old(self).particles@.len() ==> tick_outcome(
                    #[trigger] old(self).particles@[i],
                    pairwise_accel_x(
                        old(self).particles@,
                        i,
                        old(self).particles@.len() as int,
                        old(self).config,
                    ),
                    pairwise_accel_y(
                        old(self).particles@,
                        i,
                        old(self).particles@.len() as int,
                        old(self).config,
                    ),
                    tdiv((dt * old(self).config.frame_time_dt_mod) as int, DT_SCALE as int),
                    old(self).dimensions,
                    final(self).particles@[i],
                ),
    {
        let ghost ps = self.particles@;
        let ghost cfg = self.config;
        proof {
            lemma_tick_dt_bounds(dt as int, cfg.frame_time_dt_mod as int);
        }
        let tick_dt = div_trunc(dt * self.config.frame_time_dt_mod, DT_SCALE);
        self.init_tree();
        let n = self.particles.len();
        let ghost s1 = *self;
        let mut accels: Vec<Vec2> = Vec::new();
        let mut i: usize = 0;
        while i < n
            invariant
                *self == s1,
                state_wf(s1),
                ps == s1.particles@,
                cfg == s1.config,
                n == s1.particles@.len(),
                i <= n,
                accels@.len() == i,
                forall|k: int|
                    0 <= k < i ==> (#[trigger] accels@[k]).x == pairwise_accel_x(
                        ps,
                        k,
                        n as int,
                        cfg,
                    ) && accels@[k].y == pairwise_accel_y(ps, k, n as int, cfg) && -ACCEL_LIMIT
                        <= accels@[k].x <= ACCEL_LIMIT && -ACCEL_LIMIT <= accels@[k].y
                        <= ACCEL_LIMIT,
            decreases n - i,
        {
            let target = self.particles[i];
            let mut ax: i128 = 0;
            let mut ay: i128 = 0;
            let mut j: usize = 0;
            while j < n
                invariant
                    *self == s1,
                    state_wf(s1),
                    ps == s1.particles@,
                    cfg == s1.config,
                    n == s1.particles@.len(),
                    i < n,
                    j <= n,
                    target == ps[i as int],
                    ax == pairwise_accel_x(ps, i as int, j as int, cfg),
                    ay == pairwise_accel_y(ps, i as int, j as int, cfg),
                decreases n - j,
            {
                proof {
                    lemma_pairwise_bound(ps, i as int, j as int, cfg);
                    lemma_pairwise_bound(ps, i as int, j + 1 as int, cfg);
                    lemma_total_mass_le(ps, j as int);
                    lemma_total_mass_le(ps, j + 1 as int);
                    lemma_accel_budget(
                        cfg.gravity as int,
                        crate::barnes_hut::total_mass(ps, j as int),
                    );
                    lemma_accel_budget(
                        cfg.gravity as int,
                        crate::barnes_hut::total_mass(ps, j + 1 as int),
                    );
                }
                if j != i {
                    let other = self.particles[j];
                    let (cx, cy) = contribution(
                        other.position.x - target.position.x,
                        other.position.y - target.position.y,
                        self.config.gravity,
                        other.mass,
                        self.config.epsilon_squared,
                    );
                    proof {
                        lemma_contrib_in_budget(
                            cfg.gravity as int,
                            other.mass as int,
                            crate::barnes_hut::total_mass(ps, j as int),
                            cx as int,
                            cy as int,
                        );
                    }
                    ax = ax + cx;
                    ay = ay + cy;
                }
                j = j + 1;
            }
            accels.push(Vec2::new(ax, ay));
            proof {
                lemma_pairwise_bound(ps, i as int, n as int, cfg);
                lemma_total_mass_le(ps, n as int);
                lemma_accel_budget(cfg.gravity as int, crate::barnes_hut::total_mass(ps, n as int));
            }
            i = i + 1;
        }
        self.integrate_all(&accels, tick_dt);
    }

    /// Resizes the world: the index is re-rooted on the new boundary (and
    /// cleared; it is rebuilt from the points on the next tick anyway).
    pub fn update_dimensions(&mut self, width: i128, height: i128)
        requires
            state_wf(*old(self)),
            0 <= width <= COORD_LIMIT,
            0 <= height <= COORD_LIMIT,
            old(self).dimensions.min == (Vec2 { x: 0, y: 0 }),
        ensures
            final(self).dimensions.min == old(self).dimensions.min,
            final(self).dimensions.max == (Vec2 { x: width, y: height }),
            final(self).particles == old(self).particles,
            final(self).config == old(self).config,
            tree_wf(final(self).quadtree),
            final(self).quadtree.nodes@[0].boundary == final(self).dimensions,
            final(self).quadtree.leaf_capacity == old(self).quadtree.leaf_capacity,
            final(self).quadtree.nodes@.len() == 1,
            final(self).quadtree.nodes@[0].leaves is None,
            final(self).quadtree.nodes@[0].data_head is None,
            final(self).quadtree.node_pointers@.len() == 0,
            subtree_bins(final(self).quadtree, 0) == vstd::multiset::Multiset::<usize>::empty(),
    {
        self.dimensions.max = Vec2::new(width, height);
        let region = self.dimensions;
        self.quadtree.update_root_region(region);
    }
}

} // verus!
