//! Planar geometry for the spatial index: integer 2D vectors and axis-aligned
//! bounding boxes with containment, overlap and quadrant-splitting.
//!
//! Boxes are half-open: a point on a `min` edge is inside, a point on a `max`
//! edge belongs to the neighbouring region. Coordinates of well-formed boxes
//! lie in `[0, COORD_LIMIT]`, which keeps all arithmetic on them exact.

use vstd::prelude::*;

verus! {

/// Largest coordinate a well-formed box may reach (2^30 scaled units).
pub const COORD_LIMIT: i128 = 1_073_741_824;

/// An integer planar vector. Components are scaled units chosen by the caller.
#[derive(Clone, Copy, Debug, PartialEq, Eq, Structural)]
pub struct Vec2 {
    pub x: i128,
    pub y: i128,
}

impl Vec2 {
    pub fn new(x: i128, y: i128) -> (v: Vec2)
        ensures
            v.x == x,
            v.y == y,
    {
        Vec2 { x, y }
    }
}

/// An axis-aligned rectangle `[min.x, max.x) x [min.y, max.y)`.
#[derive(Clone, Copy, Debug, PartialEq, Eq, Structural)]
pub struct BoundingBox {
    pub min: Vec2,
    pub max: Vec2,
}

/// A box the index may own: componentwise ordered, inside `[0, COORD_LIMIT]`.
pub open spec fn box_wf(b: BoundingBox) -> bool {
    &&& 0 <= b.min.x <= b.max.x <= COORD_LIMIT
    &&& 0 <= b.min.y <= b.max.y <= COORD_LIMIT
}

/// Half-open membership: `min` inclusive, `max` exclusive.
pub open spec fn contains_spec(b: BoundingBox, p: Vec2) -> bool {
    &&& b.min.x <= p.x
    &&& b.min.y <= p.y
    &&& p.x < b.max.x
    &&& p.y < b.max.y
}

/// Box overlap as the index tests it: strict against the query's `min`,
/// inclusive against the query's `max`.
pub open spec fn overlaps_spec(a: BoundingBox, b: BoundingBox) -> bool {
    &&& a.max.x > b.min.x
    &&& a.min.x <= b.max.x
    &&& a.max.y > b.min.y
    &&& a.min.y <= b.max.y
}

pub open spec fn width_spec(b: BoundingBox) -> int {
    b.max.x - b.min.x
}

pub open spec fn height_spec(b: BoundingBox) -> int {
    b.max.y - b.min.y
}

pub open spec fn max_dim_spec(b: BoundingBox) -> int {
    if height_spec(b) > width_spec(b) {
        height_spec(b)
    } else {
        width_spec(b)
    }
}

pub open spec fn center_x_spec(b: BoundingBox) -> int {
    b.min.x + (b.max.x - b.min.x) / 2
}

pub open spec fn center_y_spec(b: BoundingBox) -> int {
    b.min.y + (b.max.y - b.min.y) / 2
}

/// A box can be split into strictly smaller quadrants only when one side
/// spans at least two units; unit cells absorb coincident points instead.
pub open spec fn splittable_spec(b: BoundingBox) -> bool {
    width_spec(b) >= 2 || height_spec(b) >= 2
}

/// `child` is quadrant `k` of `parent`, in the fixed order the index uses
/// everywhere: 0 upper-right, 1 lower-left-of-origin, 2 upper-left, 3
/// lower-right, splitting at the floor midpoint.
pub open spec fn is_quadrant(parent: BoundingBox, k: int, child: BoundingBox) -> bool {
    let cx = center_x_spec(parent);
    let cy = center_y_spec(parent);
    if k == 0 {
        child.min.x == cx && child.min.y == parent.min.y && child.max.x == parent.max.x
            && child.max.y == cy
    } else if k == 1 {
        child.min.x == parent.min.x && child.min.y == parent.min.y && child.max.x == cx
            && child.max.y == cy
    } else if k == 2 {
        child.min.x == parent.min.x && child.min.y == cy && child.max.x == cx
            && child.max.y == parent.max.y
    } else if k == 3 {
        child.min.x == cx && child.min.y == cy && child.max.x == parent.max.x
            && child.max.y == parent.max.y
    } else {
        false
    }
}

/// Every quadrant of a well-formed box is well-formed, lies inside its
/// parent, and is strictly smaller whenever the parent was splittable.
pub proof fn lemma_quadrant_wf(parent: BoundingBox, k: int, child: BoundingBox)
    requires
        box_wf(parent),
        0 <= k < 4,
        is_quadrant(parent, k, child),
    ensures
        box_wf(child),
        forall|p: Vec2| contains_spec(child, p) ==> contains_spec(parent, p),
        splittable_spec(parent) ==> max_dim_spec(child) < max_dim_spec(parent),
        max_dim_spec(child) <= max_dim_spec(parent),
{
}

/// The four quadrants of a box are pairwise disjoint and their union is
/// exactly the parent: every point of the parent lies in exactly one of them.
pub proof fn lemma_quadrant_partition(
    parent: BoundingBox,
    c0: BoundingBox,
    c1: BoundingBox,
    c2: BoundingBox,
    c3: BoundingBox,
    p: Vec2,
)
    requires
        box_wf(parent),
        is_quadrant(parent, 0, c0),
        is_quadrant(parent, 1, c1),
        is_quadrant(parent, 2, c2),
        is_quadrant(parent, 3, c3),
    ensures
        contains_spec(parent, p) <==> (contains_spec(c0, p) || contains_spec(c1, p)
            || contains_spec(c2, p) || contains_spec(c3, p)),
        !(contains_spec(c0, p) && contains_spec(c1, p)),
        !(contains_spec(c0, p) && contains_spec(c2, p)),
        !(contains_spec(c0, p) && contains_spec(c3, p)),
        !(contains_spec(c1, p) && contains_spec(c2, p)),
        !(contains_spec(c1, p) && contains_spec(c3, p)),
        !(contains_spec(c2, p) && contains_spec(c3, p)),
{
}

impl BoundingBox {
    pub fn build(min: Vec2, max: Vec2) -> (b: BoundingBox)
        ensures
            b.min == min,
            b.max == max,
    {
        BoundingBox { min, max }
    }

    pub fn height(&self) -> (h: i128)
        requires
            box_wf(*self),
        ensures
            h == height_spec(*self),
    {
        self.max.y - self.min.y
    }

    pub fn width(&self) -> (w: i128)
        requires
            box_wf(*self),
        ensures
            w == width_spec(*self),
    {
        self.max.x - self.min.x
    }

    pub fn max_dimension(&self) -> (d: i128)
        requires
            box_wf(*self),
        ensures
            d == max_dim_spec(*self),
    {
        let h = self.height();
        let w = self.width();
        if h > w {
            h
        } else {
            w
        }
    }

    pub fn contains(&self, point: Vec2) -> (r: bool)
        ensures
            r == contains_spec(*self, point),
    {
        self.min.x <= point.x && self.min.y <= point.y && self.max.x > point.x
            && self.max.y > point.y
    }

    pub fn overlaps(&self, other: &BoundingBox) -> (r: bool)
        ensures
            r == overlaps_spec(*self, *other),
    {
        self.max.x > other.min.x && self.min.x <= other.max.x && self.max.y > other.min.y
            && self.min.y <= other.max.y
    }

    pub fn center(&self) -> (c: Vec2)
        requires
            box_wf(*self),
        ensures
            c.x == center_x_spec(*self),
            c.y == center_y_spec(*self),
    {
        let wx = (self.max.x - self.min.x) as u128;
        let wy = (self.max.y - self.min.y) as u128;
        Vec2 { x: self.min.x + (wx / 2) as i128, y: self.min.y + (wy / 2) as i128 }
    }

    pub fn split_quadrants(&self) -> (quads: [BoundingBox; 4])
        requires
            box_wf(*self),
        ensures
            forall|k: int| 0 <= k < 4 ==> is_quadrant(*self, k, quads@[k]),
    {
        let center = self.center();
        let quads = [
            BoundingBox::build(Vec2::new(center.x, self.min.y), Vec2::new(self.max.x, center.y)),
            BoundingBox::build(self.min, center),
            BoundingBox::build(Vec2::new(self.min.x, center.y), Vec2::new(center.x, self.max.y)),
            BoundingBox::build(center, self.max),
        ];
        assert(forall|k: int| 0 <= k < 4 ==> is_quadrant(*self, k, quads@[k]));
        quads
    }
}

/// If a point lies both in a box and in a query region, the two overlap;
/// this is why overlap pruning never skips a node holding a matching point.
pub proof fn lemma_point_in_both_overlaps(b: BoundingBox, r: BoundingBox, p: Vec2)
    requires
        contains_spec(b, p),
        contains_spec(r, p),
    ensures
        overlaps_spec(b, r),
{
}

/// Maps window mouse coordinates (y grows downward) to world coordinates
/// (y grows upward) within the given dimensions.
pub fn mouse_to_screen(mousex: i128, mousey: i128, dimensions: &BoundingBox) -> (v: Vec2)
    requires
        box_wf(*dimensions),
        -COORD_LIMIT <= mousey <= COORD_LIMIT,
    ensures
        v.x == mousex,
        v.y == height_spec(*dimensions) - mousey,
{
    Vec2::new(mousex, dimensions.max.y - dimensions.min.y - mousey)
}

} // verus!
