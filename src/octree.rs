use crate::geometry::Point;
use vstd::prelude::*;

verus! {

/// What a node of the tree currently holds.
#[derive(Clone, Copy, Debug, PartialEq, Eq, Structural)]
pub enum NodeState {
    /// No body yet.
    Empty,
    /// Exactly one body, held in the node itself.
    Body,
    /// Bodies spread over up to eight child cells.
    Interior,
    /// Bodies kept as a contiguous run of `Body` nodes, past the depth cap:
    /// `child_indices[0]` is the run's first index, `child_indices[1]` its length.
    OverflowList,
}

/// One record of the flat tree array; index 0 is the root.
///
/// Aggregates are exact: `total_mass` is the sum of the masses below the node,
/// and `moment_x/y/z` the sum of mass times coordinate, so the center of mass is
/// `moment / total_mass`.
#[derive(Clone, Copy, Debug, PartialEq, Eq)]
pub struct OctreeNode {
    pub total_mass: u128,
    pub moment_x: u128,
    pub moment_y: u128,
    pub moment_z: u128,
    pub pos_min: Point,
    pub pos_max: Point,
    /// The largest edge of the bounding box `[pos_min, pos_max]`.
    pub range: u32,
    /// One slot per octant; `0` means no child there.
    pub child_indices: [u32; 8],
    pub state: NodeState,
}

/// Component `a` of a node's aggregate: 0 is the mass, 1, 2, 3 the moments on x, y, z.
pub open spec fn weight(n: OctreeNode, a: int) -> int {
    if a == 0 {
        n.total_mass as int
    } else if a == 1 {
        n.moment_x as int
    } else if a == 2 {
        n.moment_y as int
    } else {
        n.moment_z as int
    }
}

/// Component `a` of the aggregate of one body of mass `m` at `p`.
pub open spec fn body_weight(p: Point, m: int, a: int) -> int {
    if a == 0 {
        m
    } else if a == 1 {
        m * p.x
    } else if a == 2 {
        m * p.y
    } else {
        m * p.z
    }
}

pub open spec fn spec_min(a: u32, b: u32) -> u32 {
    if a <= b { a } else { b }
}

pub open spec fn spec_max(a: u32, b: u32) -> u32 {
    if a >= b { a } else { b }
}

pub open spec fn point_min(p: Point, q: Point) -> Point {
    Point { x: spec_min(p.x, q.x), y: spec_min(p.y, q.y), z: spec_min(p.z, q.z) }
}

pub open spec fn point_max(p: Point, q: Point) -> Point {
    Point { x: spec_max(p.x, q.x), y: spec_max(p.y, q.y), z: spec_max(p.z, q.z) }
}

/// `p <= q` on every axis.
pub open spec fn point_le(p: Point, q: Point) -> bool {
    p.x <= q.x && p.y <= q.y && p.z <= q.z
}

/// The largest edge of the box `[lo, hi]`.
pub open spec fn spec_range(lo: Point, hi: Point) -> int {
    let dx = hi.x - lo.x;
    let dy = hi.y - lo.y;
    let dz = hi.z - lo.z;
    if dx >= dy && dx >= dz {
        dx
    } else if dy >= dz {
        dy
    } else {
        dz
    }
}

pub open spec fn no_children() -> [u32; 8] {
    [0u32, 0u32, 0u32, 0u32, 0u32, 0u32, 0u32, 0u32]
}

pub open spec fn spec_empty_node() -> OctreeNode {
    OctreeNode {
        total_mass: 0,
        moment_x: 0,
        moment_y: 0,
        moment_z: 0,
        pos_min: Point { x: 0, y: 0, z: 0 },
        pos_max: Point { x: 0, y: 0, z: 0 },
        range: 0,
        child_indices: no_children(),
        state: NodeState::Empty,
    }
}

/// The leaf that holds exactly one body of mass `m` at `p`.
pub open spec fn spec_body_node(p: Point, m: u32) -> OctreeNode {
    OctreeNode {
        total_mass: m as u128,
        moment_x: (m * p.x) as u128,
        moment_y: (m * p.y) as u128,
        moment_z: (m * p.z) as u128,
        pos_min: p,
        pos_max: p,
        range: 0,
        child_indices: no_children(),
        state: NodeState::Body,
    }
}

impl OctreeNode {
    /// A leaf of one body: its position is `pos_min`, its mass `total_mass`.
    pub open spec fn is_body_leaf(self) -> bool {
        &&& self.state == NodeState::Body
        &&& self.total_mass <= u32::MAX
        &&& self == spec_body_node(self.pos_min, self.total_mass as u32)
    }

    /// The bounding box is ordered and `range` is its largest edge.
    pub open spec fn box_ok(self) -> bool {
        &&& point_le(self.pos_min, self.pos_max)
        &&& self.range == spec_range(self.pos_min, self.pos_max)
    }

    /// The box of `self` lies within the box of `outer`.
    pub open spec fn box_within(self, outer: OctreeNode) -> bool {
        point_le(outer.pos_min, self.pos_min) && point_le(self.pos_max, outer.pos_max)
    }

    /// The center of mass, rounded down on each axis; `None` when the mass is zero.
    pub fn center_of_mass(&self) -> (r: Option<Point>)
        requires
            self.moment_x <= self.total_mass * u32::MAX,
            self.moment_y <= self.total_mass * u32::MAX,
            self.moment_z <= self.total_mass * u32::MAX,
        ensures
            self.total_mass == 0 ==> r.is_none(),
            self.total_mass > 0 ==> r == Some(
                Point {
                    x: (self.moment_x / self.total_mass) as u32,
                    y: (self.moment_y / self.total_mass) as u32,
                    z: (self.moment_z / self.total_mass) as u32,
                },
            ),
    {
        if self.total_mass == 0 {
            return None;
        }
        let m = self.total_mass;
        proof {
            assert(self.moment_x / m <= u32::MAX) by {
                vstd::arithmetic::div_mod::lemma_div_is_ordered(
                    self.moment_x as int,
                    m * u32::MAX,
                    m as int,
                );
                vstd::arithmetic::div_mod::lemma_div_by_multiple(u32::MAX as int, m as int);
                vstd::arithmetic::mul::lemma_mul_is_commutative(m as int, u32::MAX as int);
            }
            assert(self.moment_y / m <= u32::MAX) by {
                vstd::arithmetic::div_mod::lemma_div_is_ordered(
                    self.moment_y as int,
                    m * u32::MAX,
                    m as int,
                );
                vstd::arithmetic::div_mod::lemma_div_by_multiple(u32::MAX as int, m as int);
                vstd::arithmetic::mul::lemma_mul_is_commutative(m as int, u32::MAX as int);
            }
            assert(self.moment_z / m <= u32::MAX) by {
                vstd::arithmetic::div_mod::lemma_div_is_ordered(
                    self.moment_z as int,
                    m * u32::MAX,
                    m as int,
                );
                vstd::arithmetic::div_mod::lemma_div_by_multiple(u32::MAX as int, m as int);
                vstd::arithmetic::mul::lemma_mul_is_commutative(m as int, u32::MAX as int);
            }
        }
        Some(
            Point {
                x: (self.moment_x / m) as u32,
                y: (self.moment_y / m) as u32,
                z: (self.moment_z / m) as u32,
            },
        )
    }
}

/// A node that holds nothing.
pub fn new_dummy() -> (r: OctreeNode)
    ensures
        r == spec_empty_node(),
{
    OctreeNode {
        total_mass: 0,
        moment_x: 0,
        moment_y: 0,
        moment_z: 0,
        pos_min: Point { x: 0, y: 0, z: 0 },
        pos_max: Point { x: 0, y: 0, z: 0 },
        range: 0,
        child_indices: [0u32, 0u32, 0u32, 0u32, 0u32, 0u32, 0u32, 0u32],
        state: NodeState::Empty,
    }
}

/// The leaf of one body.
pub fn body_node(p: Point, m: u32) -> (r: OctreeNode)
    ensures
        r == spec_body_node(p, m),
        r.is_body_leaf(),
        r.box_ok(),
        forall|a: int| 0 <= a < 4 ==> weight(r, a) == body_weight(p, m as int, a),
{
    proof {
        assert(m * p.x <= u32::MAX * u32::MAX) by (nonlinear_arith);
        assert(m * p.y <= u32::MAX * u32::MAX) by (nonlinear_arith);
        assert(m * p.z <= u32::MAX * u32::MAX) by (nonlinear_arith);
    }
    OctreeNode {
        total_mass: m as u128,
        moment_x: m as u128 * p.x as u128,
        moment_y: m as u128 * p.y as u128,
        moment_z: m as u128 * p.z as u128,
        pos_min: p,
        pos_max: p,
        range: 0,
        child_indices: [0u32, 0u32, 0u32, 0u32, 0u32, 0u32, 0u32, 0u32],
        state: NodeState::Body,
    }
}

fn min_u32(a: u32, b: u32) -> (r: u32)
    ensures
        r == spec_min(a, b),
{
    if a <= b {
        a
    } else {
        b
    }
}

fn max_u32(a: u32, b: u32) -> (r: u32)
    ensures
        r == spec_max(a, b),
{
    if a >= b {
        a
    } else {
        b
    }
}

/// The largest edge of the box `[lo, hi]`.
pub fn box_range(lo: Point, hi: Point) -> (r: u32)
    requires
        point_le(lo, hi),
    ensures
        r == spec_range(lo, hi),
{
    let dx = hi.x - lo.x;
    let dy = hi.y - lo.y;
    let dz = hi.z - lo.z;
    if dx >= dy && dx >= dz {
        dx
    } else if dy >= dz {
        dy
    } else {
        dz
    }
}

/// `n` with one more body of mass `m` at `p` folded into its aggregate and its box;
/// state and children are left as they are.
pub fn absorbed(n: &OctreeNode, p: Point, m: u32) -> (r: OctreeNode)
    requires
        point_le(n.pos_min, n.pos_max),
        forall|a: int| 0 <= a < 4 ==> weight(*n, a) + body_weight(p, m as int, a) <= u128::MAX,
    ensures
        forall|a: int| 0 <= a < 4 ==> weight(r, a) == weight(*n, a) + body_weight(p, m as int, a),
        r.pos_min == point_min(n.pos_min, p),
        r.pos_max == point_max(n.pos_max, p),
        r.box_ok(),
        r.state == n.state,
        r.child_indices == n.child_indices,
        r == crate::model::spec_absorbed(*n, p, m),
{
    assert(weight(*n, 0) + body_weight(p, m as int, 0) <= u128::MAX);
    assert(weight(*n, 1) + body_weight(p, m as int, 1) <= u128::MAX);
    assert(weight(*n, 2) + body_weight(p, m as int, 2) <= u128::MAX);
    assert(weight(*n, 3) + body_weight(p, m as int, 3) <= u128::MAX);
    proof {
        assert(m * p.x <= u32::MAX * u32::MAX) by (nonlinear_arith);
        assert(m * p.y <= u32::MAX * u32::MAX) by (nonlinear_arith);
        assert(m * p.z <= u32::MAX * u32::MAX) by (nonlinear_arith);
    }
    let lo = Point {
        x: min_u32(n.pos_min.x, p.x),
        y: min_u32(n.pos_min.y, p.y),
        z: min_u32(n.pos_min.z, p.z),
    };
    let hi = Point {
        x: max_u32(n.pos_max.x, p.x),
        y: max_u32(n.pos_max.y, p.y),
        z: max_u32(n.pos_max.z, p.z),
    };
    OctreeNode {
        total_mass: n.total_mass + m as u128,
        moment_x: n.moment_x + m as u128 * p.x as u128,
        moment_y: n.moment_y + m as u128 * p.y as u128,
        moment_z: n.moment_z + m as u128 * p.z as u128,
        pos_min: lo,
        pos_max: hi,
        range: box_range(lo, hi),
        child_indices: n.child_indices,
        state: n.state,
    }
}

} // verus!
