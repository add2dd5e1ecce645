use vstd::arithmetic::power2::{lemma2_to64, lemma_pow2_unfold, pow2};
use vstd::prelude::*;

verus! {

/// Depth at which a cell holds a single grid point: the world cube is
/// `[0, 2^32)` on each axis.
pub const GRID_DEPTH: u32 = 32;

/// Edge length of the world cube, in grid units.
pub const WORLD_SIZE: u64 = 4294967296;

/// A body position, as a grid point of the world cube.
#[derive(Clone, Copy, Debug, PartialEq, Eq, Structural)]
pub struct Point {
    pub x: u32,
    pub y: u32,
    pub z: u32,
}

/// An octree cell: the half-open cube `[x, x + size) × [y, y + size) × [z, z + size)`
/// at `depth` levels below the world cube.
#[derive(Clone, Copy, Debug, PartialEq, Eq, Structural)]
pub struct Cell {
    pub x: u64,
    pub y: u64,
    pub z: u64,
    pub size: u64,
    pub depth: u32,
}

/// Edge length of a cell at the given depth.
pub open spec fn cell_size(depth: nat) -> nat {
    pow2((GRID_DEPTH - depth) as nat)
}

impl Cell {
    pub open spec fn wf(self) -> bool {
        &&& self.depth <= GRID_DEPTH
        &&& self.size == cell_size(self.depth as nat)
        &&& self.x + self.size <= WORLD_SIZE
        &&& self.y + self.size <= WORLD_SIZE
        &&& self.z + self.size <= WORLD_SIZE
    }

    pub open spec fn contains(self, p: Point) -> bool {
        &&& self.x <= p.x < self.x + self.size
        &&& self.y <= p.y < self.y + self.size
        &&& self.z <= p.z < self.z + self.size
    }

    /// Half the edge length: the offset of the geometric center from the lower corner.
    pub open spec fn half(self) -> int {
        self.size as int / 2
    }
}

/// The octant of `c` that `p` falls in: bit 2, 1, 0 is set when the x, y, z
/// coordinate is at or above the cell's center on that axis.
pub open spec fn spec_octant(c: Cell, p: Point) -> int {
    (if p.x >= c.x + c.half() { 4int } else { 0int }) + (if p.y >= c.y + c.half() {
        2int
    } else {
        0int
    }) + (if p.z >= c.z + c.half() { 1int } else { 0int })
}

pub open spec fn octant_bit_x(k: int) -> bool {
    k / 4 == 1
}

pub open spec fn octant_bit_y(k: int) -> bool {
    (k / 2) % 2 == 1
}

pub open spec fn octant_bit_z(k: int) -> bool {
    k % 2 == 1
}

/// The sub-cell of `c` for octant `k`: the upper half on each axis whose bit is set.
pub open spec fn spec_child_cell(c: Cell, k: int) -> Cell {
    Cell {
        x: (c.x + if octant_bit_x(k) { c.half() } else { 0 }) as u64,
        y: (c.y + if octant_bit_y(k) { c.half() } else { 0 }) as u64,
        z: (c.z + if octant_bit_z(k) { c.half() } else { 0 }) as u64,
        size: (c.size as int / 2) as u64,
        depth: (c.depth + 1) as u32,
    }
}

/// The cell of the whole world.
pub open spec fn spec_root_cell() -> Cell {
    Cell { x: 0, y: 0, z: 0, size: WORLD_SIZE as u64, depth: 0 }
}

pub proof fn lemma_root_cell_wf()
    ensures
        spec_root_cell().wf(),
        forall|p: Point| spec_root_cell().contains(p),
{
    lemma2_to64();
}

/// A cell above the grid resolution splits into two halves of equal size.
pub proof fn lemma_cell_halves(c: Cell)
    requires
        c.wf(),
        c.depth < GRID_DEPTH,
    ensures
        c.size == 2 * c.half(),
        c.half() == cell_size((c.depth + 1) as nat),
        c.half() >= 1,
{
    let e = (GRID_DEPTH - c.depth - 1) as nat;
    lemma_pow2_unfold((e + 1) as nat);
    vstd::arithmetic::power2::lemma_pow2_pos(e);
}

pub proof fn lemma_child_cell_wf(c: Cell, k: int)
    requires
        c.wf(),
        c.depth < GRID_DEPTH,
        0 <= k < 8,
    ensures
        spec_child_cell(c, k).wf(),
{
    lemma_cell_halves(c);
}

/// The point lies in the child cell of its own octant.
pub proof fn lemma_octant_contains(c: Cell, p: Point)
    requires
        c.wf(),
        c.depth < GRID_DEPTH,
        c.contains(p),
    ensures
        0 <= spec_octant(c, p) < 8,
        spec_child_cell(c, spec_octant(c, p)).contains(p),
{
    lemma_cell_halves(c);
}

/// The eight children of a cell partition it: each lies inside the parent,
/// no point lies in two of them, and every point of the parent lies in the
/// child of its octant.
pub proof fn lemma_children_partition(c: Cell)
    requires
        c.wf(),
        c.depth < GRID_DEPTH,
    ensures
        forall|k: int, p: Point|
            0 <= k < 8 && #[trigger] spec_child_cell(c, k).contains(p) ==> c.contains(p),
        forall|k1: int, k2: int, p: Point|
            0 <= k1 < 8 && 0 <= k2 < 8 && #[trigger] spec_child_cell(c, k1).contains(p)
                && #[trigger] spec_child_cell(c, k2).contains(p) ==> k1 == k2,
        forall|p: Point|
            #[trigger] c.contains(p) ==> spec_child_cell(c, spec_octant(c, p)).contains(p),
{
    lemma_cell_halves(c);
    assert forall|k1: int, k2: int, p: Point|
        0 <= k1 < 8 && 0 <= k2 < 8 && #[trigger] spec_child_cell(c, k1).contains(p)
            && #[trigger] spec_child_cell(c, k2).contains(p) implies k1 == k2 by {
        assert(octant_bit_x(k1) == octant_bit_x(k2));
        assert(octant_bit_y(k1) == octant_bit_y(k2));
        assert(octant_bit_z(k1) == octant_bit_z(k2));
    }
}

/// The octant of `p` in `cell`; ties on a center plane go to the upper octant.
pub fn octant(cell: &Cell, p: Point) -> (k: usize)
    requires
        cell.wf(),
        cell.depth < GRID_DEPTH,
    ensures
        k == spec_octant(*cell, p),
        k < 8,
{
    proof {
        lemma_cell_halves(*cell);
    }
    let half = cell.size / 2;
    let mut k: usize = 0;
    if p.x as u64 >= cell.x + half {
        k = k + 4;
    }
    if p.y as u64 >= cell.y + half {
        k = k + 2;
    }
    if p.z as u64 >= cell.z + half {
        k = k + 1;
    }
    k
}

/// The sub-cell of `cell` for octant `k`.
pub fn child_cell(cell: &Cell, k: usize) -> (r: Cell)
    requires
        cell.wf(),
        cell.depth < GRID_DEPTH,
        k < 8,
    ensures
        r == spec_child_cell(*cell, k as int),
        r.wf(),
{
    proof {
        lemma_child_cell_wf(*cell, k as int);
        lemma_cell_halves(*cell);
    }
    let half = cell.size / 2;
    let x = if k / 4 == 1 { cell.x + half } else { cell.x };
    let y = if (k / 2) % 2 == 1 { cell.y + half } else { cell.y };
    let z = if k % 2 == 1 { cell.z + half } else { cell.z };
    Cell { x, y, z, size: half, depth: cell.depth + 1 }
}

/// The cell of the whole world.
pub fn root_cell() -> (r: Cell)
    ensures
        r == spec_root_cell(),
        r.wf(),
{
    proof {
        lemma_root_cell_wf();
    }
    Cell { x: 0, y: 0, z: 0, size: WORLD_SIZE, depth: 0 }
}

} // verus!
