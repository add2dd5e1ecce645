use crate::geometry::{lemma_children_partition, spec_child_cell, spec_octant, Cell, Point};
use crate::octree::{NodeState, OctreeNode};
use crate::model::spec_tree;
use crate::tree::{child_of, is_octree, octree_with_cells, run_ok, slot_ok, tree_node_ok};
use vstd::prelude::*;

verus! {

/// Node `c` is one step below node `j`: a child of an interior node, or a member
/// of an overflow node's run.
pub open spec fn is_child(s: Seq<OctreeNode>, j: int, c: int) -> bool {
    &&& 0 <= j < s.len()
    &&& {
        ||| s[j].state == NodeState::Interior && c != 0 && exists|k: int|
            0 <= k < 8 && #[trigger] child_of(s[j], k) == c
        ||| s[j].state == NodeState::OverflowList && child_of(s[j], 0) <= c < child_of(s[j], 0)
            + child_of(s[j], 1)
    }
}

/// Node `i` lies `d` steps below node `j`.
pub open spec fn descends(s: Seq<OctreeNode>, j: int, i: int, d: nat) -> bool
    decreases d,
{
    if d == 0 {
        i == j
    } else {
        exists|c: int| #[trigger] is_child(s, j, c) && descends(s, c, i, (d - 1) as nat)
    }
}

/// One step down the tree stays in the array and inside the box of the node above.
proof fn lemma_step_within(s: Seq<OctreeNode>, cells: Seq<Cell>, cap: int, j: int, c: int)
    requires
        octree_with_cells(s, cells, cap),
        is_child(s, j, c),
    ensures
        j < c < s.len(),
        s[c].state != NodeState::Empty,
        s[c].box_within(s[j]),
        s[j].state == NodeState::Interior ==> cells[c].depth == cells[j].depth + 1,
        s[j].state == NodeState::OverflowList ==> cells[c] == cells[j] && s[c].is_body_leaf()
            && cells[j].depth == cap,
{
    assert(tree_node_ok(s, cells, cap, j));
    if s[j].state == NodeState::Interior {
        let k = choose|k: int| 0 <= k < 8 && #[trigger] child_of(s[j], k) == c;
        assert(slot_ok(s, cells, j, k, -1));
    } else {
        assert(run_ok(s, cells, cap, j));
        assert(s[c].is_body_leaf());
    }
}

/// Every node below node `j` has its box inside `j`'s box; in particular every
/// body in `j`'s subtree lies within `[pos_min, pos_max]` of `j`.
pub proof fn lemma_subtree_within_box(s: Seq<OctreeNode>, cap: int, j: int, i: int, d: nat)
    requires
        is_octree(s, cap),
        0 <= j < s.len(),
        descends(s, j, i, d),
    ensures
        j <= i < s.len(),
        s[i].box_within(s[j]),
        i != j ==> s[i].state != NodeState::Empty,
    decreases d,
{
    let cells = choose|cells: Seq<Cell>| octree_with_cells(s, cells, cap);
    if d > 0 {
        let c = choose|c: int| #[trigger] is_child(s, j, c) && descends(s, c, i, (d - 1) as nat);
        lemma_step_within(s, cells, cap, j, c);
        lemma_subtree_within_box(s, cap, c, i, (d - 1) as nat);
    }
}

/// The cells of the children of an interior node partition its cell: they lie in
/// it, no point lies in two of them, and each point of the parent's cell lies in
/// the child cell of its octant. Every node below the child in slot `k` has its
/// box inside that child's cell.
pub proof fn lemma_spatial_partition(
    s: Seq<OctreeNode>,
    cells: Seq<Cell>,
    cap: int,
    j: int,
    k: int,
    i: int,
    d: nat,
)
    requires
        octree_with_cells(s, cells, cap),
        0 <= j < s.len(),
        s[j].state == NodeState::Interior,
        0 <= k < 8,
        child_of(s[j], k) != 0,
        descends(s, child_of(s[j], k), i, d),
    ensures
        cells[child_of(s[j], k)] == spec_child_cell(cells[j], k),
        forall|k2: int, p: Point|
            0 <= k2 < 8 && #[trigger] spec_child_cell(cells[j], k2).contains(p) ==> cells[j].contains(p),
        forall|k1: int, k2: int, p: Point|
            0 <= k1 < 8 && 0 <= k2 < 8 && #[trigger] spec_child_cell(cells[j], k1).contains(p)
                && #[trigger] spec_child_cell(cells[j], k2).contains(p) ==> k1 == k2,
        forall|p: Point|
            #[trigger] cells[j].contains(p) ==> spec_child_cell(cells[j], spec_octant(cells[j], p)).contains(p),
        cells[child_of(s[j], k)].contains(s[i].pos_min),
        cells[child_of(s[j], k)].contains(s[i].pos_max),
{
    let c = child_of(s[j], k);
    assert(tree_node_ok(s, cells, cap, j));
    assert(slot_ok(s, cells, j, k, -1));
    assert(tree_node_ok(s, cells, cap, c));
    lemma_children_partition(cells[j]);
    lemma_subtree_within_box(s, cap, c, i, d);
    assert(tree_node_ok(s, cells, cap, i));
}

/// A node `d` steps below node `j` is either `d` levels deeper, or it is a body
/// of an overflow run at the depth cap, reached in the last step.
proof fn lemma_depth_along(s: Seq<OctreeNode>, cells: Seq<Cell>, cap: int, j: int, i: int, d: nat)
    requires
        octree_with_cells(s, cells, cap),
        0 <= j < s.len(),
        descends(s, j, i, d),
    ensures
        0 <= i < s.len(),
        cells[i].depth == cells[j].depth + d || (cells[i].depth == cap && cells[j].depth + d
            == cap + 1 && s[i].is_body_leaf()),
        cells[i].depth <= cap,
    decreases d,
{
    assert(tree_node_ok(s, cells, cap, j));
    if d > 0 {
        let c = choose|c: int| #[trigger] is_child(s, j, c) && descends(s, c, i, (d - 1) as nat);
        lemma_step_within(s, cells, cap, j, c);
        lemma_depth_along(s, cells, cap, c, i, (d - 1) as nat);
        if s[j].state == NodeState::OverflowList {
            if d > 1 {
                let c2 = choose|c2: int| #[trigger] is_child(s, c, c2) && descends(s, c2, i, (d - 2) as nat);
                assert(is_child(s, c, c2));
            }
        }
    } else {
        assert(tree_node_ok(s, cells, cap, i));
    }
}

/// No chain from the root is longer than the depth cap, except for one last step
/// into an overflow run: a node `d` steps below the root has `d <= cap + 1`, and
/// at `d == cap + 1` it is a body of a run.
pub proof fn lemma_depth_bound(s: Seq<OctreeNode>, cap: int, i: int, d: nat)
    requires
        is_octree(s, cap),
        descends(s, 0, i, d),
    ensures
        d <= cap + 1,
        d == cap + 1 ==> s[i].is_body_leaf(),
{
    let cells = choose|cells: Seq<Cell>| octree_with_cells(s, cells, cap);
    lemma_depth_along(s, cells, cap, 0, i, d);
}

/// Building twice from the same bodies, in the same order and with the same
/// depth cap, gives the same array: every node, with its aggregates, box and
/// children, is the same.
pub proof fn lemma_rebuild_identical(
    r1: Seq<OctreeNode>,
    r2: Seq<OctreeNode>,
    ps: Seq<Point>,
    ms: Seq<u32>,
    cap: int,
)
    requires
        r1 == spec_tree(ps, ms, cap),
        r2 == spec_tree(ps, ms, cap),
    ensures
        r1.len() == r2.len(),
        forall|j: int| 0 <= j < r1.len() ==> #[trigger] r1[j] == r2[j],
{
}

} // verus!
