use crate::geometry::{spec_child_cell, Cell};
use crate::octree::{body_weight, point_le, weight, NodeState, OctreeNode};
use vstd::multiset::Multiset;
use vstd::prelude::*;

verus! {

/// The index held in slot `k` of a node.
pub open spec fn child_of(n: OctreeNode, k: int) -> int {
    n.child_indices@[k] as int
}

/// Component `a` of the aggregate of the child in slot `k` of `n`; 0 for an absent child.
pub open spec fn child_weight(s: Seq<OctreeNode>, n: OctreeNode, k: int, a: int) -> int {
    if child_of(n, k) == 0 {
        0
    } else {
        weight(s[child_of(n, k)], a)
    }
}

/// Component `a` of the aggregates of all children of `n`, summed.
pub open spec fn children_weight(s: Seq<OctreeNode>, n: OctreeNode, a: int) -> int {
    child_weight(s, n, 0, a) + child_weight(s, n, 1, a) + child_weight(s, n, 2, a) + child_weight(
        s,
        n,
        3,
        a,
    ) + child_weight(s, n, 4, a) + child_weight(s, n, 5, a) + child_weight(s, n, 6, a)
        + child_weight(s, n, 7, a)
}

/// Replacing a node that no slot of `n` refers to leaves the children's sum as it is.
pub proof fn lemma_children_weight_frame(s0: Seq<OctreeNode>, s: Seq<OctreeNode>, n: OctreeNode, a: int)
    requires
        forall|k: int|
            0 <= k < 8 && child_of(n, k) != 0 ==> child_of(n, k) < s.len() && child_of(n, k)
                < s0.len() && s[child_of(n, k)] == s0[child_of(n, k)],
    ensures
        children_weight(s, n, a) == children_weight(s0, n, a),
{
    assert forall|k: int| 0 <= k < 8 implies #[trigger] child_weight(s, n, k, a) == child_weight(
        s0,
        n,
        k,
        a,
    ) by {}
    assert(child_weight(s, n, 0, a) == child_weight(s0, n, 0, a));
    assert(child_weight(s, n, 1, a) == child_weight(s0, n, 1, a));
    assert(child_weight(s, n, 2, a) == child_weight(s0, n, 2, a));
    assert(child_weight(s, n, 3, a) == child_weight(s0, n, 3, a));
    assert(child_weight(s, n, 4, a) == child_weight(s0, n, 4, a));
    assert(child_weight(s, n, 5, a) == child_weight(s0, n, 5, a));
    assert(child_weight(s, n, 6, a) == child_weight(s0, n, 6, a));
    assert(child_weight(s, n, 7, a) == child_weight(s0, n, 7, a));
}

/// Replacing the node in slot `slot` of `n`, the only slot that refers to it,
/// changes the children's sum by the change of that node.
pub proof fn lemma_children_weight_slot(
    s0: Seq<OctreeNode>,
    s: Seq<OctreeNode>,
    n: OctreeNode,
    slot: int,
    a: int,
)
    requires
        0 <= slot < 8,
        child_of(n, slot) != 0,
        child_of(n, slot) < s.len(),
        child_of(n, slot) < s0.len(),
        forall|k: int|
            0 <= k < 8 && child_of(n, k) != 0 && k != slot ==> child_of(n, k) < s.len()
                && child_of(n, k) < s0.len() && child_of(n, k) != child_of(n, slot) && s[child_of(
                n,
                k,
            )] == s0[child_of(n, k)],
    ensures
        children_weight(s, n, a) == children_weight(s0, n, a) + weight(s[child_of(n, slot)], a)
            - weight(s0[child_of(n, slot)], a),
{
    assert forall|k: int| 0 <= k < 8 && k != slot implies #[trigger] child_weight(s, n, k, a)
        == child_weight(s0, n, k, a) by {}
    assert(child_weight(s, n, 0, a) == child_weight(s0, n, 0, a) || slot == 0);
    assert(child_weight(s, n, 1, a) == child_weight(s0, n, 1, a) || slot == 1);
    assert(child_weight(s, n, 2, a) == child_weight(s0, n, 2, a) || slot == 2);
    assert(child_weight(s, n, 3, a) == child_weight(s0, n, 3, a) || slot == 3);
    assert(child_weight(s, n, 4, a) == child_weight(s0, n, 4, a) || slot == 4);
    assert(child_weight(s, n, 5, a) == child_weight(s0, n, 5, a) || slot == 5);
    assert(child_weight(s, n, 6, a) == child_weight(s0, n, 6, a) || slot == 6);
    assert(child_weight(s, n, 7, a) == child_weight(s0, n, 7, a) || slot == 7);
}

/// Component `a` of the aggregates of a run of nodes, summed.
pub open spec fn run_weight(s: Seq<OctreeNode>, a: int) -> int
    decreases s.len(),
{
    if s.len() == 0 {
        0
    } else {
        run_weight(s.drop_last(), a) + weight(s.last(), a)
    }
}

/// What every node satisfies, whatever its state: its cell is a cell of the tree
/// no deeper than the cap, an empty node holds nothing, a leaf holds one body, and
/// a non-empty node's box is ordered, measured by `range` and inside its cell.
pub open spec fn common_ok(s: Seq<OctreeNode>, cells: Seq<Cell>, cap: int, j: int) -> bool {
    let n = s[j];
    &&& cells[j].wf()
    &&& cells[j].depth <= cap
    &&& n.state == NodeState::Empty ==> n == crate::octree::spec_empty_node()
    &&& n.state != NodeState::Empty ==> {
        &&& n.box_ok()
        &&& cells[j].contains(n.pos_min)
        &&& cells[j].contains(n.pos_max)
    }
    &&& n.state == NodeState::Body ==> n.is_body_leaf()
}

/// Slot `k` of interior node `j`: an absent child, or a later node whose cell is
/// the octant's sub-cell and whose box lies in `j`'s box. Only the child `pc`
/// (one that a body is on its way to) may still be empty.
pub open spec fn slot_ok(s: Seq<OctreeNode>, cells: Seq<Cell>, j: int, k: int, pc: int) -> bool {
    let c = child_of(s[j], k);
    c != 0 ==> {
        &&& j < c < s.len()
        &&& cells[c] == spec_child_cell(cells[j], k)
        &&& c != pc ==> s[c].state != NodeState::Empty
        &&& s[c].state != NodeState::Empty ==> s[c].box_within(s[j])
    }
}

/// Interior node `j` aggregates its children, plus a body of mass `m` at `p`
/// on its way down to child `pc` (`m == 0` when there is none).
pub open spec fn interior_ok(
    s: Seq<OctreeNode>,
    cells: Seq<Cell>,
    cap: int,
    j: int,
    pc: int,
    p: crate::geometry::Point,
    m: int,
) -> bool {
    &&& cells[j].depth < cap
    &&& pc != -1 ==> point_le(s[j].pos_min, p) && point_le(p, s[j].pos_max)
    &&& forall|k: int| 0 <= k < 8 ==> #[trigger] slot_ok(s, cells, j, k, pc)
    &&& forall|a: int|
        0 <= a < 4 ==> #[trigger] weight(s[j], a) == children_weight(s, s[j], a) + body_weight(
            p,
            m,
            a,
        )
}

/// No node is the child of two interior slots.
pub open spec fn unique_parents(s: Seq<OctreeNode>) -> bool {
    forall|j1: int, k1: int, j2: int, k2: int|
        0 <= j1 < s.len() && 0 <= j2 < s.len() && 0 <= k1 < 8 && 0 <= k2 < 8
            && s[j1].state == NodeState::Interior && s[j2].state == NodeState::Interior
            && child_of(s[j1], k1) != 0 && #[trigger] child_of(s[j1], k1) == #[trigger] child_of(
            s[j2],
            k2,
        ) ==> j1 == j2 && k1 == k2
}

/// Overflow node `j` of a finished array: at the depth cap, with a non-empty run
/// of body leaves after it whose aggregate is its own and whose boxes lie in its box.
pub open spec fn run_ok(s: Seq<OctreeNode>, cells: Seq<Cell>, cap: int, j: int) -> bool {
    let n = s[j];
    let st = child_of(n, 0);
    let cnt = child_of(n, 1);
    &&& cells[j].depth == cap
    &&& j < st
    &&& cnt >= 1
    &&& st + cnt <= s.len()
    &&& forall|k: int| 2 <= k < 8 ==> child_of(n, k) == 0
    &&& forall|i: int|
        st <= i < st + cnt ==> {
            &&& (#[trigger] s[i]).is_body_leaf()
            &&& s[i].box_within(n)
            &&& cells[i] == cells[j]
        }
    &&& forall|a: int| 0 <= a < 4 ==> #[trigger] weight(n, a) == run_weight(s.subrange(st, st + cnt), a)
}

/// Node `j` of a finished array is consistent with the nodes it refers to.
pub open spec fn tree_node_ok(s: Seq<OctreeNode>, cells: Seq<Cell>, cap: int, j: int) -> bool {
    &&& common_ok(s, cells, cap, j)
    &&& s[j].state == NodeState::Interior ==> interior_ok(
        s,
        cells,
        cap,
        j,
        -1,
        crate::geometry::Point { x: 0, y: 0, z: 0 },
        0,
    )
    &&& s[j].state == NodeState::OverflowList ==> run_ok(s, cells, cap, j)
}

/// `s` is a finished octree with depth cap `cap`, `cells[j]` being the cell of node `j`
/// (the cell of its owner for a member of an overflow run).
pub open spec fn octree_with_cells(s: Seq<OctreeNode>, cells: Seq<Cell>, cap: int) -> bool {
    &&& s.len() >= 1
    &&& cells.len() == s.len()
    &&& cells[0] == crate::geometry::spec_root_cell()
    &&& unique_parents(s)
    &&& forall|j: int| 0 <= j < s.len() ==> #[trigger] tree_node_ok(s, cells, cap, j)
}

/// `s` is a finished octree with depth cap `cap`.
pub open spec fn is_octree(s: Seq<OctreeNode>, cap: int) -> bool {
    exists|cells: Seq<Cell>| octree_with_cells(s, cells, cap)
}

/// Component `a` of the aggregate of the first `n` input bodies.
pub open spec fn bodies_weight(ps: Seq<crate::geometry::Point>, ms: Seq<u32>, n: int, a: int) -> int
    decreases n,
{
    if n <= 0 {
        0
    } else {
        bodies_weight(ps, ms, n - 1, a) + body_weight(ps[n - 1], ms[n - 1] as int, a)
    }
}

/// The componentwise minimum of the first `n` positions (`n >= 1`).
pub open spec fn bodies_min(ps: Seq<crate::geometry::Point>, n: int) -> crate::geometry::Point
    decreases n,
{
    if n <= 1 {
        ps[0]
    } else {
        crate::octree::point_min(bodies_min(ps, n - 1), ps[n - 1])
    }
}

/// The componentwise maximum of the first `n` positions (`n >= 1`).
pub open spec fn bodies_max(ps: Seq<crate::geometry::Point>, n: int) -> crate::geometry::Point
    decreases n,
{
    if n <= 1 {
        ps[0]
    } else {
        crate::octree::point_max(bodies_max(ps, n - 1), ps[n - 1])
    }
}

/// All fields but the child slots agree.
pub open spec fn same_but_children(x: OctreeNode, y: OctreeNode) -> bool {
    &&& x.total_mass == y.total_mass
    &&& x.moment_x == y.moment_x
    &&& x.moment_y == y.moment_y
    &&& x.moment_z == y.moment_z
    &&& x.pos_min == y.pos_min
    &&& x.pos_max == y.pos_max
    &&& x.range == y.range
    &&& x.state == y.state
}

/// The body held by a leaf, as a position and a mass.
pub open spec fn leaf_of(n: OctreeNode) -> Multiset<(crate::geometry::Point, int)> {
    if n.state == NodeState::Body {
        Multiset::singleton((n.pos_min, n.total_mass as int))
    } else {
        Multiset::empty()
    }
}

/// The bodies held by the leaves among `s`, with their multiplicities.
pub open spec fn leaf_bodies(s: Seq<OctreeNode>) -> Multiset<(crate::geometry::Point, int)>
    decreases s.len(),
{
    if s.len() == 0 {
        Multiset::empty()
    } else {
        leaf_bodies(s.drop_last()).add(leaf_of(s.last()))
    }
}

/// The first `n` input bodies, with their multiplicities.
pub open spec fn input_bodies(ps: Seq<crate::geometry::Point>, ms: Seq<u32>, n: int) -> Multiset<
    (crate::geometry::Point, int),
>
    decreases n,
{
    if n <= 0 {
        Multiset::empty()
    } else {
        input_bodies(ps, ms, n - 1).insert((ps[n - 1], ms[n - 1] as int))
    }
}

pub proof fn lemma_leaf_bodies_push(s: Seq<OctreeNode>, v: OctreeNode)
    ensures
        leaf_bodies(s.push(v)) == leaf_bodies(s).add(leaf_of(v)),
{
    assert(s.push(v).drop_last() =~= s);
}

/// Replacing node `i` trades its body (if any) for the new node's.
pub proof fn lemma_leaf_bodies_update(s: Seq<OctreeNode>, i: int, v: OctreeNode)
    requires
        0 <= i < s.len(),
    ensures
        leaf_bodies(s.update(i, v)).add(leaf_of(s[i])) =~= leaf_bodies(s).add(leaf_of(v)),
    decreases s.len(),
{
    let t = s.drop_last();
    let u = s.update(i, v);
    if i == s.len() - 1 {
        assert(u.drop_last() =~= t);
        assert(leaf_bodies(u) == leaf_bodies(t).add(leaf_of(v)));
        assert(leaf_bodies(s) == leaf_bodies(t).add(leaf_of(s[i])));
    } else {
        lemma_leaf_bodies_update(t, i, v);
        assert(u.drop_last() =~= t.update(i, v));
        assert(u.last() == s.last());
        assert(t[i] == s[i]);
        assert(leaf_bodies(u) == leaf_bodies(t.update(i, v)).add(leaf_of(s.last())));
        assert(leaf_bodies(s) == leaf_bodies(t).add(leaf_of(s.last())));
        assert forall|x| #[trigger] leaf_bodies(u).add(leaf_of(s[i])).count(x) == leaf_bodies(s).add(leaf_of(v)).count(x) by {
            assert(leaf_bodies(t.update(i, v)).add(leaf_of(t[i])).count(x) == leaf_bodies(t).add(leaf_of(v)).count(x));
        }
    }
}

pub proof fn lemma_leaf_bodies_concat(s1: Seq<OctreeNode>, s2: Seq<OctreeNode>)
    ensures
        leaf_bodies(s1 + s2) =~= leaf_bodies(s1).add(leaf_bodies(s2)),
    decreases s2.len(),
{
    if s2.len() > 0 {
        lemma_leaf_bodies_concat(s1, s2.drop_last());
        assert((s1 + s2).drop_last() =~= s1 + s2.drop_last());
    } else {
        assert(s1 + s2 =~= s1);
    }
}

/// Appending `tail` and then replacing node `idx` by a node without a body moves
/// the body of node `idx` (if any) into `tail`: when `tail` holds exactly that
/// body, the bodies of the array are unchanged.
pub proof fn lemma_leaf_bodies_moved(s0: Seq<OctreeNode>, tail: Seq<OctreeNode>, idx: int, g: OctreeNode)
    requires
        0 <= idx < s0.len(),
        leaf_bodies(tail) =~= leaf_of(s0[idx]),
        g.state != NodeState::Body,
    ensures
        leaf_bodies((s0 + tail).update(idx, g)) =~= leaf_bodies(s0),
{
    let s1 = s0 + tail;
    lemma_leaf_bodies_concat(s0, tail);
    lemma_leaf_bodies_update(s1, idx, g);
    assert(s1[idx] == s0[idx]);
    assert forall|x| #[trigger] leaf_bodies(s1.update(idx, g)).count(x) == leaf_bodies(s0).count(x) by {
        assert(leaf_bodies(s1.update(idx, g)).add(leaf_of(s1[idx])).count(x) == leaf_bodies(s1).add(leaf_of(g)).count(x));
    }
}

} // verus!
