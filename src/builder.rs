use crate::model::{spec_absorbed, spec_build, spec_compact, spec_insert, spec_open_child, spec_push_to_list, spec_tree, Model};
use crate::geometry::{child_cell, octant, spec_child_cell, spec_octant, spec_root_cell, Cell, Point};
use crate::octree::{
    no_children, absorbed, body_node, body_weight, new_dummy, point_max, point_min, spec_empty_node, weight,
    NodeState, OctreeNode,
};
use crate::tree::{
    bodies_max, bodies_min, bodies_weight, child_of, child_weight, children_weight, common_ok,
    input_bodies, interior_ok, is_octree, leaf_bodies, leaf_of, lemma_children_weight_frame,
    lemma_children_weight_slot, lemma_leaf_bodies_concat, lemma_leaf_bodies_moved,
    lemma_leaf_bodies_push, lemma_leaf_bodies_update, octree_with_cells, run_ok, run_weight,
    same_but_children, slot_ok, tree_node_ok, unique_parents,
};
use vstd::array::spec_array_update;
use vstd::multiset::Multiset;
use vstd::prelude::*;

verus! {

/// The depth cap of `OctreeNode::new_tree`: cells this many levels below the
/// world cube are not split further.
pub const MAX_DEPTH: u32 = 16;

/// The most bodies one tree takes: child indices are `u32`, and each body adds
/// at most `2 * max_depth + 2` nodes.
pub const MAX_BODIES: usize = 33554432;

/// The aggregate of the first `n` input bodies fits far below `u128::MAX`.
proof fn lemma_bodies_weight_bound(ps: Seq<Point>, ms: Seq<u32>, n: int, a: int)
    requires
        0 <= n <= ps.len(),
        ps.len() == ms.len(),
        0 <= a < 4,
    ensures
        0 <= bodies_weight(ps, ms, n, a) <= n * 18446744073709551616,
    decreases n,
{
    if n > 0 {
        lemma_bodies_weight_bound(ps, ms, n - 1, a);
        lemma_body_weight_bound(ps[n - 1], ms[n - 1] as int, a);
    }
}

proof fn lemma_body_weight_bound(p: Point, m: int, a: int)
    requires
        0 <= m <= u32::MAX,
        0 <= a < 4,
    ensures
        0 <= body_weight(p, m, a) <= 18446744073709551616,
{
    assert(0 <= m * p.x <= 18446744073709551616) by (nonlinear_arith)
        requires 0 <= m <= u32::MAX, 0 <= p.x <= u32::MAX;
    assert(0 <= m * p.y <= 18446744073709551616) by (nonlinear_arith)
        requires 0 <= m <= u32::MAX, 0 <= p.y <= u32::MAX;
    assert(0 <= m * p.z <= 18446744073709551616) by (nonlinear_arith)
        requires 0 <= m <= u32::MAX, 0 <= p.z <= u32::MAX;
}

/// Total number of entries of the side lists.
pub open spec fn lists_total(ls: Seq<Vec<OctreeNode>>) -> int
    decreases ls.len(),
{
    if ls.len() == 0 {
        0
    } else {
        lists_total(ls.drop_last()) + ls.last().len()
    }
}

proof fn lemma_lists_total_bounds(ls: Seq<Vec<OctreeNode>>)
    requires
        forall|l: int| 0 <= l < ls.len() ==> #[trigger] ls[l].len() >= 1,
    ensures
        ls.len() <= lists_total(ls),
        forall|l: int| 0 <= l < ls.len() ==> #[trigger] ls[l].len() <= lists_total(ls),
    decreases ls.len(),
{
    if ls.len() > 0 {
        let t = ls.drop_last();
        assert forall|l: int| 0 <= l < t.len() implies #[trigger] t[l].len() >= 1 by {
            assert(t[l] == ls[l]);
        }
        lemma_lists_total_bounds(t);
        assert forall|l: int| 0 <= l < ls.len() implies #[trigger] ls[l].len() <= lists_total(ls) by {
            if l < t.len() {
                assert(t[l] == ls[l]);
            }
        }
    }
}

proof fn lemma_lists_total_prefix(ls: Seq<Vec<OctreeNode>>, l: int)
    requires
        0 <= l <= ls.len(),
    ensures
        0 <= lists_total(ls.subrange(0, l)) <= lists_total(ls),
    decreases ls.len(),
{
    if l < ls.len() {
        assert(ls.drop_last().subrange(0, l) =~= ls.subrange(0, l));
        lemma_lists_total_prefix(ls.drop_last(), l);
    } else {
        assert(ls.subrange(0, l) =~= ls);
    }
    if ls.len() > 0 {
        lemma_lists_total_prefix(ls.drop_last(), ls.len() - 1);
        assert(ls.drop_last().subrange(0, ls.len() - 1) =~= ls.drop_last());
    }
}

proof fn lemma_lists_total_push(ls: Seq<Vec<OctreeNode>>, v: Vec<OctreeNode>)
    ensures
        lists_total(ls.push(v)) == lists_total(ls) + v.len(),
{
    assert(ls.push(v).drop_last() =~= ls);
}

proof fn lemma_lists_total_update(ls: Seq<Vec<OctreeNode>>, l: int, v: Vec<OctreeNode>)
    requires
        0 <= l < ls.len(),
    ensures
        lists_total(ls.update(l, v)) == lists_total(ls) - ls[l].len() + v.len(),
    decreases ls.len(),
{
    if l == ls.len() - 1 {
        assert(ls.update(l, v).drop_last() =~= ls.drop_last());
    } else {
        lemma_lists_total_update(ls.drop_last(), l, v);
        assert(ls.update(l, v).drop_last() =~= ls.drop_last().update(l, v));
    }
}

proof fn lemma_run_weight_push(s: Seq<OctreeNode>, x: OctreeNode, a: int)
    ensures
        run_weight(s.push(x), a) == run_weight(s, a) + weight(x, a),
{
    assert(s.push(x).drop_last() =~= s);
}

/// A leaf's aggregate is that of its one body.
proof fn lemma_leaf_weight(n: OctreeNode)
    requires
        n.is_body_leaf(),
    ensures
        forall|a: int|
            0 <= a < 4 ==> #[trigger] weight(n, a) == body_weight(n.pos_min, n.total_mass as int, a),
{
    let m = n.total_mass as int;
    let q = n.pos_min;
    assert(0 <= m * q.x <= u32::MAX * u32::MAX) by (nonlinear_arith)
        requires 0 <= m <= u32::MAX, 0 <= q.x <= u32::MAX;
    assert(0 <= m * q.y <= u32::MAX * u32::MAX) by (nonlinear_arith)
        requires 0 <= m <= u32::MAX, 0 <= q.y <= u32::MAX;
    assert(0 <= m * q.z <= u32::MAX * u32::MAX) by (nonlinear_arith)
        requires 0 <= m <= u32::MAX, 0 <= q.z <= u32::MAX;
}

/// The bodies held in the side lists.
pub open spec fn lists_bodies(ls: Seq<Vec<OctreeNode>>) -> Multiset<(Point, int)>
    decreases ls.len(),
{
    if ls.len() == 0 {
        Multiset::empty()
    } else {
        lists_bodies(ls.drop_last()).add(leaf_bodies(ls.last()@))
    }
}

proof fn lemma_lists_bodies_push(ls: Seq<Vec<OctreeNode>>, v: Vec<OctreeNode>)
    ensures
        lists_bodies(ls.push(v)) == lists_bodies(ls).add(leaf_bodies(v@)),
{
    assert(ls.push(v).drop_last() =~= ls);
}

proof fn lemma_lists_bodies_update(ls: Seq<Vec<OctreeNode>>, l: int, v: Vec<OctreeNode>)
    requires
        0 <= l < ls.len(),
    ensures
        lists_bodies(ls.update(l, v)).add(leaf_bodies(ls[l]@)) =~= lists_bodies(ls).add(
            leaf_bodies(v@),
        ),
    decreases ls.len(),
{
    let t = ls.drop_last();
    let u = ls.update(l, v);
    if l == ls.len() - 1 {
        assert(u.drop_last() =~= t);
    } else {
        lemma_lists_bodies_update(t, l, v);
        assert(u.drop_last() =~= t.update(l, v));
        assert(u.last() == ls.last());
        assert(t[l] == ls[l]);
        assert forall|x| #[trigger] lists_bodies(u).add(leaf_bodies(ls[l]@)).count(x) == lists_bodies(ls).add(leaf_bodies(v@)).count(x) by {
            assert(lists_bodies(t.update(l, v)).add(leaf_bodies(t[l]@)).count(x) == lists_bodies(t).add(leaf_bodies(v@)).count(x));
        }
    }
}

/// The tree while it is being built: overflow nodes keep their bodies in side
/// lists (`lists[l]` belongs to node `owners[l]`, whose `child_indices[0]` is `l`),
/// which are moved into `nodes` once every body is in.
pub struct TreeBuilder {
    pub nodes: Vec<OctreeNode>,
    pub lists: Vec<Vec<OctreeNode>>,
    pub owners: Vec<usize>,
    pub cells: Ghost<Seq<Cell>>,
    pub max_depth: u32,
}

impl TreeBuilder {
    /// The bodies held by the leaves of the array and of the side lists.
    pub open spec fn bodies(&self) -> Multiset<(Point, int)> {
        leaf_bodies(self.nodes@).add(lists_bodies(self.lists@))
    }

    /// The state as plain sequences.
    pub open spec fn model(&self) -> Model {
        Model {
            nodes: self.nodes@,
            lists: self.lists@.map_values(|v: Vec<OctreeNode>| v@),
            owners: self.owners@,
        }
    }

    /// Nodes in the array and in the side lists.
    pub open spec fn count(&self) -> int {
        self.nodes.len() + lists_total(self.lists@)
    }

    /// Overflow node `j` while building: its bodies are the side list `child_indices[0]`.
    pub open spec fn list_ok(&self, j: int) -> bool {
        let n = self.nodes@[j];
        let l = child_of(n, 0);
        let list = self.lists@[l]@;
        &&& self.cells@[j].depth == self.max_depth
        &&& 0 <= l < self.lists.len()
        &&& self.owners@[l] == j
        &&& child_of(n, 1) == list.len()
        &&& list.len() >= 1
        &&& forall|k: int| 2 <= k < 8 ==> child_of(n, k) == 0
        &&& forall|i: int|
            0 <= i < list.len() ==> (#[trigger] list[i]).is_body_leaf() && list[i].box_within(n)
        &&& forall|a: int| 0 <= a < 4 ==> #[trigger] weight(n, a) == run_weight(list, a)
    }

    /// Each side list is non-empty and belongs to an overflow node that refers to it.
    pub open spec fn lists_owned(&self) -> bool {
        forall|l: int|
            #![trigger self.owners@[l]]
            #![trigger self.lists@[l]]
            0 <= l < self.lists.len() ==> {
                &&& 0 <= self.owners@[l] < self.nodes.len()
                &&& self.nodes@[self.owners@[l] as int].state == NodeState::OverflowList
                &&& child_of(self.nodes@[self.owners@[l] as int], 0) == l
                &&& self.lists@[l].len() >= 1
            }
    }

    /// Node `j` is consistent, but for a body of mass `m` at `p` that is on its
    /// way to its child `pc` when `j` is interior (`pc == -1`: none).
    pub open spec fn node_ok(&self, j: int, pc: int, p: Point, m: int) -> bool {
        let s = self.nodes@;
        &&& common_ok(s, self.cells@, self.max_depth as int, j)
        &&& s[j].state == NodeState::Interior ==> interior_ok(
            s,
            self.cells@,
            self.max_depth as int,
            j,
            pc,
            p,
            m,
        )
        &&& s[j].state == NodeState::OverflowList ==> self.list_ok(j)
    }

    /// Every node is consistent, but for node `par`, whose child `pc` has not yet
    /// received the body of mass `m` at `p` that `par` already counts.
    pub open spec fn inv(&self, par: int, pc: int, p: Point, m: int) -> bool {
        &&& self.nodes.len() >= 1
        &&& self.cells@.len() == self.nodes.len()
        &&& self.owners.len() == self.lists.len()
        &&& self.cells@[0] == spec_root_cell()
        &&& self.max_depth <= crate::geometry::GRID_DEPTH
        &&& unique_parents(self.nodes@)
        &&& self.lists_owned()
        &&& forall|j: int|
            0 <= j < self.nodes.len() && j != par ==> #[trigger] self.node_ok(
                j,
                -1,
                Point { x: 0, y: 0, z: 0 },
                0,
            )
        &&& par != -1 ==> self.node_ok(par, pc, p, m)
    }

    pub open spec fn wf(&self) -> bool {
        self.inv(-1, -1, Point { x: 0, y: 0, z: 0 }, 0)
    }

    /// Node `idx` grew by one body of mass `m` at `p` (which the node above it
    /// already counted), nodes and side lists may have been appended, and the side
    /// lists of other nodes are as they were: every other old node is consistent.
    proof fn lemma_others_ok(&self, b0: TreeBuilder, idx: int, par: int, slot: int, p: Point, m: int)
        requires
            b0.inv(par, idx, p, m),
            0 <= idx < b0.nodes.len(),
            par == -1 ==> idx == 0,
            par != -1 ==> {
                &&& 0 <= par < idx
                &&& 0 <= slot < 8
                &&& b0.nodes@[par].state == NodeState::Interior
                &&& child_of(b0.nodes@[par], slot) == idx
            },
            self.nodes.len() >= b0.nodes.len(),
            forall|j: int| 0 <= j < b0.nodes.len() && j != idx ==> self.nodes@[j] == b0.nodes@[j],
            self.cells@.len() >= b0.cells@.len(),
            forall|j: int| 0 <= j < b0.nodes.len() ==> self.cells@[j] == b0.cells@[j],
            self.lists.len() >= b0.lists.len(),
            self.owners.len() >= b0.owners.len(),
            forall|l: int| 0 <= l < b0.lists.len() ==> self.owners@[l] == b0.owners@[l],
            forall|l: int|
                0 <= l < b0.lists.len() && b0.owners@[l] != idx ==> self.lists@[l] == b0.lists@[l],
            self.max_depth == b0.max_depth,
            self.nodes@[idx].state != NodeState::Empty,
            b0.nodes@[idx].state == NodeState::Empty ==> self.nodes@[idx].pos_min == p
                && self.nodes@[idx].pos_max == p,
            b0.nodes@[idx].state != NodeState::Empty ==> self.nodes@[idx].pos_min == point_min(
                b0.nodes@[idx].pos_min,
                p,
            ) && self.nodes@[idx].pos_max == point_max(b0.nodes@[idx].pos_max, p),
            forall|a: int|
                0 <= a < 4 ==> #[trigger] weight(self.nodes@[idx], a) == weight(b0.nodes@[idx], a)
                    + body_weight(p, m, a),
        ensures
            forall|j: int|
                0 <= j < b0.nodes.len() && j != idx ==> #[trigger] self.node_ok(
                    j,
                    -1,
                    Point { x: 0, y: 0, z: 0 },
                    0,
                ),
    {
        let s0 = b0.nodes@;
        let s = self.nodes@;
        let z = Point { x: 0, y: 0, z: 0 };
        assert forall|j: int| 0 <= j < b0.nodes.len() && j != idx implies #[trigger] self.node_ok(
            j,
            -1,
            z,
            0,
        ) by {
            assert(s[j] == s0[j]);
            let pc = if j == par { idx } else { -1 };
            let mm = if j == par { m } else { 0 };
            let pp = if j == par { p } else { z };
            assert(b0.node_ok(j, pc, pp, mm));
            if s[j].state == NodeState::Interior {
                assert forall|k: int| 0 <= k < 8 implies #[trigger] slot_ok(s, self.cells@, j, k, -1) by {
                    assert(slot_ok(s0, b0.cells@, j, k, pc));
                    if child_of(s[j], k) == idx && idx != 0 {
                        assert(child_of(s0[j], k) == idx);
                        assert(j == par && k == slot) by {
                            if par == -1 {
                            } else {
                                assert(child_of(s0[par], slot) == idx);
                            }
                        }
                    }
                }
                assert forall|a: int| 0 <= a < 4 implies #[trigger] weight(s[j], a)
                    == children_weight(s, s[j], a) + body_weight(z, 0, a) by {
                    assert(weight(s0[j], a) == children_weight(s0, s0[j], a) + body_weight(pp, mm, a));
                    assert forall|k: int| 0 <= k < 8 && child_of(s[j], k) == idx && idx != 0 implies j == par && k == slot by {
                        assert(child_of(s0[j], k) == idx);
                        if par == -1 {
                        } else {
                            assert(child_of(s0[par], slot) == idx);
                        }
                    }
                    if j == par {
                        assert forall|k: int| 0 <= k < 8 && child_of(s[j], k) != 0 && k != slot implies child_of(s[j], k) < s.len()
                            && child_of(s[j], k) < s0.len() && child_of(s[j], k) != child_of(s[j], slot)
                            && s[child_of(s[j], k)] == s0[child_of(s[j], k)] by {
                            assert(slot_ok(s0, b0.cells@, j, k, pc));
                            assert(child_of(s0[j], k) == child_of(s[j], k));
                            assert(child_of(s0[j], slot) == child_of(s[j], slot));
                        }
                        lemma_children_weight_slot(s0, s, s[j], slot, a);
                    } else {
                        assert forall|k: int| 0 <= k < 8 && child_of(s[j], k) != 0 implies child_of(s[j], k) < s.len()
                            && child_of(s[j], k) < s0.len() && s[child_of(s[j], k)] == s0[child_of(s[j], k)] by {
                            assert(slot_ok(s0, b0.cells@, j, k, pc));
                            assert(child_of(s0[j], k) == child_of(s[j], k));
                        }
                        lemma_children_weight_frame(s0, s, s[j], a);
                    }
                }
            }
            if s[j].state == NodeState::OverflowList {
                let l = child_of(s[j], 0);
                assert(b0.list_ok(j));
                assert(self.lists@[l] == b0.lists@[l]);
            }
        }
    }

    /// Only node `idx` changed and it is now interior, each of its children is
    /// either one it had before or an appended node, no two of its slots share a
    /// child, and the appended nodes are not interior: still no node has two parents.
    proof fn lemma_unique_parents_opened(&self, b0: TreeBuilder, idx: int)
        requires
            unique_parents(b0.nodes@),
            0 <= idx < b0.nodes.len(),
            self.nodes.len() >= b0.nodes.len(),
            forall|j: int| 0 <= j < b0.nodes.len() && j != idx ==> self.nodes@[j] == b0.nodes@[j],
            forall|j: int|
                b0.nodes.len() <= j < self.nodes.len() ==> self.nodes@[j].state
                    != NodeState::Interior,
            forall|j: int, k: int|
                0 <= j < b0.nodes.len() && 0 <= k < 8 && b0.nodes@[j].state == NodeState::Interior
                    ==> #[trigger] child_of(b0.nodes@[j], k) < b0.nodes.len(),
            self.nodes@[idx].state == NodeState::Interior,
            forall|k: int|
                0 <= k < 8 && child_of(self.nodes@[idx], k) != 0 ==> child_of(self.nodes@[idx], k)
                    >= b0.nodes.len() || (b0.nodes@[idx].state == NodeState::Interior && child_of(
                    self.nodes@[idx],
                    k,
                ) == child_of(b0.nodes@[idx], k)),
            forall|k1: int, k2: int|
                0 <= k1 < 8 && 0 <= k2 < 8 && k1 != k2 && child_of(self.nodes@[idx], k1) != 0
                    ==> child_of(self.nodes@[idx], k1) != child_of(self.nodes@[idx], k2),
        ensures
            unique_parents(self.nodes@),
    {
        let s = self.nodes@;
        let s0 = b0.nodes@;
        assert forall|j1: int, k1: int, j2: int, k2: int|
            0 <= j1 < s.len() && 0 <= j2 < s.len() && 0 <= k1 < 8 && 0 <= k2 < 8
                && s[j1].state == NodeState::Interior && s[j2].state == NodeState::Interior
                && child_of(s[j1], k1) != 0 && #[trigger] child_of(s[j1], k1) == #[trigger] child_of(
                s[j2],
                k2,
            ) implies j1 == j2 && k1 == k2 by {
            assert(j1 < s0.len() && j2 < s0.len());
            if j1 != idx && j2 != idx {
                assert(s[j1] == s0[j1] && s[j2] == s0[j2]);
                assert(child_of(s0[j1], k1) == child_of(s0[j2], k2));
            } else if j1 == idx && j2 == idx {
            } else if j1 == idx {
                assert(s[j2] == s0[j2]);
                assert(child_of(s0[j2], k2) < s0.len());
                assert(child_of(s0[idx], k1) == child_of(s0[j2], k2));
            } else {
                assert(s[j1] == s0[j1]);
                assert(child_of(s0[j1], k1) < s0.len());
                assert(child_of(s0[idx], k2) == child_of(s0[j1], k1));
            }
        }
    }

    /// Only node `idx` changed, and it is interior neither before nor after; the
    /// appended nodes are not interior: still no node has two parents.
    proof fn lemma_unique_parents_leaf(&self, b0: TreeBuilder, idx: int)
        requires
            unique_parents(b0.nodes@),
            0 <= idx < b0.nodes.len(),
            self.nodes.len() >= b0.nodes.len(),
            forall|j: int| 0 <= j < b0.nodes.len() && j != idx ==> self.nodes@[j] == b0.nodes@[j],
            forall|j: int|
                b0.nodes.len() <= j < self.nodes.len() ==> self.nodes@[j].state
                    != NodeState::Interior,
            self.nodes@[idx].state != NodeState::Interior,
        ensures
            unique_parents(self.nodes@),
    {
        let s = self.nodes@;
        let s0 = b0.nodes@;
        assert forall|j1: int, k1: int, j2: int, k2: int|
            0 <= j1 < s.len() && 0 <= j2 < s.len() && 0 <= k1 < 8 && 0 <= k2 < 8
                && s[j1].state == NodeState::Interior && s[j2].state == NodeState::Interior
                && child_of(s[j1], k1) != 0 && #[trigger] child_of(s[j1], k1) == #[trigger] child_of(
                s[j2],
                k2,
            ) implies j1 == j2 && k1 == k2 by {
            assert(j1 < s0.len() && j2 < s0.len());
            assert(s[j1] == s0[j1] && s[j2] == s0[j2]);
            assert(child_of(s0[j1], k1) == child_of(s0[j2], k2));
        }
    }

    /// What a call that adds a body of mass `m` at `p` to node `idx` needs.
    pub open spec fn insert_pre(&self, idx: int, cell: Cell, p: Point, m: int, par: int, slot: int) -> bool {
        &&& self.inv(par, idx, p, m)
        &&& 0 <= idx < self.nodes.len()
        &&& par == -1 ==> idx == 0
        &&& par != -1 ==> {
            &&& 0 <= par < idx
            &&& 0 <= slot < 8
            &&& self.nodes@[par].state == NodeState::Interior
            &&& child_of(self.nodes@[par], slot) == idx
        }
        &&& cell == self.cells@[idx]
        &&& cell.contains(p)
        &&& forall|a: int|
            0 <= a < 4 ==> weight(self.nodes@[idx], a) + body_weight(p, m, a) <= u128::MAX
        &&& self.count() + 2 * (self.max_depth - cell.depth) + 2 <= u32::MAX
    }

    /// What such a call guarantees: the tree is consistent again, node `idx` has
    /// grown by the body, earlier nodes and the cells of old nodes are untouched,
    /// and at most `2 * (max_depth - depth) + 2` nodes were added.
    pub open spec fn insert_post(&self, b0: TreeBuilder, idx: int, cell: Cell, p: Point, m: int) -> bool {
        &&& self.wf()
        &&& self.max_depth == b0.max_depth
        &&& self.nodes.len() >= b0.nodes.len()
        &&& forall|j: int| 0 <= j < idx ==> self.nodes@[j] == b0.nodes@[j]
        &&& forall|j: int| 0 <= j < b0.nodes.len() ==> self.cells@[j] == b0.cells@[j]
        &&& forall|a: int|
            0 <= a < 4 ==> weight(self.nodes@[idx], a) == weight(b0.nodes@[idx], a) + body_weight(
                p,
                m,
                a,
            )
        &&& b0.nodes@[idx].state == NodeState::Empty ==> {
            &&& self.nodes@[idx].pos_min == p
            &&& self.nodes@[idx].pos_max == p
        }
        &&& b0.nodes@[idx].state != NodeState::Empty ==> {
            &&& self.nodes@[idx].pos_min == point_min(b0.nodes@[idx].pos_min, p)
            &&& self.nodes@[idx].pos_max == point_max(b0.nodes@[idx].pos_max, p)
        }
        &&& self.nodes@[idx].state != NodeState::Empty
        &&& self.count() <= b0.count() + 2 * (b0.max_depth - cell.depth) + 2
        &&& self.bodies() =~= b0.bodies().insert((p, m))
    }

    /// Adds a body to a non-empty node at the depth cap: the node becomes (or
    /// stays) an overflow node, and the body joins its side list.
    fn push_to_list(&mut self, idx: usize, cell: Cell, p: Point, m: u32, par: Ghost<int>, slot: Ghost<int>)
        requires
            old(self).insert_pre(idx as int, cell, p, m as int, par@, slot@),
            cell.depth == old(self).max_depth,
            old(self).nodes@[idx as int].state != NodeState::Empty,
        ensures
            final(self).insert_post(*old(self), idx as int, cell, p, m as int),
            final(self).model() == spec_push_to_list(old(self).model(), idx as int, p, m),
    {
        let ghost z = Point { x: 0, y: 0, z: 0 };
        let n = self.nodes[idx];
        proof {
            assert(self.node_ok(idx as int, -1, z, 0));
            assert(self.lists_owned());
            assert forall|l: int| 0 <= l < self.lists@.len() implies #[trigger] self.lists@[l].len() >= 1 by {
            }
            lemma_lists_total_bounds(self.lists@);
        }
        let mut grown = absorbed(&n, p, m);
        let second = body_node(p, m);
        if n.state == NodeState::Body {
            let l = self.lists.len();
            let first = body_node(n.pos_min, n.total_mass as u32);
            let ghost g0 = grown;
            grown.state = NodeState::OverflowList;
            grown.child_indices = [l as u32, 2, 0, 0, 0, 0, 0, 0];
            let list = vec![first, second];
            proof {
                lemma_lists_total_push(self.lists@, list);
            }
            self.lists.push(list);
            self.owners.push(idx);
            self.nodes.set(idx, grown);
            proof {
                lemma_leaf_weight(n);
                let ls = list@;
                assert(ls.drop_last() =~= seq![first]);
                assert(seq![first].drop_last() =~= Seq::<OctreeNode>::empty());
                assert forall|a: int| 0 <= a < 4 implies #[trigger] weight(grown, a) == weight(n, a) + body_weight(p, m as int, a) by {
                    assert(weight(g0, a) == weight(n, a) + body_weight(p, m as int, a));
                }
                assert(self.nodes@[idx as int] == grown);
                assert(child_of(grown, 0) == l);
                assert(self.lists@[l as int] == list);
                assert(self.owners@[l as int] == idx);
                assert(ls.len() == 2);
                assert(child_of(grown, 1) == 2);
                assert(first.box_within(grown));
                assert(second.box_within(grown));
                assert forall|i: int| 0 <= i < ls.len() implies (#[trigger] ls[i]).is_body_leaf() && ls[i].box_within(grown) by {
                    if i == 0 { assert(ls[i] == first); } else { assert(ls[i] == second); }
                }
                assert forall|a: int| 0 <= a < 4 implies #[trigger] weight(grown, a) == run_weight(ls, a) by {
                    assert(run_weight(ls, a) == run_weight(seq![first], a) + weight(second, a));
                    assert(seq![first].drop_last() =~= Seq::<OctreeNode>::empty());
                    assert(run_weight(Seq::<OctreeNode>::empty(), a) == 0);
                    assert(run_weight(seq![first], a) == weight(first, a));
                }
                assert(self.cells@[idx as int].depth == self.max_depth);
                assert(self.list_ok(idx as int));
                let pa = (n.pos_min, n.total_mass as int);
                lemma_leaf_bodies_update(old(self).nodes@, idx as int, grown);
                lemma_lists_bodies_push(old(self).lists@, list);
                assert(leaf_bodies(ls) == leaf_bodies(seq![first]).add(leaf_of(second)));
                assert(leaf_bodies(seq![first]) == leaf_bodies(Seq::<OctreeNode>::empty()).add(leaf_of(first)));
                assert(leaf_of(first) == Multiset::singleton(pa));
                assert(leaf_of(n) == Multiset::singleton(pa));
                assert(leaf_of(second) == Multiset::singleton((p, m as int)));
                assert(leaf_of(grown) == Multiset::<(Point, int)>::empty());
                let md0 = old(self).model();
                let g = spec_absorbed(n, p, m);
                assert(g0 == g);
                let g2 = OctreeNode {
                    state: NodeState::OverflowList,
                    child_indices: [l as u32, 2, 0, 0, 0, 0, 0, 0],
                    ..g
                };
                assert(grown == g2);
                assert(self.model().nodes =~= md0.nodes.update(idx as int, g2));
                assert(list@ =~= seq![first, second]);
                assert(self.model().lists =~= md0.lists.push(seq![first, second]));
                assert(self.model().owners =~= md0.owners.push(idx));
                assert forall|x| #[trigger] self.bodies().count(x) == old(self).bodies().insert((p, m as int)).count(x) by {
                    assert(leaf_bodies(self.nodes@).add(leaf_of(n)).count(x)
                        == leaf_bodies(old(self).nodes@).add(leaf_of(grown)).count(x));
                }
                self.lemma_others_ok(*old(self), idx as int, par@, slot@, p, m as int);
                self.lemma_unique_parents_leaf(*old(self), idx as int);
                assert forall|l2: int| 0 <= l2 < self.lists.len() implies {
                    &&& 0 <= #[trigger] self.owners@[l2] < self.nodes.len()
                    &&& self.nodes@[self.owners@[l2] as int].state == NodeState::OverflowList
                    &&& child_of(self.nodes@[self.owners@[l2] as int], 0) == l2
                    &&& self.lists@[l2].len() >= 1
                } by {
                    if l2 < old(self).lists.len() {
                    }
                }
            }
        } else {
            let l = n.child_indices[0] as usize;
            proof {
                assert(self.list_ok(idx as int));
            }
            let ghost g0 = grown;
            grown.child_indices.set(1, n.child_indices[1] + 1);
            let ghost list0 = self.lists@[l as int];
            proof {
                lemma_lists_total_update(self.lists@, l as int, self.lists@[l as int]);
            }
            self.lists[l].push(second);
            self.nodes.set(idx, grown);
            proof {
                lemma_lists_total_update(old(self).lists@, l as int, self.lists@[l as int]);
                assert(self.lists@ == old(self).lists@.update(l as int, self.lists@[l as int]));
                assert(self.lists@[l as int]@ == list0@.push(second));
                assert forall|a: int| 0 <= a < 4 implies #[trigger] weight(grown, a) == run_weight(self.lists@[l as int]@, a) by {
                    lemma_run_weight_push(list0@, second, a);
                    assert(weight(g0, a) == weight(n, a) + body_weight(p, m as int, a));
                    assert(weight(n, a) == run_weight(list0@, a));
                    assert(weight(second, a) == body_weight(p, m as int, a));
                }
                assert forall|a: int| 0 <= a < 4 implies #[trigger] weight(grown, a) == weight(n, a) + body_weight(p, m as int, a) by {
                    assert(weight(g0, a) == weight(n, a) + body_weight(p, m as int, a));
                }
                assert(self.nodes@[idx as int] == grown);
                let ls = self.lists@[l as int]@;
                assert forall|i: int| 0 <= i < ls.len() implies (#[trigger] ls[i]).is_body_leaf() && ls[i].box_within(grown) by {
                    if i < list0@.len() {
                        assert(ls[i] == list0@[i]);
                    }
                }
                assert(grown.child_indices@ == n.child_indices@.update(1, (n.child_indices@[1] + 1) as u32));
                assert(child_of(grown, 0) == l);
                assert(self.owners@[l as int] == idx);
                assert(child_of(grown, 1) == ls.len());
                assert forall|k: int| 2 <= k < 8 implies child_of(grown, k) == 0 by {
                    assert(child_of(n, k) == 0);
                }
                assert(self.list_ok(idx as int));
                lemma_leaf_bodies_update(old(self).nodes@, idx as int, grown);
                lemma_lists_bodies_update(old(self).lists@, l as int, self.lists@[l as int]);
                lemma_leaf_bodies_push(list0@, second);
                assert(leaf_of(grown) == Multiset::<(Point, int)>::empty());
                assert(leaf_of(n) == Multiset::<(Point, int)>::empty());
                assert(leaf_of(second) == Multiset::singleton((p, m as int)));
                let md0 = old(self).model();
                let g = spec_absorbed(n, p, m);
                assert(g0 == g);
                let g2 = OctreeNode {
                    child_indices: spec_array_update(n.child_indices, 1, (child_of(n, 1) + 1) as u32),
                    ..g
                };
                assert(grown.child_indices =~= g2.child_indices);
                assert(grown == g2);
                assert(self.model().nodes =~= md0.nodes.update(idx as int, g2));
                assert(md0.lists[l as int] == list0@);
                assert(self.model().lists =~= md0.lists.update(l as int, list0@.push(second)));
                assert forall|x| #[trigger] self.bodies().count(x) == old(self).bodies().insert((p, m as int)).count(x) by {
                    assert(leaf_bodies(self.nodes@).add(leaf_of(n)).count(x)
                        == leaf_bodies(old(self).nodes@).add(leaf_of(grown)).count(x));
                    assert(lists_bodies(self.lists@).add(leaf_bodies(list0@)).count(x)
                        == lists_bodies(old(self).lists@).add(leaf_bodies(ls)).count(x));
                }
                self.lemma_others_ok(*old(self), idx as int, par@, slot@, p, m as int);
                self.lemma_unique_parents_leaf(*old(self), idx as int);
                assert forall|l2: int| 0 <= l2 < self.lists.len() implies {
                    &&& 0 <= #[trigger] self.owners@[l2] < self.nodes.len()
                    &&& self.nodes@[self.owners@[l2] as int].state == NodeState::OverflowList
                    &&& child_of(self.nodes@[self.owners@[l2] as int], 0) == l2
                    &&& self.lists@[l2].len() >= 1
                } by {
                }
            }
        }
    }

    /// Folds a body of mass `m` at `p` into the non-empty node `idx` above the
    /// depth cap, turns a leaf into an interior node whose old body moves to the
    /// child of its octant, and makes sure a child exists in the body's octant:
    /// returns that child, which the body still has to reach.
    fn open_child(&mut self, idx: usize, cell: Cell, p: Point, m: u32, par: Ghost<int>, slot: Ghost<int>) -> (c: usize)
        requires
            old(self).insert_pre(idx as int, cell, p, m as int, par@, slot@),
            cell.depth < old(self).max_depth,
            old(self).nodes@[idx as int].state != NodeState::Empty,
        ensures
            final(self).inv(idx as int, c as int, p, m as int),
            idx < c < final(self).nodes.len(),
            child_of(final(self).nodes@[idx as int], spec_octant(cell, p)) == c,
            final(self).nodes@[idx as int].state == NodeState::Interior,
            final(self).cells@[c as int] == spec_child_cell(cell, spec_octant(cell, p)),
            forall|a: int|
                0 <= a < 4 ==> weight(final(self).nodes@[c as int], a) + body_weight(p, m as int, a)
                    <= u128::MAX,
            final(self).count() <= old(self).count() + 2,
            final(self).bodies() =~= old(self).bodies(),
            (final(self).model(), c as int) == spec_open_child(old(self).model(), idx as int, cell, p, m),
            final(self).max_depth == old(self).max_depth,
            final(self).nodes.len() >= old(self).nodes.len(),
            forall|j: int| 0 <= j < idx ==> final(self).nodes@[j] == old(self).nodes@[j],
            forall|j: int| 0 <= j < old(self).nodes.len() ==> final(self).cells@[j] == old(self).cells@[j],
            forall|a: int|
                0 <= a < 4 ==> weight(final(self).nodes@[idx as int], a) == weight(
                    old(self).nodes@[idx as int],
                    a,
                ) + body_weight(p, m as int, a),
            final(self).nodes@[idx as int].pos_min == point_min(old(self).nodes@[idx as int].pos_min, p),
            final(self).nodes@[idx as int].pos_max == point_max(old(self).nodes@[idx as int].pos_max, p),
    {
        proof {
            assert(old(self).node_ok(idx as int, -1, Point { x: 0, y: 0, z: 0 }, 0));
        }
        if self.nodes[idx].state == NodeState::Body {
            self.split_leaf(idx, cell, p, m, par, slot)
        } else {
            self.step_down(idx, cell, p, m, par, slot)
        }
    }

    /// `open_child` on a leaf: it becomes interior, and its body moves to a new
    /// leaf in the child cell of its octant.
    #[verifier::rlimit(40)]
    fn split_leaf(&mut self, idx: usize, cell: Cell, p: Point, m: u32, par: Ghost<int>, slot: Ghost<int>) -> (c: usize)
        requires
            old(self).insert_pre(idx as int, cell, p, m as int, par@, slot@),
            cell.depth < old(self).max_depth,
            old(self).nodes@[idx as int].state == NodeState::Body,
        ensures
            final(self).inv(idx as int, c as int, p, m as int),
            idx < c < final(self).nodes.len(),
            child_of(final(self).nodes@[idx as int], spec_octant(cell, p)) == c,
            final(self).nodes@[idx as int].state == NodeState::Interior,
            final(self).cells@[c as int] == spec_child_cell(cell, spec_octant(cell, p)),
            forall|a: int|
                0 <= a < 4 ==> weight(final(self).nodes@[c as int], a) + body_weight(p, m as int, a)
                    <= u128::MAX,
            final(self).count() <= old(self).count() + 2,
            final(self).bodies() =~= old(self).bodies(),
            (final(self).model(), c as int) == spec_open_child(old(self).model(), idx as int, cell, p, m),
            final(self).max_depth == old(self).max_depth,
            final(self).nodes.len() >= old(self).nodes.len(),
            forall|j: int| 0 <= j < idx ==> final(self).nodes@[j] == old(self).nodes@[j],
            forall|j: int| 0 <= j < old(self).nodes.len() ==> final(self).cells@[j] == old(self).cells@[j],
            forall|a: int|
                0 <= a < 4 ==> weight(final(self).nodes@[idx as int], a) == weight(
                    old(self).nodes@[idx as int],
                    a,
                ) + body_weight(p, m as int, a),
            final(self).nodes@[idx as int].pos_min == point_min(old(self).nodes@[idx as int].pos_min, p),
            final(self).nodes@[idx as int].pos_max == point_max(old(self).nodes@[idx as int].pos_max, p),
    {
        let ghost z = Point { x: 0, y: 0, z: 0 };
        let ghost b0 = *self;
        let n = self.nodes[idx];
        proof {
            assert(self.node_ok(idx as int, -1, z, 0));
            crate::geometry::lemma_octant_contains(cell, p);
            crate::geometry::lemma_cell_halves(cell);
            assert(self.lists_owned());
            assert forall|l: int| 0 <= l < self.lists@.len() implies #[trigger] self.lists@[l].len() >= 1 by {
            }
            lemma_lists_total_bounds(self.lists@);
            b0.lemma_children_in_range(par@, idx as int, p, m as int);
        }
        let mut grown = absorbed(&n, p, m);
        let ghost g0 = grown;
        let k = octant(&cell, p);
        let sub = child_cell(&cell, k);
        let len = self.nodes.len();
        let c: usize;
        let ka = octant(&cell, n.pos_min);
        let sub_a = child_cell(&cell, ka);
        proof {
            crate::geometry::lemma_octant_contains(cell, n.pos_min);
            lemma_leaf_weight(n);
        }
        let leaf = body_node(n.pos_min, n.total_mass as u32);
        grown.state = NodeState::Interior;
        grown.child_indices = [0, 0, 0, 0, 0, 0, 0, 0];
        if ka == k {
            self.nodes.push(leaf);
            self.cells = Ghost(self.cells@.push(sub));
            grown.child_indices.set(k, len as u32);
        } else {
            self.nodes.push(new_dummy());
            self.nodes.push(leaf);
            self.cells = Ghost(self.cells@.push(sub).push(sub_a));
            grown.child_indices.set(k, len as u32);
            grown.child_indices.set(ka, (len + 1) as u32);
        }
        self.nodes.set(idx, grown);
        c = len;
        proof {
            let s = self.nodes@;
            let ia = if ka == k { len as int } else { len + 1 };
            assert(s[ia] == leaf);
            assert(child_of(grown, ka as int) == ia);
            assert(child_of(grown, k as int) == len);
            assert forall|k2: int| 0 <= k2 < 8 && k2 != k && k2 != ka implies child_of(grown, k2) == 0 by {}
            assert forall|a: int| 0 <= a < 4 implies #[trigger] weight(grown, a) == children_weight(s, grown, a) + body_weight(p, m as int, a) by {
                assert(weight(g0, a) == weight(n, a) + body_weight(p, m as int, a));
                assert forall|k2: int| 0 <= k2 < 8 implies #[trigger] child_weight(s, grown, k2, a) == if k2 == ka { weight(n, a) } else { 0 } by {
                    if k2 == k && k2 != ka {
                        assert(s[len as int] == spec_empty_node());
                    }
                }
            }
            assert forall|k2: int| 0 <= k2 < 8 implies #[trigger] slot_ok(s, self.cells@, idx as int, k2, len as int) by {
                if k2 == ka {
                    assert(self.cells@[ia] == sub_a);
                }
                if k2 == k {
                    assert(self.cells@[len as int] == sub);
                }
            }
            assert(self.node_ok(idx as int, len as int, p, m as int));
            let tail = if ka == k { seq![leaf] } else { seq![spec_empty_node(), leaf] };
            assert(s =~= (b0.nodes@ + tail).update(idx as int, grown));
            assert(leaf_bodies(tail) =~= leaf_of(n)) by {
                assert(leaf_of(leaf) == leaf_of(n));
                assert(leaf_of(spec_empty_node()) == Multiset::<(Point, int)>::empty());
                if ka == k {
                    assert(tail.drop_last() =~= Seq::<OctreeNode>::empty());
                    assert(leaf_bodies(tail) == leaf_bodies(Seq::<OctreeNode>::empty()).add(leaf_of(leaf)));
                } else {
                    assert(tail.drop_last() =~= seq![spec_empty_node()]);
                    assert(tail.drop_last().drop_last() =~= Seq::<OctreeNode>::empty());
                    assert(leaf_bodies(tail) == leaf_bodies(seq![spec_empty_node()]).add(leaf_of(leaf)));
                    assert(leaf_bodies(seq![spec_empty_node()]) == leaf_bodies(Seq::<OctreeNode>::empty()).add(leaf_of(spec_empty_node())));
                }
                assert forall|x| #[trigger] leaf_bodies(tail).count(x) == leaf_of(n).count(x) by {}
            }
            lemma_leaf_bodies_moved(b0.nodes@, tail, idx as int, grown);
            let md0 = b0.model();
            let g = spec_absorbed(n, p, m);
            assert(g0 == g);
            if ka == k {
                let g2 = OctreeNode {
                    state: NodeState::Interior,
                    child_indices: spec_array_update(no_children(), k as int, len as u32),
                    ..g
                };
                assert(grown.child_indices =~= g2.child_indices);
                assert(grown == g2);
                assert(s =~= md0.nodes.push(leaf).update(idx as int, g2));
            } else {
                let g2 = OctreeNode {
                    state: NodeState::Interior,
                    child_indices: spec_array_update(
                        spec_array_update(no_children(), k as int, len as u32),
                        ka as int,
                        (len + 1) as u32,
                    ),
                    ..g
                };
                assert(grown.child_indices =~= g2.child_indices);
                assert(grown == g2);
                assert(s =~= md0.nodes.push(spec_empty_node()).push(leaf).update(idx as int, g2));
            }
            assert forall|j: int| b0.nodes.len() <= j < s.len() implies #[trigger] self.node_ok(j, -1, z, 0) by {
                crate::geometry::lemma_child_cell_wf(cell, k as int);
                crate::geometry::lemma_child_cell_wf(cell, ka as int);
            }
            self.lemma_unique_parents_opened(b0, idx as int);
        }
        proof {
            assert forall|a: int| 0 <= a < 4 implies #[trigger] weight(grown, a) == weight(n, a) + body_weight(p, m as int, a) by {
                assert(weight(g0, a) == weight(n, a) + body_weight(p, m as int, a));
            }
            assert(self.nodes@[idx as int] == grown);
            self.lemma_others_ok(b0, idx as int, par@, slot@, p, m as int);
            assert forall|l: int| 0 <= l < self.lists.len() implies #[trigger] self.owners@[l] != idx by {
            }
            assert(self.lists_owned()) by {
                assert forall|l: int| 0 <= l < self.lists.len() implies #[trigger] self.nodes@[self.owners@[l] as int] == b0.nodes@[b0.owners@[l] as int] by {
                    assert(self.owners@[l] != idx);
                }
            }
        }
        c
    }

    /// `open_child` on an interior node: a child in the body's octant is made if
    /// there is none.
    #[verifier::rlimit(40)]
    fn step_down(&mut self, idx: usize, cell: Cell, p: Point, m: u32, par: Ghost<int>, slot: Ghost<int>) -> (c: usize)
        requires
            old(self).insert_pre(idx as int, cell, p, m as int, par@, slot@),
            cell.depth < old(self).max_depth,
            old(self).nodes@[idx as int].state == NodeState::Interior,
        ensures
            final(self).inv(idx as int, c as int, p, m as int),
            idx < c < final(self).nodes.len(),
            child_of(final(self).nodes@[idx as int], spec_octant(cell, p)) == c,
            final(self).nodes@[idx as int].state == NodeState::Interior,
            final(self).cells@[c as int] == spec_child_cell(cell, spec_octant(cell, p)),
            forall|a: int|
                0 <= a < 4 ==> weight(final(self).nodes@[c as int], a) + body_weight(p, m as int, a)
                    <= u128::MAX,
            final(self).count() <= old(self).count() + 2,
            final(self).bodies() =~= old(self).bodies(),
            (final(self).model(), c as int) == spec_open_child(old(self).model(), idx as int, cell, p, m),
            final(self).max_depth == old(self).max_depth,
            final(self).nodes.len() >= old(self).nodes.len(),
            forall|j: int| 0 <= j < idx ==> final(self).nodes@[j] == old(self).nodes@[j],
            forall|j: int| 0 <= j < old(self).nodes.len() ==> final(self).cells@[j] == old(self).cells@[j],
            forall|a: int|
                0 <= a < 4 ==> weight(final(self).nodes@[idx as int], a) == weight(
                    old(self).nodes@[idx as int],
                    a,
                ) + body_weight(p, m as int, a),
            final(self).nodes@[idx as int].pos_min == point_min(old(self).nodes@[idx as int].pos_min, p),
            final(self).nodes@[idx as int].pos_max == point_max(old(self).nodes@[idx as int].pos_max, p),
    {
        let ghost z = Point { x: 0, y: 0, z: 0 };
        let ghost b0 = *self;
        let n = self.nodes[idx];
        proof {
            assert(self.node_ok(idx as int, -1, z, 0));
            crate::geometry::lemma_octant_contains(cell, p);
            crate::geometry::lemma_cell_halves(cell);
            assert(self.lists_owned());
            assert forall|l: int| 0 <= l < self.lists@.len() implies #[trigger] self.lists@[l].len() >= 1 by {
            }
            lemma_lists_total_bounds(self.lists@);
            b0.lemma_children_in_range(par@, idx as int, p, m as int);
        }
        let mut grown = absorbed(&n, p, m);
        let ghost g0 = grown;
        let k = octant(&cell, p);
        let sub = child_cell(&cell, k);
        let len = self.nodes.len();
        let c: usize;
        let c0 = n.child_indices[k];
        proof {
            assert(slot_ok(b0.nodes@, b0.cells@, idx as int, k as int, -1));
        }
        let ghost g1 = grown;
        c = self.ensure_has_child(&mut grown, k, Ghost(sub));
        self.nodes.set(idx, grown);
        proof {
            assert(same_but_children(grown, g1));
            assert forall|a: int| 0 <= a < 4 implies #[trigger] weight(grown, a) == weight(g1, a) by {}
            let s = self.nodes@;
            let s0 = b0.nodes@;
            assert(self.nodes@[idx as int] == grown);
            assert forall|k2: int| 0 <= k2 < 8 && k2 != k implies child_of(grown, k2) == child_of(n, k2) by {}
            assert forall|k2: int| 0 <= k2 < 8 implies #[trigger] slot_ok(s, self.cells@, idx as int, k2, c as int) by {
                assert(slot_ok(s0, b0.cells@, idx as int, k2, -1));
            }
            assert forall|a: int| 0 <= a < 4 implies #[trigger] weight(grown, a) == children_weight(s, grown, a) + body_weight(p, m as int, a) by {
                assert(weight(g0, a) == weight(n, a) + body_weight(p, m as int, a));
                assert(weight(n, a) == children_weight(s0, n, a));
                assert forall|k2: int| 0 <= k2 < 8 implies #[trigger] child_weight(s, grown, k2, a) == child_weight(s0, n, k2, a) by {
                    assert(slot_ok(s0, b0.cells@, idx as int, k2, -1));
                    if k2 == k && c0 == 0 {
                        assert(s[len as int] == spec_empty_node());
                    }
                }
            }
            assert(self.node_ok(idx as int, c as int, p, m as int));
            let tail = if c0 == 0 { seq![spec_empty_node()] } else { Seq::<OctreeNode>::empty() };
            assert(s =~= (b0.nodes@ + tail).update(idx as int, grown));
            assert(leaf_bodies(tail) =~= leaf_of(n)) by {
                assert(leaf_of(n) == Multiset::<(Point, int)>::empty());
                assert(leaf_of(spec_empty_node()) == Multiset::<(Point, int)>::empty());
                if c0 == 0 {
                    assert(tail.drop_last() =~= Seq::<OctreeNode>::empty());
                    assert(leaf_bodies(tail) == leaf_bodies(Seq::<OctreeNode>::empty()).add(leaf_of(spec_empty_node())));
                }
                assert forall|x| #[trigger] leaf_bodies(tail).count(x) == leaf_of(n).count(x) by {}
            }
            lemma_leaf_bodies_moved(b0.nodes@, tail, idx as int, grown);
            let md0 = b0.model();
            let g = spec_absorbed(n, p, m);
            assert(g0 == g);
            assert(g1 == g);
            if c0 == 0 {
                let g2 = OctreeNode {
                    child_indices: spec_array_update(n.child_indices, k as int, len as u32),
                    ..g
                };
                assert(grown.child_indices =~= g2.child_indices);
                assert(grown == g2);
                assert(s =~= md0.nodes.push(spec_empty_node()).update(idx as int, g2));
            } else {
                assert(grown == g);
                assert(s =~= md0.nodes.update(idx as int, g));
            }
            assert forall|j: int| b0.nodes.len() <= j < s.len() implies #[trigger] self.node_ok(j, -1, z, 0) by {
                crate::geometry::lemma_child_cell_wf(cell, k as int);
            }
            assert forall|k1: int, k2: int|
                0 <= k1 < 8 && 0 <= k2 < 8 && k1 != k2 && child_of(grown, k1) != 0
                    implies child_of(grown, k1) != child_of(grown, k2) by {
                if k1 != k && k2 != k {
                    assert(child_of(s0[idx as int], k1) != child_of(s0[idx as int], k2));
                }
                assert(slot_ok(s0, b0.cells@, idx as int, k1, -1));
                assert(slot_ok(s0, b0.cells@, idx as int, k2, -1));
            }
            self.lemma_unique_parents_opened(b0, idx as int);
        }
        proof {
            assert forall|a: int| 0 <= a < 4 implies #[trigger] weight(grown, a) == weight(n, a) + body_weight(p, m as int, a) by {
                assert(weight(g0, a) == weight(n, a) + body_weight(p, m as int, a));
            }
            assert(self.nodes@[idx as int] == grown);
            self.lemma_others_ok(b0, idx as int, par@, slot@, p, m as int);
            assert forall|l: int| 0 <= l < self.lists.len() implies #[trigger] self.owners@[l] != idx by {
            }
            assert(self.lists_owned()) by {
                assert forall|l: int| 0 <= l < self.lists.len() implies #[trigger] self.nodes@[self.owners@[l] as int] == b0.nodes@[b0.owners@[l] as int] by {
                    assert(self.owners@[l] != idx);
                }
            }
        }
        c
    }

    /// The child in slot `k` of `node`, a node about to be stored: the one it has,
    /// or a new empty node appended to the array, with cell `sub`, and put in that
    /// slot.
    fn ensure_has_child(&mut self, node: &mut OctreeNode, k: usize, sub: Ghost<Cell>) -> (c: usize)
        requires
            k < 8,
            old(self).nodes.len() < u32::MAX,
            old(self).cells@.len() == old(self).nodes.len(),
        ensures
            final(self).lists == old(self).lists,
            final(self).owners == old(self).owners,
            final(self).max_depth == old(self).max_depth,
            same_but_children(*final(node), *old(node)),
            child_of(*old(node), k as int) != 0 ==> {
                &&& c == child_of(*old(node), k as int)
                &&& *final(node) == *old(node)
                &&& final(self).nodes@ == old(self).nodes@
                &&& final(self).cells@ == old(self).cells@
            },
            child_of(*old(node), k as int) == 0 ==> {
                &&& c == old(self).nodes.len()
                &&& final(node).child_indices@ == old(node).child_indices@.update(k as int, c as u32)
                &&& final(self).nodes@ == old(self).nodes@.push(spec_empty_node())
                &&& final(self).cells@ == old(self).cells@.push(sub@)
            },
    {
        if node.child_indices[k] == 0 {
            let i = self.nodes.len();
            self.nodes.push(new_dummy());
            self.cells = Ghost(self.cells@.push(sub@));
            node.child_indices.set(k, i as u32);
            i
        } else {
            node.child_indices[k] as usize
        }
    }

    /// Every child index of an interior node is a later node of the array.
    proof fn lemma_children_in_range(&self, par: int, pc: int, p: Point, m: int)
        requires
            self.inv(par, pc, p, m),
        ensures
            forall|j: int, k: int|
                0 <= j < self.nodes.len() && 0 <= k < 8 && self.nodes@[j].state == NodeState::Interior
                    ==> #[trigger] child_of(self.nodes@[j], k) < self.nodes.len(),
    {
        let z = Point { x: 0, y: 0, z: 0 };
        assert forall|j: int, k: int|
            0 <= j < self.nodes.len() && 0 <= k < 8 && self.nodes@[j].state == NodeState::Interior
                implies #[trigger] child_of(self.nodes@[j], k) < self.nodes.len() by {
            if j == par {
                assert(self.node_ok(j, pc, p, m));
                assert(slot_ok(self.nodes@, self.cells@, j, k, pc));
            } else {
                assert(self.node_ok(j, -1, z, 0));
                assert(slot_ok(self.nodes@, self.cells@, j, k, -1));
            }
        }
    }

    /// Adds a body of mass `m` at `p` to node `idx`, whose cell is `cell`, and to
    /// the nodes below it. `par` is the node above `idx` (which already counts the
    /// body), with `idx` in its slot `slot`; `-1` for the root.
    fn insert(
        &mut self,
        idx: usize,
        cell: Cell,
        p: Point,
        m: u32,
        par: Ghost<int>,
        slot: Ghost<int>,
    )
        requires
            old(self).insert_pre(idx as int, cell, p, m as int, par@, slot@),
        ensures
            final(self).insert_post(*old(self), idx as int, cell, p, m as int),
            final(self).model() == spec_insert(old(self).model(), old(self).max_depth as int, idx as int, cell, p, m),
        decreases old(self).max_depth - cell.depth,
    {
        let n = self.nodes[idx];
        proof {
            assert(old(self).node_ok(idx as int, -1, Point { x: 0, y: 0, z: 0 }, 0));
        }
        if n.state == NodeState::Empty {
            let leaf = body_node(p, m);
            self.nodes.set(idx, leaf);
            proof {
                assert(self.nodes@[idx as int] == leaf);
                self.lemma_others_ok(*old(self), idx as int, par@, slot@, p, m as int);
                self.lemma_unique_parents_leaf(*old(self), idx as int);
                assert(self.node_ok(idx as int, -1, Point { x: 0, y: 0, z: 0 }, 0));
                assert(self.count() == old(self).count());
                lemma_leaf_bodies_update(old(self).nodes@, idx as int, leaf);
                assert(leaf_of(leaf) == Multiset::singleton((p, m as int)));
                assert(leaf_of(old(self).nodes@[idx as int]) == Multiset::<(Point, int)>::empty());
                assert forall|x| #[trigger] self.bodies().count(x) == old(self).bodies().insert((p, m as int)).count(x) by {
                    assert(leaf_bodies(self.nodes@).add(leaf_of(old(self).nodes@[idx as int])).count(x)
                        == leaf_bodies(old(self).nodes@).add(leaf_of(leaf)).count(x));
                }
                assert(self.lists_owned()) by {
                    assert forall|l: int| 0 <= l < self.lists.len() implies #[trigger] self.owners@[l] != idx by {
                        assert(old(self).lists_owned());
                    }
                }
            }
        } else if cell.depth == self.max_depth {
            self.push_to_list(idx, cell, p, m, par, slot);
        } else {
            let k = octant(&cell, p);
            proof {
                crate::geometry::lemma_octant_contains(cell, p);
            }
            let c = self.open_child(idx, cell, p, m, par, slot);
            let sub = child_cell(&cell, k);
            let ghost b1 = *self;
            self.insert(c, sub, p, m, Ghost(idx as int), Ghost(k as int));
            proof {
                assert(self.nodes@[idx as int] == b1.nodes@[idx as int]);
            }
        }
    }

    /// A builder holding only an empty root.
    fn new(max_depth: u32) -> (r: TreeBuilder)
        requires
            max_depth <= crate::geometry::GRID_DEPTH,
        ensures
            r.wf(),
            r.bodies() =~= Multiset::empty(),
            r.model() == (Model { nodes: seq![spec_empty_node()], lists: Seq::empty(), owners: Seq::empty() }),
            r.max_depth == max_depth,
            r.nodes@ == seq![spec_empty_node()],
            r.lists@.len() == 0,
            r.count() == 1,
    {
        let root = new_dummy();
        let mut nodes: Vec<OctreeNode> = Vec::new();
        nodes.push(root);
        let cells = Ghost(Seq::empty().push(spec_root_cell()));
        let r = TreeBuilder {
            nodes,
            lists: Vec::new(),
            owners: Vec::new(),
            cells,
            max_depth,
        };
        proof {
            crate::geometry::lemma_root_cell_wf();
            assert(r.nodes@ =~= seq![spec_empty_node()]);
            assert(r.node_ok(0, -1, Point { x: 0, y: 0, z: 0 }, 0));
            assert(r.nodes@.drop_last() =~= Seq::<OctreeNode>::empty());
            assert(r.lists@ =~= Seq::<Vec<OctreeNode>>::empty());
            assert(leaf_of(spec_empty_node()) == Multiset::<(Point, int)>::empty());
            assert(leaf_bodies(r.nodes@) == leaf_bodies(Seq::<OctreeNode>::empty()).add(leaf_of(spec_empty_node())));
            assert(lists_bodies(r.lists@) == Multiset::<(Point, int)>::empty());
            assert forall|x| #[trigger] r.bodies().count(x) == Multiset::<(Point, int)>::empty().count(x) by {}
            assert(r.model().lists =~= Seq::<Seq<OctreeNode>>::empty());
            assert(r.model().owners =~= Seq::<usize>::empty());
        }
        r
    }

    /// After the side lists were moved: the array is a finished octree.
    proof fn lemma_finished(&self, s: Seq<OctreeNode>, cs: Seq<Cell>, starts: Seq<int>)
        requires
            self.wf(),
            starts.len() == self.lists.len(),
            s.len() == self.nodes.len() + lists_total(self.lists@),
            cs.len() == s.len(),
            forall|j: int| 0 <= j < self.nodes.len() ==> #[trigger] cs[j] == self.cells@[j],
            forall|j: int| 0 <= j < self.nodes.len() ==> same_but_children(#[trigger] s[j], self.nodes@[j]),
            forall|j: int|
                0 <= j < self.nodes.len() && self.nodes@[j].state != NodeState::OverflowList ==> #[trigger] s[j]
                    == self.nodes@[j],
            forall|j: int, k: int|
                0 <= j < self.nodes.len() && 1 <= k < 8 ==> #[trigger] child_of(s[j], k) == child_of(self.nodes@[j], k),
            forall|j: int|
                0 <= j < self.nodes.len() && self.nodes@[j].state == NodeState::OverflowList ==> #[trigger] child_of(s[j], 0)
                    == starts[child_of(self.nodes@[j], 0)],
            forall|i: int|
                self.nodes.len() <= i < s.len() ==> (#[trigger] s[i]).is_body_leaf() && common_ok(
                    s,
                    cs,
                    self.max_depth as int,
                    i,
                ),
            forall|l2: int|
                0 <= l2 < self.lists.len() ==> {
                    &&& self.nodes.len() <= #[trigger] starts[l2]
                    &&& starts[l2] + self.lists@[l2].len() <= s.len()
                    &&& s.subrange(starts[l2], starts[l2] + self.lists@[l2].len()) == self.lists@[l2]@
                    &&& forall|i: int|
                        starts[l2] <= i < starts[l2] + self.lists@[l2].len() ==> #[trigger] cs[i]
                            == self.cells@[self.owners@[l2] as int]
                },
        ensures
            octree_with_cells(s, cs, self.max_depth as int),
            is_octree(s, self.max_depth as int),
    {
        let n0 = self.nodes@;
        let cells0 = self.cells@;
        let cap = self.max_depth as int;
        let z = Point { x: 0, y: 0, z: 0 };
        lemma_lists_total_prefix(self.lists@, self.lists@.len() as int);
        assert(self.lists@.subrange(0, self.lists@.len() as int) =~= self.lists@);
        assert(s.len() >= n0.len());
        assert(cs[0] == cells0[0]);
        assert forall|j: int| 0 <= j < s.len() implies #[trigger] tree_node_ok(s, cs, cap, j) by {
            if j < n0.len() {
                assert(self.node_ok(j, -1, z, 0));
                assert(same_but_children(s[j], n0[j]));
                if n0[j].state == NodeState::Interior {
                    assert(s[j] == n0[j]);
                    assert forall|k: int| 0 <= k < 8 implies #[trigger] slot_ok(s, cs, j, k, -1) by {
                        assert(slot_ok(n0, cells0, j, k, -1));
                        let c = child_of(s[j], k);
                        if c != 0 {
                            assert(same_but_children(s[c], n0[c]));
                            assert(cs[c] == cells0[c]);
                            assert(cs[j] == cells0[j]);
                        }
                    }
                    assert forall|a: int| 0 <= a < 4 implies #[trigger] weight(s[j], a)
                        == children_weight(s, s[j], a) + body_weight(z, 0, a) by {
                        assert forall|k: int| 0 <= k < 8 implies #[trigger] child_weight(s, s[j], k, a)
                            == child_weight(n0, n0[j], k, a) by {
                            assert(slot_ok(n0, cells0, j, k, -1));
                            let c = child_of(s[j], k);
                            if c != 0 {
                                assert(same_but_children(s[c], n0[c]));
                            }
                        }
                    }
                }
                if n0[j].state == NodeState::OverflowList {
                    assert(self.list_ok(j));
                    let l = child_of(n0[j], 0);
                    let st = starts[l];
                    let list = self.lists@[l]@;
                    assert(child_of(s[j], 0) == st);
                    assert(child_of(s[j], 1) == list.len());
                    assert(self.owners@[l] == j);
                    assert(s.subrange(st, st + list.len()) == list);
                    assert forall|i: int| st <= i < st + list.len() implies {
                        &&& (#[trigger] s[i]).is_body_leaf()
                        &&& s[i].box_within(s[j])
                        &&& cs[i] == cs[j]
                    } by {
                        assert(s[i] == list[i - st]);
                    }
                    assert forall|k: int| 2 <= k < 8 implies child_of(s[j], k) == 0 by {
                        assert(child_of(s[j], k) == child_of(n0[j], k));
                    }
                    assert(cs[j] == cells0[j]);
                    assert forall|a: int| 0 <= a < 4 implies #[trigger] weight(s[j], a) == run_weight(s.subrange(st, st + child_of(s[j], 1)), a) by {
                        assert(weight(n0[j], a) == run_weight(list, a));
                    }
                    assert(run_ok(s, cs, cap, j));
                }
            }
        }
        assert forall|j1: int, k1: int, j2: int, k2: int|
            0 <= j1 < s.len() && 0 <= j2 < s.len() && 0 <= k1 < 8 && 0 <= k2 < 8
                && s[j1].state == NodeState::Interior && s[j2].state == NodeState::Interior
                && child_of(s[j1], k1) != 0 && #[trigger] child_of(s[j1], k1) == #[trigger] child_of(
                s[j2],
                k2,
            ) implies j1 == j2 && k1 == k2 by {
            assert(j1 < n0.len() && j2 < n0.len());
            assert(s[j1] == n0[j1] && s[j2] == n0[j2]);
            assert(child_of(n0[j1], k1) == child_of(n0[j2], k2));
        }
        assert(octree_with_cells(s, cs, cap));
    }

    /// Moves each side list, in order, to the end of the array as one run, and
    /// points its owner at the run.
    fn finish(self) -> (r: Vec<OctreeNode>)
        requires
            self.wf(),
            self.count() <= u32::MAX,
        ensures
            is_octree(r@, self.max_depth as int),
            same_but_children(r@[0], self.nodes@[0]),
            r@.len() == self.count(),
            leaf_bodies(r@) =~= self.bodies(),
            r@ == spec_compact(self.model(), self.lists.len() as int),
    {
        let ghost n0 = self.nodes@;
        let ghost ls0 = self.lists@;
        let ghost cells0 = self.cells@;
        let ghost cap = self.max_depth as int;
        let ghost z = Point { x: 0, y: 0, z: 0 };
        proof {
            assert(self.lists_owned());
            assert forall|l: int| 0 <= l < ls0.len() implies #[trigger] ls0[l].len() >= 1 by {
            }
            lemma_lists_total_bounds(ls0);
        }
        let owners = self.owners;
        let mut nodes = self.nodes;
        let mut lists = self.lists;
        let ghost mut starts: Seq<int> = Seq::empty();
        let ghost mut cs: Seq<Cell> = cells0;
        let mut l: usize = 0;
        proof {
            assert(ls0.subrange(0, 0) =~= Seq::<Vec<OctreeNode>>::empty());
            assert forall|x| #[trigger] leaf_bodies(nodes@).count(x) == leaf_bodies(n0).add(lists_bodies(ls0.subrange(0, 0))).count(x) by {}
        }
        while l < lists.len()
            invariant
                self.wf(),
                self.nodes@ == n0,
                self.lists@ == ls0,
                self.cells@ == cells0,
                self.owners@ == owners@,
                self.max_depth == cap,
                0 <= l <= lists.len(),
                lists.len() == ls0.len(),
                owners@.len() == ls0.len(),
                forall|l2: int| l <= l2 < ls0.len() ==> #[trigger] lists@[l2] == ls0[l2],
                forall|l2: int|
                    0 <= l2 < ls0.len() ==> 0 <= #[trigger] owners@[l2] < n0.len() && n0[owners@[l2] as int].state
                        == NodeState::OverflowList && child_of(n0[owners@[l2] as int], 0) == l2,
                n0.len() + lists_total(ls0) <= u32::MAX,
                forall|l2: int| 0 <= l2 < ls0.len() ==> #[trigger] ls0[l2].len() <= lists_total(ls0),
                starts.len() == l,
                nodes.len() == n0.len() + lists_total(ls0.subrange(0, l as int)),
                cs.len() == nodes.len(),
                leaf_bodies(nodes@) =~= leaf_bodies(n0).add(lists_bodies(ls0.subrange(0, l as int))),
                nodes@ == spec_compact(self.model(), l as int),
                forall|j: int| 0 <= j < n0.len() ==> #[trigger] cs[j] == cells0[j],
                forall|j: int| 0 <= j < n0.len() ==> same_but_children(#[trigger] nodes@[j], n0[j]),
                forall|j: int|
                    0 <= j < n0.len() && n0[j].state != NodeState::OverflowList ==> #[trigger] nodes@[j]
                        == n0[j],
                forall|j: int, k: int|
                    0 <= j < n0.len() && 1 <= k < 8 ==> #[trigger] child_of(nodes@[j], k) == child_of(n0[j], k),
                forall|j: int|
                    0 <= j < n0.len() && n0[j].state == NodeState::OverflowList ==> {
                        &&& child_of(n0[j], 0) < l ==> #[trigger] child_of(nodes@[j], 0) == starts[child_of(n0[j], 0)]
                        &&& child_of(n0[j], 0) >= l ==> child_of(nodes@[j], 0) == child_of(n0[j], 0)
                    },
                forall|i: int|
                    n0.len() <= i < nodes.len() ==> (#[trigger] nodes@[i]).is_body_leaf() && common_ok(
                        nodes@,
                        cs,
                        cap,
                        i,
                    ),
                forall|l2: int|
                    0 <= l2 < l ==> {
                        &&& n0.len() <= #[trigger] starts[l2]
                        &&& starts[l2] + ls0[l2].len() <= nodes.len()
                        &&& nodes@.subrange(starts[l2], starts[l2] + ls0[l2].len()) == ls0[l2]@
                        &&& forall|i: int|
                            starts[l2] <= i < starts[l2] + ls0[l2].len() ==> #[trigger] cs[i]
                                == cells0[owners@[l2] as int]
                    },
            decreases lists.len() - l,
        {
            let owner = owners[l];
            let start = nodes.len();
            proof {
                assert(0 <= owners@[l as int] < n0.len());
                assert(ls0.subrange(0, l as int + 1).drop_last() =~= ls0.subrange(0, l as int));
                lemma_lists_total_prefix(ls0, l as int);
            }
            let ghost nodes_prev = nodes@;
            let o0 = nodes[owner];
            let mut o = o0;
            o.child_indices.set(0, start as u32);
            nodes.set(owner, o);
            let ghost before = nodes@;
            let ghost list = lists@[l as int]@;
            proof {
                starts = starts.push(start as int);
                cs = cs + Seq::new(list.len(), |i: int| cells0[owner as int]);
            }
            nodes.append(&mut lists[l]);
            proof {
                assert(nodes@ == before + list);
                let md0 = self.model();
                let patched = OctreeNode {
                    child_indices: spec_array_update(nodes_prev[owner as int].child_indices, 0, nodes_prev.len() as u32),
                    ..nodes_prev[owner as int]
                };
                assert(o.child_indices =~= patched.child_indices);
                assert(o == patched);
                assert(md0.owners[l as int] == owner);
                assert(md0.lists[l as int] == list);
                assert(nodes@ == spec_compact(md0, l + 1));
                lemma_leaf_bodies_concat(before, list);
                assert(before == nodes_prev.update(owner as int, o));
                lemma_leaf_bodies_update(nodes_prev, owner as int, o);
                assert(leaf_of(o) == Multiset::<(Point, int)>::empty());
                assert(leaf_of(o0) == Multiset::<(Point, int)>::empty());
                assert(ls0.subrange(0, l + 1).drop_last() =~= ls0.subrange(0, l as int));
                assert(lists_bodies(ls0.subrange(0, l + 1)) == lists_bodies(ls0.subrange(0, l as int)).add(leaf_bodies(list)));
                assert forall|x| #[trigger] leaf_bodies(nodes@).count(x) == leaf_bodies(n0).add(lists_bodies(ls0.subrange(0, l + 1))).count(x) by {
                    assert(leaf_bodies(before).add(leaf_of(o0)).count(x) == leaf_bodies(nodes_prev).add(leaf_of(o)).count(x));
                }
                assert(self.node_ok(owner as int, -1, Point { x: 0, y: 0, z: 0 }, 0));
                assert forall|j: int, k: int|
                    0 <= j < n0.len() && 1 <= k < 8 implies #[trigger] child_of(nodes@[j], k) == child_of(n0[j], k) by {
                    assert(nodes@[j] == before[j]);
                    if j == owner {
                        assert(before[j] == o);
                        assert(o.child_indices@ == o0.child_indices@.update(0, start as u32));
                        assert(child_of(o0, k) == child_of(n0[j], k));
                    }
                }
                assert(self.list_ok(owner as int));
                assert forall|i: int| n0.len() <= i < nodes.len() implies (#[trigger] nodes@[i]).is_body_leaf() && common_ok(
                    nodes@,
                    cs,
                    cap,
                    i,
                ) by {
                    if i >= start {
                        assert(nodes@[i] == list[i - start]);
                        assert(list[i - start].is_body_leaf());
                        assert(cs[i] == cells0[owner as int]);
                    } else {
                        assert(nodes@[i] == before[i]);
                    }
                }
                assert(nodes@.subrange(start as int, start + list.len()) =~= list);
                assert forall|l2: int| 0 <= l2 < l implies {
                    &&& n0.len() <= #[trigger] starts[l2]
                    &&& starts[l2] + ls0[l2].len() <= nodes.len()
                    &&& nodes@.subrange(starts[l2], starts[l2] + ls0[l2].len()) == ls0[l2]@
                    &&& forall|i: int|
                        starts[l2] <= i < starts[l2] + ls0[l2].len() ==> #[trigger] cs[i]
                            == cells0[owners@[l2] as int]
                } by {
                    assert(nodes@.subrange(starts[l2], starts[l2] + ls0[l2].len()) =~= before.subrange(starts[l2], starts[l2] + ls0[l2].len()));
                }
                assert forall|j: int| 0 <= j < n0.len() && n0[j].state == NodeState::OverflowList implies {
                    &&& child_of(n0[j], 0) < l + 1 ==> #[trigger] child_of(nodes@[j], 0) == starts[child_of(n0[j], 0)]
                    &&& child_of(n0[j], 0) >= l + 1 ==> child_of(nodes@[j], 0) == child_of(n0[j], 0)
                } by {
                    if j == owner {
                    } else {
                        assert(child_of(n0[j], 0) != l) by {
                            assert(self.node_ok(j, -1, Point { x: 0, y: 0, z: 0 }, 0));
                            assert(self.list_ok(j));
                            if child_of(n0[j], 0) == l {
                                assert(child_of(n0[owner as int], 0) == l);
                            }
                        }
                    }
                }
            }
            l = l + 1;
        }
        proof {
            assert(ls0.subrange(0, l as int) =~= ls0);
            assert(leaf_bodies(nodes@) =~= self.bodies());
            assert forall|j: int| 0 <= j < n0.len() && n0[j].state == NodeState::OverflowList implies #[trigger] child_of(nodes@[j], 0)
                == starts[child_of(n0[j], 0)] by {
                assert(self.node_ok(j, -1, z, 0));
                assert(self.list_ok(j));
            }
            self.lemma_finished(nodes@, cs, starts);
        }
        nodes
    }

}

impl OctreeNode {
    /// Builds the tree of the bodies at `positions` with masses `masses`, inserted
    /// in order, with the depth cap `MAX_DEPTH`.
    pub fn new_tree(positions: &[Point], masses: &[u32]) -> (r: Vec<OctreeNode>)
        requires
            positions.len() == masses.len(),
            positions.len() <= MAX_BODIES,
        ensures
            is_octree(r@, MAX_DEPTH as int),
            forall|a: int|
                0 <= a < 4 ==> #[trigger] weight(r@[0], a) == bodies_weight(
                    positions@,
                    masses@,
                    positions.len() as int,
                    a,
                ),
            leaf_bodies(r@) =~= input_bodies(positions@, masses@, positions.len() as int),
            r@ == spec_tree(positions@, masses@, MAX_DEPTH as int),
            positions.len() == 0 ==> r@.len() == 1 && r@[0] == spec_empty_node(),
            positions.len() > 0 ==> {
                &&& r@[0].state != NodeState::Empty
                &&& r@[0].box_ok()
                &&& r@[0].pos_min == bodies_min(positions@, positions.len() as int)
                &&& r@[0].pos_max == bodies_max(positions@, positions.len() as int)
            },
    {
        OctreeNode::new_tree_with_max_depth(positions, masses, MAX_DEPTH)
    }

    /// Builds the tree of the bodies at `positions` with masses `masses`, inserted
    /// in order: a cell `max_depth` levels down is not split, and the bodies that
    /// reach it past the first become an overflow run. With `max_depth ==
    /// GRID_DEPTH` only bodies on the same grid point share a run.
    pub fn new_tree_with_max_depth(positions: &[Point], masses: &[u32], max_depth: u32) -> (r: Vec<OctreeNode>)
        requires
            positions.len() == masses.len(),
            positions.len() <= MAX_BODIES,
            max_depth <= crate::geometry::GRID_DEPTH,
        ensures
            is_octree(r@, max_depth as int),
            forall|a: int|
                0 <= a < 4 ==> #[trigger] weight(r@[0], a) == bodies_weight(
                    positions@,
                    masses@,
                    positions.len() as int,
                    a,
                ),
            leaf_bodies(r@) =~= input_bodies(positions@, masses@, positions.len() as int),
            r@ == spec_tree(positions@, masses@, max_depth as int),
            positions.len() == 0 ==> r@.len() == 1 && r@[0] == spec_empty_node(),
            positions.len() > 0 ==> {
                &&& r@[0].state != NodeState::Empty
                &&& r@[0].box_ok()
                &&& r@[0].pos_min == bodies_min(positions@, positions.len() as int)
                &&& r@[0].pos_max == bodies_max(positions@, positions.len() as int)
            },
    {
        let ghost ps = positions@;
        let ghost ms = masses@;
        let ghost cap = max_depth as int;
        let mut b = TreeBuilder::new(max_depth);
        let mut i: usize = 0;
        while i < positions.len()
            invariant
                b.wf(),
                b.max_depth == max_depth,
                max_depth <= crate::geometry::GRID_DEPTH,
                cap == max_depth as int,
                0 <= i <= positions.len(),
                positions.len() == masses.len(),
                positions.len() <= MAX_BODIES,
                ps == positions@,
                ms == masses@,
                forall|a: int| 0 <= a < 4 ==> #[trigger] weight(b.nodes@[0], a) == bodies_weight(ps, ms, i as int, a),
                i == 0 ==> b.nodes@[0] == spec_empty_node(),
                i > 0 ==> {
                    &&& b.nodes@[0].state != NodeState::Empty
                    &&& b.nodes@[0].pos_min == bodies_min(ps, i as int)
                    &&& b.nodes@[0].pos_max == bodies_max(ps, i as int)
                },
                b.count() <= 1 + i * (2 * cap + 2),
                b.bodies() =~= input_bodies(ps, ms, i as int),
                b.model() == spec_build(ps, ms, cap, i as int),
            decreases positions.len() - i,
        {
            let cell = crate::geometry::root_cell();
            let p = positions[i];
            let m = masses[i];
            proof {
                assert(crate::geometry::GRID_DEPTH == 32);
                crate::geometry::lemma_root_cell_wf();
                assert forall|a: int| 0 <= a < 4 implies weight(b.nodes@[0], a) + body_weight(p, m as int, a) <= u128::MAX by {
                    lemma_bodies_weight_bound(ps, ms, i as int, a);
                    lemma_body_weight_bound(p, m as int, a);
                    assert(i * 18446744073709551616 <= 33554432 * 18446744073709551616) by (nonlinear_arith)
                        requires i <= 33554432;
                }
                assert(i * (2 * cap + 2) + 2 * cap + 2 <= 33554432 * 66) by (nonlinear_arith)
                    requires i + 1 <= 33554432, 0 <= cap <= 32;
                assert(b.inv(-1, 0, p, m as int));
            }
            let ghost b0 = b;
            b.insert(0, cell, p, m, Ghost(-1), Ghost(0));
            proof {
                assert(i * (2 * cap + 2) + 2 * cap + 2 == (i + 1) * (2 * cap + 2)) by (nonlinear_arith);
                assert(input_bodies(ps, ms, i + 1) == input_bodies(ps, ms, i as int).insert((p, m as int)));
                assert forall|x| #[trigger] b.bodies().count(x) == input_bodies(ps, ms, i + 1).count(x) by {
                    assert(b0.bodies().count(x) == input_bodies(ps, ms, i as int).count(x));
                }
                assert forall|a: int| 0 <= a < 4 implies #[trigger] weight(b.nodes@[0], a) == bodies_weight(ps, ms, i + 1, a) by {
                    assert(weight(b0.nodes@[0], a) == bodies_weight(ps, ms, i as int, a));
                }
            }
            i = i + 1;
        }
        proof {
            assert(crate::geometry::GRID_DEPTH == 32);
            assert(i * (2 * cap + 2) <= 33554432 * 66) by (nonlinear_arith)
                requires i <= 33554432, 0 <= cap <= 32;
        }
        let r = b.finish();
        proof {
            assert(b.model().lists.len() == b.lists.len());
            let cells = choose|cells: Seq<crate::geometry::Cell>| octree_with_cells(r@, cells, cap);
            assert(tree_node_ok(r@, cells, cap, 0));
            assert forall|a: int| 0 <= a < 4 implies #[trigger] weight(r@[0], a) == bodies_weight(ps, ms, positions.len() as int, a) by {
                assert(weight(b.nodes@[0], a) == bodies_weight(ps, ms, positions.len() as int, a));
            }
        }
        r
    }
}

} // verus!
