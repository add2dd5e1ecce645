use crate::geometry::{spec_child_cell, spec_octant, spec_root_cell, Cell, Point};
use crate::octree::{
    no_children, point_max, point_min, spec_body_node, spec_empty_node, spec_range, NodeState,
    OctreeNode,
};
use crate::tree::child_of;
use vstd::array::spec_array_update;
use vstd::prelude::*;

verus! {

/// The state of a build: the node array, the side lists of the overflow nodes,
/// and the owner of each side list.
pub struct Model {
    pub nodes: Seq<OctreeNode>,
    pub lists: Seq<Seq<OctreeNode>>,
    pub owners: Seq<usize>,
}

/// `n` with one more body of mass `m` at `p` in its aggregate and its box.
pub open spec fn spec_absorbed(n: OctreeNode, p: Point, m: u32) -> OctreeNode {
    let lo = point_min(n.pos_min, p);
    let hi = point_max(n.pos_max, p);
    OctreeNode {
        total_mass: (n.total_mass + m) as u128,
        moment_x: (n.moment_x + m * p.x) as u128,
        moment_y: (n.moment_y + m * p.y) as u128,
        moment_z: (n.moment_z + m * p.z) as u128,
        pos_min: lo,
        pos_max: hi,
        range: spec_range(lo, hi) as u32,
        child_indices: n.child_indices,
        state: n.state,
    }
}

/// Folding a body into the non-empty node `idx` above the depth cap: the node
/// becomes interior (its own body, if it held one, moves to a new leaf in the
/// child of its octant) and has a child in the body's octant. Returns the new
/// state and that child.
pub open spec fn spec_open_child(md: Model, idx: int, cell: Cell, p: Point, m: u32) -> (Model, int) {
    let n = md.nodes[idx];
    let g = spec_absorbed(n, p, m);
    let k = spec_octant(cell, p);
    let len = md.nodes.len();
    if n.state == NodeState::Body {
        let ka = spec_octant(cell, n.pos_min);
        let leaf = spec_body_node(n.pos_min, n.total_mass as u32);
        if ka == k {
            let g2 = OctreeNode {
                state: NodeState::Interior,
                child_indices: spec_array_update(no_children(), k, len as u32),
                ..g
            };
            (Model { nodes: md.nodes.push(leaf).update(idx, g2), ..md }, len as int)
        } else {
            let g2 = OctreeNode {
                state: NodeState::Interior,
                child_indices: spec_array_update(
                    spec_array_update(no_children(), k, len as u32),
                    ka,
                    (len + 1) as u32,
                ),
                ..g
            };
            (
                Model { nodes: md.nodes.push(spec_empty_node()).push(leaf).update(idx, g2), ..md },
                len as int,
            )
        }
    } else if child_of(n, k) == 0 {
        let g2 = OctreeNode {
            child_indices: spec_array_update(n.child_indices, k, len as u32),
            ..g
        };
        (Model { nodes: md.nodes.push(spec_empty_node()).update(idx, g2), ..md }, len as int)
    } else {
        (Model { nodes: md.nodes.update(idx, g), ..md }, child_of(n, k))
    }
}

/// Folding a body into the non-empty node `idx` at the depth cap: the node
/// becomes (or stays) an overflow node and the body joins its side list.
pub open spec fn spec_push_to_list(md: Model, idx: int, p: Point, m: u32) -> Model {
    let n = md.nodes[idx];
    let g = spec_absorbed(n, p, m);
    if n.state == NodeState::Body {
        let l = md.lists.len();
        let g2 = OctreeNode {
            state: NodeState::OverflowList,
            child_indices: [l as u32, 2, 0, 0, 0, 0, 0, 0],
            ..g
        };
        Model {
            nodes: md.nodes.update(idx, g2),
            lists: md.lists.push(seq![spec_body_node(n.pos_min, n.total_mass as u32), spec_body_node(p, m)]),
            owners: md.owners.push(idx as usize),
        }
    } else {
        let l = child_of(n, 0);
        let g2 = OctreeNode {
            child_indices: spec_array_update(n.child_indices, 1, (child_of(n, 1) + 1) as u32),
            ..g
        };
        Model {
            nodes: md.nodes.update(idx, g2),
            lists: md.lists.update(l, md.lists[l].push(spec_body_node(p, m))),
            owners: md.owners,
        }
    }
}

/// Adding a body of mass `m` at `p` to node `idx`, whose cell is `cell`, and to
/// the nodes below it.
pub open spec fn spec_insert(md: Model, cap: int, idx: int, cell: Cell, p: Point, m: u32) -> Model
    decreases cap - cell.depth,
{
    let n = md.nodes[idx];
    if n.state == NodeState::Empty {
        Model { nodes: md.nodes.update(idx, spec_body_node(p, m)), ..md }
    } else if cell.depth >= cap || cell.depth >= crate::geometry::GRID_DEPTH {
        spec_push_to_list(md, idx, p, m)
    } else {
        let (md1, c) = spec_open_child(md, idx, cell, p, m);
        spec_insert(md1, cap, c, spec_child_cell(cell, spec_octant(cell, p)), p, m)
    }
}

/// The state after the first `i` bodies went in, in order.
pub open spec fn spec_build(ps: Seq<Point>, ms: Seq<u32>, cap: int, i: int) -> Model
    decreases i,
{
    if i <= 0 {
        Model { nodes: seq![spec_empty_node()], lists: Seq::empty(), owners: Seq::empty() }
    } else {
        spec_insert(spec_build(ps, ms, cap, i - 1), cap, 0, spec_root_cell(), ps[i - 1], ms[i - 1])
    }
}

/// The array after the first `l` side lists were appended, each owner pointing
/// at its run.
pub open spec fn spec_compact(md: Model, l: int) -> Seq<OctreeNode>
    decreases l,
{
    if l <= 0 {
        md.nodes
    } else {
        let prev = spec_compact(md, l - 1);
        let o = md.owners[l - 1] as int;
        let patched = OctreeNode {
            child_indices: spec_array_update(prev[o].child_indices, 0, prev.len() as u32),
            ..prev[o]
        };
        prev.update(o, patched) + md.lists[l - 1]
    }
}

/// The array that building the tree of these bodies with depth cap `cap` gives.
pub open spec fn spec_tree(ps: Seq<Point>, ms: Seq<u32>, cap: int) -> Seq<OctreeNode> {
    let md = spec_build(ps, ms, cap, ps.len() as int);
    spec_compact(md, md.lists.len() as int)
}

} // verus!
