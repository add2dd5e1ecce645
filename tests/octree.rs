use octree_nbody::{
    child_cell, octant, root_cell, Cell, NodeState, OctreeNode, Point, GRID_DEPTH, MAX_DEPTH,
};

fn pt(x: u32, y: u32, z: u32) -> Point {
    Point { x, y, z }
}

const L: u32 = 1 << 30;
const H: u32 = 3 << 30;
const C: u32 = 1 << 31;

fn sample_bodies() -> (Vec<Point>, Vec<u32>) {
    let positions = vec![
        pt(10, 20, 30),
        pt(4_000_000_000, 5, 17),
        pt(2_147_483_648, 2_147_483_648, 2_147_483_648),
        pt(123_456_789, 987_654_321, 555_555_555),
        pt(10, 20, 31),
        pt(3_000_000_000, 3_000_000_000, 1),
        pt(10, 20, 30),
        pt(0, 0, 0),
        pt(u32::MAX, u32::MAX, u32::MAX),
    ];
    let masses = vec![5, 1, 7, 1000, 2, 0, 9, 4, 3];
    (positions, masses)
}

/// Indices of the nodes one step below node `j`.
fn below(tree: &[OctreeNode], j: usize) -> Vec<usize> {
    let n = &tree[j];
    match n.state {
        NodeState::Interior => n
            .child_indices
            .iter()
            .filter(|c| **c != 0)
            .map(|c| *c as usize)
            .collect(),
        NodeState::OverflowList => {
            let start = n.child_indices[0] as usize;
            let count = n.child_indices[1] as usize;
            (start..start + count).collect()
        }
        _ => Vec::new(),
    }
}

/// The leaves reachable from node `j`, as (position, mass).
fn leaves_under(tree: &[OctreeNode], j: usize) -> Vec<(Point, u128)> {
    if tree[j].state == NodeState::Body {
        return vec![(tree[j].pos_min, tree[j].total_mass)];
    }
    let mut out = Vec::new();
    for c in below(tree, j) {
        out.extend(leaves_under(tree, c));
    }
    out
}

fn sort_key(b: &(Point, u128)) -> (u32, u32, u32, u128) {
    (b.0.x, b.0.y, b.0.z, b.1)
}

fn in_cell(c: &Cell, p: Point) -> bool {
    let x = p.x as u64;
    let y = p.y as u64;
    let z = p.z as u64;
    c.x <= x && x < c.x + c.size && c.y <= y && y < c.y + c.size && c.z <= z && z < c.z + c.size
}

#[test]
fn coincident_bodies_end_in_one_overflow_run() {
    let positions = vec![pt(1, 1, 1), pt(1, 1, 1)];
    let masses = vec![1, 3];
    let tree = OctreeNode::new_tree(&positions, &masses);
    let root = &tree[0];
    assert_eq!(root.state, NodeState::Interior);
    assert_eq!(root.total_mass, 4);
    assert_eq!(root.center_of_mass(), Some(pt(1, 1, 1)));
    // a chain of single interior children down to the cap, then the run
    assert_eq!(tree.len(), 1 + MAX_DEPTH as usize + 2);
    for d in 0..MAX_DEPTH as usize {
        assert_eq!(tree[d].state, NodeState::Interior);
        assert_eq!(below(&tree, d), vec![d + 1]);
    }
    let list = &tree[MAX_DEPTH as usize];
    assert_eq!(list.state, NodeState::OverflowList);
    assert_eq!(list.total_mass, 4);
    assert_eq!(list.child_indices[0] as usize, MAX_DEPTH as usize + 1);
    assert_eq!(list.child_indices[1], 2);
    let first = &tree[MAX_DEPTH as usize + 1];
    let second = &tree[MAX_DEPTH as usize + 2];
    assert_eq!(first.state, NodeState::Body);
    assert_eq!(first.pos_min, pt(1, 1, 1));
    assert_eq!(first.total_mass, 1);
    assert_eq!(second.state, NodeState::Body);
    assert_eq!(second.pos_min, pt(1, 1, 1));
    assert_eq!(second.total_mass, 3);
    let overflow = tree.iter().filter(|n| n.state == NodeState::OverflowList).count();
    assert_eq!(overflow, 1);
}

#[test]
fn four_bodies_in_four_octants() {
    let positions = vec![pt(L, L, L), pt(H, H, L), pt(H, L, H), pt(L, H, H)];
    let masses = vec![1, 1, 1, 1];
    let tree = OctreeNode::new_tree(&positions, &masses);
    let root = &tree[0];
    assert_eq!(root.state, NodeState::Interior);
    assert_eq!(root.total_mass, 4);
    assert_eq!(root.center_of_mass(), Some(pt(C, C, C)));
    let children: Vec<u32> = root.child_indices.iter().copied().filter(|c| *c != 0).collect();
    assert_eq!(children.len(), 4);
    for c in children {
        assert_eq!(tree[c as usize].state, NodeState::Body);
    }
    assert_ne!(root.child_indices[0b000], 0);
    assert_ne!(root.child_indices[0b110], 0);
    assert_ne!(root.child_indices[0b101], 0);
    assert_ne!(root.child_indices[0b011], 0);
    assert_eq!(tree.len(), 5);
}

#[test]
fn no_bodies_give_an_empty_root() {
    let tree = OctreeNode::new_tree(&[], &[]);
    assert_eq!(tree.len(), 1);
    assert_eq!(tree[0].state, NodeState::Empty);
    assert_eq!(tree[0].total_mass, 0);
    assert_eq!(tree[0].child_indices, [0; 8]);
    assert_eq!(tree[0].center_of_mass(), None);
}

#[test]
fn one_body_is_a_leaf_root() {
    let tree = OctreeNode::new_tree(&[pt(7, 8, 9)], &[11]);
    assert_eq!(tree.len(), 1);
    let root = &tree[0];
    assert_eq!(root.state, NodeState::Body);
    assert_eq!(root.total_mass, 11);
    assert_eq!((root.moment_x, root.moment_y, root.moment_z), (77, 88, 99));
    assert_eq!(root.pos_min, pt(7, 8, 9));
    assert_eq!(root.pos_max, pt(7, 8, 9));
    assert_eq!(root.range, 0);
    assert_eq!(root.child_indices, [0; 8]);
}

#[test]
fn root_conserves_mass_and_moment() {
    let (positions, masses) = sample_bodies();
    let tree = OctreeNode::new_tree(&positions, &masses);
    let root = &tree[0];
    let mass: u128 = masses.iter().map(|m| *m as u128).sum();
    let mx: u128 = positions.iter().zip(&masses).map(|(p, m)| p.x as u128 * *m as u128).sum();
    let my: u128 = positions.iter().zip(&masses).map(|(p, m)| p.y as u128 * *m as u128).sum();
    let mz: u128 = positions.iter().zip(&masses).map(|(p, m)| p.z as u128 * *m as u128).sum();
    assert_eq!(root.total_mass, mass);
    assert_eq!(root.moment_x, mx);
    assert_eq!(root.moment_y, my);
    assert_eq!(root.moment_z, mz);
    let com = root.center_of_mass().unwrap();
    assert_eq!(com, pt((mx / mass) as u32, (my / mass) as u32, (mz / mass) as u32));
    assert_eq!(root.pos_min, pt(0, 0, 0));
    assert_eq!(root.pos_max, pt(u32::MAX, u32::MAX, u32::MAX));
    assert_eq!(root.range, u32::MAX);
}

#[test]
fn center_of_mass_is_the_weighted_centroid() {
    let positions = vec![pt(0, 0, 0), pt(30, 60, 90)];
    let masses = vec![2, 1];
    let tree = OctreeNode::new_tree(&positions, &masses);
    assert_eq!(tree[0].total_mass, 3);
    assert_eq!(tree[0].center_of_mass(), Some(pt(10, 20, 30)));
}

#[test]
fn every_body_is_held_exactly_once() {
    let (positions, masses) = sample_bodies();
    let tree = OctreeNode::new_tree(&positions, &masses);
    let mut held: Vec<(Point, u128)> = tree
        .iter()
        .filter(|n| n.state == NodeState::Body)
        .map(|n| (n.pos_min, n.total_mass))
        .collect();
    let mut given: Vec<(Point, u128)> =
        positions.iter().zip(&masses).map(|(p, m)| (*p, *m as u128)).collect();
    held.sort_by_key(sort_key);
    given.sort_by_key(sort_key);
    assert_eq!(held, given);
    let mut reached = leaves_under(&tree, 0);
    reached.sort_by_key(sort_key);
    assert_eq!(reached, given);
}

#[test]
fn zero_mass_bodies_are_not_empty_slots() {
    let positions = vec![pt(5, 5, 5), pt(C + 5, 5, 5)];
    let masses = vec![0, 0];
    let tree = OctreeNode::new_tree(&positions, &masses);
    assert_eq!(tree[0].state, NodeState::Interior);
    assert_eq!(tree.iter().filter(|n| n.state == NodeState::Body).count(), 2);
    assert_eq!(tree[0].center_of_mass(), None);
}

#[test]
fn boxes_hold_their_subtrees() {
    let (positions, masses) = sample_bodies();
    let tree = OctreeNode::new_tree(&positions, &masses);
    for j in 0..tree.len() {
        let n = &tree[j];
        for (p, _) in leaves_under(&tree, j) {
            assert!(n.pos_min.x <= p.x && p.x <= n.pos_max.x);
            assert!(n.pos_min.y <= p.y && p.y <= n.pos_max.y);
            assert!(n.pos_min.z <= p.z && p.z <= n.pos_max.z);
        }
        let dx = n.pos_max.x - n.pos_min.x;
        let dy = n.pos_max.y - n.pos_min.y;
        let dz = n.pos_max.z - n.pos_min.z;
        assert_eq!(n.range, dx.max(dy).max(dz));
    }
}

#[test]
fn children_lie_in_their_octant_cells() {
    let (positions, masses) = sample_bodies();
    let tree = OctreeNode::new_tree(&positions, &masses);
    let mut stack = vec![(0usize, root_cell())];
    while let Some((j, cell)) = stack.pop() {
        for (p, _) in leaves_under(&tree, j) {
            assert!(in_cell(&cell, p));
        }
        if tree[j].state == NodeState::Interior {
            for k in 0..8 {
                let c = tree[j].child_indices[k];
                if c != 0 {
                    assert!(c as usize > j);
                    stack.push((c as usize, child_cell(&cell, k)));
                }
            }
        }
    }
}

#[test]
fn octant_cells_partition_the_parent() {
    let cell = child_cell(&root_cell(), 0b101);
    assert_eq!(cell, Cell { x: C as u64, y: 0, z: C as u64, size: C as u64, depth: 1 });
    let samples = [
        pt(C, 0, C),
        pt(C + L, L, C + L),
        pt(u32::MAX, C - 1, u32::MAX),
        pt(C + L - 1, L, C + L),
        pt(C + L, L - 1, u32::MAX),
    ];
    for p in samples {
        assert!(in_cell(&cell, p));
        let inside: Vec<usize> = (0..8).filter(|k| in_cell(&child_cell(&cell, *k), p)).collect();
        assert_eq!(inside, vec![octant(&cell, p)]);
    }
    for k in 0..8 {
        let sub = child_cell(&cell, k);
        assert_eq!(sub.size, L as u64);
        assert_eq!(sub.depth, 2);
    }
}

#[test]
fn ties_go_to_the_upper_octant() {
    let root = root_cell();
    assert_eq!(octant(&root, pt(C, C, C)), 0b111);
    assert_eq!(octant(&root, pt(C - 1, C, C - 1)), 0b010);
    assert_eq!(octant(&root, pt(C, C - 1, C)), 0b101);
    assert_eq!(octant(&root, pt(0, 0, 0)), 0b000);
    let tree = OctreeNode::new_tree(&[pt(C, C, C), pt(0, 0, 0)], &[1, 1]);
    assert_eq!(tree[tree[0].child_indices[0b111] as usize].pos_min, pt(C, C, C));
    assert_eq!(tree[tree[0].child_indices[0b000] as usize].pos_min, pt(0, 0, 0));
    let again = OctreeNode::new_tree(&[pt(C, C, C), pt(0, 0, 0)], &[1, 1]);
    assert_eq!(tree, again);
}

#[test]
fn child_cell_offsets_follow_the_code_bits() {
    let root = root_cell();
    let upper = child_cell(&root, 0b111);
    assert_eq!((upper.x, upper.y, upper.z, upper.size), (C as u64, C as u64, C as u64, C as u64));
    let lower = child_cell(&root, 0b000);
    assert_eq!((lower.x, lower.y, lower.z), (0, 0, 0));
    let mixed = child_cell(&root, 0b100);
    assert_eq!((mixed.x, mixed.y, mixed.z), (C as u64, 0, 0));
    let mixed = child_cell(&root, 0b010);
    assert_eq!((mixed.x, mixed.y, mixed.z), (0, C as u64, 0));
    let mixed = child_cell(&root, 0b001);
    assert_eq!((mixed.x, mixed.y, mixed.z), (0, 0, C as u64));
}

fn chain_depth(tree: &[OctreeNode], j: usize) -> usize {
    let mut deepest = 0;
    if tree[j].state == NodeState::Interior {
        for c in below(tree, j) {
            deepest = deepest.max(1 + chain_depth(tree, c));
        }
    }
    deepest
}

#[test]
fn depth_never_exceeds_the_cap() {
    let mut positions = Vec::new();
    let mut masses = Vec::new();
    for i in 0..40u32 {
        positions.push(pt(1000 + i % 3, 1000 + i % 2, 1000));
        masses.push(i + 1);
    }
    let tree = OctreeNode::new_tree(&positions, &masses);
    assert!(chain_depth(&tree, 0) <= MAX_DEPTH as usize);
    let runs: Vec<&OctreeNode> = tree.iter().filter(|n| n.state == NodeState::OverflowList).collect();
    assert!(!runs.is_empty());
    let in_runs: u32 = runs.iter().map(|n| n.child_indices[1]).sum();
    let leaves = tree.iter().filter(|n| n.state == NodeState::Body).count();
    assert_eq!(leaves, 40);
    assert!(in_runs as usize <= 40);
    assert_eq!(tree[0].total_mass, (1..=40u128).sum::<u128>());
}

#[test]
fn a_smaller_cap_makes_shorter_chains() {
    let positions = vec![pt(8, 8, 8), pt(9, 9, 9), pt(8, 8, 8)];
    let masses = vec![1, 2, 3];
    let tree = OctreeNode::new_tree_with_max_depth(&positions, &masses, 2);
    assert_eq!(chain_depth(&tree, 0), 2);
    assert_eq!(tree.len(), 3 + 3);
    assert_eq!(tree[2].state, NodeState::OverflowList);
    assert_eq!(tree[2].child_indices[0], 3);
    assert_eq!(tree[2].child_indices[1], 3);
    let run: Vec<u128> = (3..6).map(|i| tree[i].total_mass).collect();
    assert_eq!(run, vec![1, 2, 3]);
    let flat = OctreeNode::new_tree_with_max_depth(&positions, &masses, 0);
    assert_eq!(flat[0].state, NodeState::OverflowList);
    assert_eq!(flat[0].child_indices[0], 1);
    assert_eq!(flat[0].child_indices[1], 3);
    assert_eq!(flat.len(), 4);
}

#[test]
fn grid_resolution_cap_splits_distinct_points() {
    let positions = vec![pt(6, 6, 6), pt(6, 6, 7), pt(6, 6, 6)];
    let masses = vec![1, 1, 1];
    let tree = OctreeNode::new_tree_with_max_depth(&positions, &masses, GRID_DEPTH);
    let runs: Vec<&OctreeNode> = tree.iter().filter(|n| n.state == NodeState::OverflowList).collect();
    assert_eq!(runs.len(), 1);
    assert_eq!(runs[0].child_indices[1], 2);
    assert_eq!(runs[0].pos_min, pt(6, 6, 6));
    assert_eq!(runs[0].pos_max, pt(6, 6, 6));
    assert_eq!(chain_depth(&tree, 0), GRID_DEPTH as usize);
}

#[test]
fn rebuilding_gives_identical_arrays() {
    let (positions, masses) = sample_bodies();
    let first = OctreeNode::new_tree(&positions, &masses);
    let second = OctreeNode::new_tree(&positions, &masses);
    assert_eq!(first, second);
    assert_eq!(first[0].center_of_mass(), second[0].center_of_mass());
}
