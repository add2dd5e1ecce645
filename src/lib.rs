//! A Barnes–Hut octree over point masses, built into a flat, pointer-free array.
//!
//! Bodies are grid points of the world cube `[0, 2^32)^3` with integer masses.
//! The tree is rebuilt from scratch for each simulation step: bodies are
//! inserted one at a time, in input order, into an array whose slot 0 is the
//! root; every node keeps the exact total mass, first moment and bounding box of
//! the bodies below it. Past a depth cap, a cell is not split any more and the
//! bodies that reach it are kept as a contiguous run of leaves, placed after the
//! rest of the tree once every body is in.
//!
//! - `geometry`: grid points, cells and their octants.
//! - `octree`: the node record and the operations on one node.
//! - `tree`: what a finished array satisfies, and the multiset of its bodies.
//! - `builder`: the construction, `OctreeNode::new_tree`.
//! - `model`: the construction as a function of its input.
//! - `laws`: properties of every finished array.
pub mod geometry;
pub mod octree;
pub mod tree;
pub mod builder;
pub mod laws;
pub mod model;

pub use builder::{MAX_BODIES, MAX_DEPTH};
pub use geometry::{child_cell, octant, root_cell, Cell, Point, GRID_DEPTH, WORLD_SIZE};
pub use octree::{NodeState, OctreeNode};
