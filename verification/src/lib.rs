//! An ordered map whose nodes live behind a pluggable typed allocator.
//!
//! The map is a binary search tree with a pluggable balancing rule. Its nodes are kept by
//! an arena and reached through links, and the operations on the tree are written once
//! for every kind of arena: for heap boxes, and for a slab whose slots are used again.
//!
//! - `order`: the total order that keys carry.
//! - `allocator`: allocators whose handles own their values and lend them by themselves.
//! - `arena`: arenas whose values are reached with a handle and the arena; the slab.
//! - `tree`: nodes and links, the operations on links, balancing rules, and the map.

pub mod allocator;
pub mod arena;
pub mod order;
pub mod tree;

pub use self::allocator::{Alloc, BoxAlloc, Boxed};
pub use self::tree::{
    cmp_key, rotate_left, rotate_right, BoxLink, BoxTreeMap, Edge, Indirect, Node, Noop, Regulator,
    RevTreap, RotateEmptyLeg, Shape, TreeMap, VecLink, VecTreeMap,
};
