//! The ordered map: nodes, links, balancing rules and the map itself.

pub mod box_link;
pub mod edge;
pub mod laws;
pub mod map;
pub mod node;
pub mod regulator;
pub mod rep;
pub mod rev_treap;
pub mod shape;
pub mod vec_link;

pub use self::box_link::{BoxLink, BoxNodes, BoxTreeMap};
pub use self::edge::{cmp_key, Edge};
pub use self::map::TreeMap;
pub use self::node::{Indirect, Node};
pub use self::regulator::{rotate_left, rotate_right, Noop, Regulator, RotateEmptyLeg};
pub use self::rev_treap::RevTreap;
pub use self::shape::Shape;
pub use self::vec_link::{VecLink, VecNodes, VecTreeMap};
