//! A van Emde Boas tree: an ordered set of machine-sized unsigned integers
//! drawn from a fixed universe `[0, 2^magnitude)`, supporting membership,
//! minimum, maximum, successor, predecessor, insertion and deletion.

pub mod arith;
pub mod model;
pub mod leaf;
pub mod node;
pub mod inner;
pub mod tree;
pub mod laws;

pub use model::InnerNode;
pub use model::Leaf;
pub use model::VEBNode;
pub use model::VEBTree;
