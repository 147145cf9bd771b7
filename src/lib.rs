//! A spatial tree library: regions that test membership and split into
//! children, containers for child nodes, and trees built from both.

pub mod partition;
pub mod pure_tree;
pub mod data_tree;

pub use partition::{Partition, Subdivide};
pub use pure_tree::PureTree;
pub use data_tree::{OutsideDomain, Tree};
