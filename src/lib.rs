//! A three-dimensional Barnes–Hut gravitational simulator over a k-d tree, with every
//! quantity held in exact integer arithmetic.
pub mod aggregates;
pub mod collisions;
pub mod data_file;
pub mod dimension;
pub mod entity;
pub mod grav_tree;
pub mod gravity;
pub mod node;
pub mod responsive;
pub mod simulation_result;
pub mod theorems;
pub mod traversal;
pub mod utilities;

pub use data_file::{parse_entities, write_data, ParseError};
pub use dimension::Dimension;
pub use entity::{AsEntity, Entity};
pub use grav_tree::{DataFileError, GravTree, TreeError};
pub use gravity::{gravitational_acceleration, Theta};
pub use node::{widest_dimension, Cluster, Node, NodeKind};
pub use responsive::Responsive;
pub use simulation_result::{CalculateCollisions, CollisionResult, SimulationResult};
pub use utilities::{find_median, max_min, max_min_xyz, xyz_distances};
