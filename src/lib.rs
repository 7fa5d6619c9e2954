//! Density-based clustering (DBSCAN) over the neighborhood relation of a
//! finite point set: which points lie within epsilon of which. Each point
//! gets one label, noise or a cluster id, and the labelling is proved to be
//! the one that DBSCAN defines.

pub mod clustering;
pub mod neighborhood;
pub mod relation;

pub use clustering::{dbscan, ClusterAssignment, DBSCANResult};
pub use neighborhood::nearest_neighbors;
pub use relation::check_relation;
