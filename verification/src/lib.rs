//! Cohort analysis over records with fixed-point feature vectors.
//!
//! The library segments a population of records (each a feature vector plus
//! a binary outcome label) into cohorts by k-means clustering with a
//! representative-selection step, and separately finds densely
//! interconnected subgroups through a pairwise similarity graph followed by
//! k-core decomposition.
//!
//! Feature values are fixed-point integers: the caller picks one scale (for
//! example thousandths of a unit) and converts its real-valued measurements
//! once, at the edge. Every comparison the algorithms make — distance
//! order, per-dimension near-matches, mean-absolute-deviation order — is
//! then exact integer arithmetic.

pub mod cluster;
pub mod distance;
pub mod graph;
pub mod kcore;
pub mod median;
pub mod model;
pub mod patient;
pub mod randgen;
pub mod represent;

pub use cluster::{assign_clusters, clustering, update_centroids};
pub use distance::distance_sq;
pub use graph::{build_graph, Graph};
pub use kcore::k_core_decomposition;
pub use median::calculate_median;
pub use patient::{split_diagnosis, Error, Patient};
pub use represent::find_best_representatives;
