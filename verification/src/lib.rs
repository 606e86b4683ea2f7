//! OPTICS: ordering points to identify the clustering structure.
//!
//! A density-based clustering of points that are known by their
//! neighborhoods: for each point, the points within a radius, how far each
//! is, and the distance to the nearest other point. A traversal visits the
//! points so that points in dense regions follow each other, and gives each
//! the distance at which it was reached. Clusters and outliers are then read
//! off that order at any threshold up to the radius.
//!
//! The library computes with no coordinates and no metric, only with
//! distances, which it takes and gives as bit patterns (`Scalar`). Finding
//! the neighbors is left to the caller.
//!
//! - `scalar`: distances as bit patterns, classified and compared
//! - `neighborhood`: neighborhoods and the core distance
//! - `seeds`: the buffer of points waiting to be visited
//! - `traversal`: the order of visits and the reachabilities
//! - `extraction`: clusters and outliers at a threshold
//! - `optics`: the clustering that keeps a traversal between calls
//! - `soundness`, `coverage`, `minimality`: what holds of every traversal
//! - `membership`, `relaxation`: what holds of the clusters read off it

pub mod coverage;
pub mod extraction;
pub mod membership;
pub mod minimality;
pub mod neighborhood;
pub mod optics;
pub mod relaxation;
pub mod scalar;
pub mod seeds;
pub mod soundness;
pub mod traversal;

pub use crate::neighborhood::{Neighbor, Neighborhood};
pub use crate::optics::Optics;
pub use crate::scalar::Scalar;
