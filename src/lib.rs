//! Spatial index of a point cloud: octree node naming and cubes, position quantization and the
//! node position format, breadth-first node traversal, culling against a query box, delivery of
//! results in batches, splitting by geographic cell, X-Ray occupancy and image tile pyramids.
//!
//! Positions are integer coordinates in millimetres.

pub mod batch;
pub mod encoding;
pub mod node_id;
pub mod node_io;
pub mod octree;
pub mod query;
pub mod s2;
pub mod tile;
pub mod xray;
