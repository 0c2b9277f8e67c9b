//! The core of a renderer that turns a traced branching skeleton (a tree of
//! joints with positions and radii, such as a neuron) into a stack of
//! grayscale slices: reading skeleton files, linking the tree, the two
//! traversals that produce the objects to draw, a bounding-volume hierarchy
//! for point queries, the scene, and the banded layout of each slice.
//!
//! Coordinates are compared through ordering keys (`vec::coordinate_key`), so
//! every decision here is made on integers; the floating-point geometry that
//! fills in pixels is supplied by the caller as probes.

pub mod bvh;
pub mod header;
pub mod msaa;
pub mod neuron;
pub mod render;
pub mod scene;
pub mod swc;
pub mod vec;
