//! Compute core of a wavefront path tracer: a two-level bounding-volume
//! hierarchy (BVH) builder that produces flat, skip-linked node arenas for
//! stackless traversal, a packer that merges per-mesh hierarchies into one
//! buffer set, an append-only work queue with an atomic-style slot counter,
//! and the per-frame scheduler state machine that drives ray generation,
//! traversal and shading.
//!
//! Geometry is held in signed 32-bit fixed-point coordinates
//! (see [`geom::FP_ONE`]); the host converts floating-point data at the
//! boundary.

pub mod blas;
pub mod bvh;
pub mod encode;
pub mod geom;
pub mod mesh;
pub mod pack;
pub mod queue;
pub mod schedule;
pub mod tlas;
pub mod wavefront;
