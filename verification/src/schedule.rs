//! Host-side schedule labels.
//!
//! The embedding application organizes its work under three labels:
//! device and resource acquisition before anything else, one-time scene
//! setup, and the per-frame update that submits the frame's phases (see
//! [`crate::wavefront::frame_order`]). The labels carry no behavior of
//! their own; they only name when a piece of host work runs.

use vstd::prelude::*;

verus! {

/// Runs before all other schedules: device and resource acquisition.
#[derive(Clone, Copy, Debug, PartialEq, Eq, Structural)]
pub struct PreStartup;

/// Runs once after [`PreStartup`]: scene and pipeline setup.
#[derive(Clone, Copy, Debug, PartialEq, Eq, Structural)]
pub struct Startup;

/// Runs every frame: input handling and frame submission.
#[derive(Clone, Copy, Debug, PartialEq, Eq, Structural)]
pub struct Update;

} // verus!
