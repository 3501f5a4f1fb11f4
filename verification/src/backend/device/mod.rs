//! The device backend's decisions: which kernel a projection launches, on what
//! grid and over which operands, and the source text of the kernels.

pub mod dense;
pub mod flags;
pub mod kernels;
pub mod launch;
pub mod meaning;
pub mod memory;
pub mod plan;
pub mod q8;
pub mod raw;
pub mod residency;
pub mod upload;
