//! The reference backend: every buffer on the host.

pub mod acts;
pub mod attention;
pub mod contract;
pub mod delta;
pub mod elem;
pub mod halves;
pub mod laws;
pub mod meaning;
pub mod moe;
pub mod ops;
pub mod slabs;
