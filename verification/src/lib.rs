//! The rules of running a GGUF language model: how its weights are laid out
//! and addressed, which kernels a pass launches and on what grid, the source
//! text of those kernels, and the pass that fuses a decode step into one.

#![allow(unused_imports)]

pub mod backend;

pub mod bpe;
pub mod experts;
pub mod gguf;
pub mod hadamard;
pub mod layers;
pub mod meta;
pub mod quant;
pub mod single;
pub mod text;
pub mod transform;
