//! Evolving feed-forward step-activation networks.
//!
//! The crate verifies the genome representation, its forward-inference
//! composition, the generational replacement strategy, and the save codec.
//! Floating-point arithmetic itself is outside what the verifier can reason
//! about, so every network parameter is carried as the bit pattern of an
//! IEEE-754 single-precision value (`u32`); the host computes the affine
//! sums, interpolations and random draws and hands the resulting bit
//! patterns in, while this crate performs all structural work and the exact
//! step-activation comparison over those bit patterns.

pub mod bits;
pub mod brain;
pub mod codec;
pub mod components;
pub mod errors;
pub mod evolution;
pub mod generation;
pub mod level;
pub mod tokens;
