//! A streaming tape-emulation processor for blocks of 32-bit audio samples.
//!
//! The chain has three stages: a drive into a saturating nonlinearity, a
//! one-pole lowpass that gives the warmth, and a soft limiter. The lowpass is
//! the only stage with memory, and that memory is carried from sample to
//! sample and from block to block, so that a stream sounds the same however
//! the host cuts it into blocks.
//!
//! Samples and the filter memory are IEEE 754 binary32 values, held as their
//! bit patterns. The four operations on such values that the chain uses are
//! handed in by the host ([`arithmetic::Arithmetic`]); the chain itself, its
//! constants, the order of its operations and the walk over a block are fixed
//! here, and every contract states the result in terms of what those
//! operations return.

pub mod arithmetic;
pub mod chain;
pub mod laws;
pub mod processor;
pub mod stream;
