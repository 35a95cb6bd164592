//! The tape chain on one sample.

use crate::arithmetic::{Arithmetic, COEFFICIENT, DRIVE, GAIN, ONE};
use crate::stream::Step;
use vstd::prelude::*;

verus! {

/// The values inside the chain while one sample passes through it.
pub struct Stages {
    /// The input times the drive gain.
    pub driven: u32,
    /// The hyperbolic tangent of `driven`: the saturated signal.
    pub saturated: u32,
    /// The share of the new filter memory that comes from the saturated
    /// signal: the coefficient times `saturated`.
    pub fresh: u32,
    /// One less the coefficient: the weight of the old filter memory.
    pub keep: u32,
    /// The share that comes from the old filter memory: `keep` times it.
    pub kept: u32,
    /// The new filter memory times the limiter's gain.
    pub limited: u32,
}

impl<M, A, S, T> Arithmetic<M, A, S, T> where
    M: Fn(u32, u32) -> u32,
    A: Fn(u32, u32) -> u32,
    S: Fn(u32, u32) -> u32,
    T: Fn(u32) -> u32,
 {
    /// The chain, operation by operation: with the filter memory `memory`
    /// and the sample `input`, it may pass through `stages`, leave the filter
    /// memory `next` and hand out `output`.
    ///
    /// The drive stage saturates `input * 1.5`. The warmth filter blends the
    /// saturated signal into its memory, `next = a * saturated + (1 - a) * memory`
    /// with the coefficient `a`. The limiter hands out `tanh(next * 0.9)`.
    pub open spec fn passes(&self, memory: u32, input: u32, stages: Stages, next: u32, output: u32) -> bool {
        &&& self.product(input, DRIVE, stages.driven)
        &&& self.tangent(stages.driven, stages.saturated)
        &&& self.product(COEFFICIENT, stages.saturated, stages.fresh)
        &&& self.difference(ONE, COEFFICIENT, stages.keep)
        &&& self.product(stages.keep, memory, stages.kept)
        &&& self.sum(stages.fresh, stages.kept, next)
        &&& self.product(next, GAIN, stages.limited)
        &&& self.tangent(stages.limited, output)
    }

    /// The chain as a step of a stream: from the filter memory and an input
    /// sample to the new filter memory and the output sample.
    pub open spec fn step(&self) -> Step {
        |memory: u32, input: u32, next: u32, output: u32|
            exists|stages: Stages| #[trigger] self.passes(memory, input, stages, next, output)
    }
}

} // verus!
