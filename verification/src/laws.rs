//! What holds of the tape chain, whatever blocks the host feeds it.
//!
//! The laws that need something of the arithmetic say what they need, as a
//! predicate on the host's operations. Each such predicate is a fact of IEEE
//! 754 arithmetic with round-to-nearest and of a hyperbolic tangent that maps
//! zero to zero.

use crate::arithmetic::{Arithmetic, COEFFICIENT, DRIVE, GAIN, ONE, ZERO};
use crate::chain::Stages;
use crate::stream::{
    functional,
    lemma_blocks_merge,
    lemma_stream_deterministic,
    lemma_stream_refines,
    lemma_stream_rests,
    lemma_stream_sample,
    streams,
    streams_blockwise,
    yields,
    Step,
};
use vstd::prelude::*;

verus! {

impl<M, A, S, T> Arithmetic<M, A, S, T> where
    M: Fn(u32, u32) -> u32,
    A: Fn(u32, u32) -> u32,
    S: Fn(u32, u32) -> u32,
    T: Fn(u32) -> u32,
 {
    /// A zero sample brings nothing into the filter: zero times the drive
    /// gain is zero, the hyperbolic tangent of zero is zero, and the
    /// coefficient times zero is zero.
    pub open spec fn silent_input(&self) -> bool {
        &&& forall|r: u32| #[trigger] self.product(ZERO, DRIVE, r) ==> r == ZERO
        &&& forall|r: u32| #[trigger] self.tangent(ZERO, r) ==> r == ZERO
        &&& forall|r: u32| #[trigger] self.product(COEFFICIENT, ZERO, r) ==> r == ZERO
    }

    /// A filter memory of zero stays zero when nothing comes in, and gives
    /// an output of zero: the weight of the old memory times zero is zero,
    /// zero and zero make zero, and zero times the limiter's gain is zero.
    pub open spec fn silent_memory(&self) -> bool {
        &&& forall|keep: u32, r: u32|
            self.difference(ONE, COEFFICIENT, keep) && #[trigger] self.product(keep, ZERO, r) ==> r
                == ZERO
        &&& forall|r: u32| #[trigger] self.sum(ZERO, ZERO, r) ==> r == ZERO
        &&& forall|r: u32| #[trigger] self.product(ZERO, GAIN, r) ==> r == ZERO
    }

    /// `next` is what the warmth filter makes of the memory `memory` when
    /// nothing comes in: zero and `(1 - a) * memory`, with the coefficient
    /// `a`.
    pub open spec fn fades(&self, memory: u32, next: u32) -> bool {
        exists|keep: u32, kept: u32|
            self.difference(ONE, COEFFICIENT, keep) && #[trigger] self.product(keep, memory, kept)
                && self.sum(ZERO, kept, next)
    }

    /// `output` is what the limiter makes of the filter memory `next`:
    /// `tanh(next * 0.9)`.
    pub open spec fn limits(&self, next: u32, output: u32) -> bool {
        exists|limited: u32|
            #[trigger] self.product(next, GAIN, limited) && self.tangent(limited, output)
    }

    /// The chain in silence, as a step of a stream: the filter memory fades
    /// and the limiter hands out what is left of it.
    pub open spec fn fading_step(&self) -> Step {
        |memory: u32, input: u32, next: u32, output: u32|
            self.fades(memory, next) && self.limits(next, output)
    }
}

/// Boundedness: every output sample is a value that `tanh` returned. So what
/// holds of every such value, as that it lies between minus one and one,
/// holds of every output sample, whatever came in.
pub proof fn lemma_output_within_tanh<M, A, S, T>(
    ops: &Arithmetic<M, A, S, T>,
    within: spec_fn(u32) -> bool,
    start: u32,
    input: Seq<u32>,
    end: u32,
    output: Seq<u32>,
) where M: Fn(u32, u32) -> u32, A: Fn(u32, u32) -> u32, S: Fn(u32, u32) -> u32, T: Fn(u32) -> u32
    requires
        forall|a: u32, r: u32| #[trigger] ops.tangent(a, r) ==> within(r),
        streams(ops.step(), start, input, end, output),
    ensures
        forall|i: int| 0 <= i < output.len() ==> within(#[trigger] output[i]),
{
    assert forall|i: int| 0 <= i < output.len() implies within(#[trigger] output[i]) by {
        let around = lemma_stream_sample(ops.step(), start, input, end, output, i);
        let stages = choose|stages: Stages|
            #[trigger] ops.passes(around.0, input[i], stages, around.1, output[i]);
        assert(ops.tangent(stages.limited, output[i]));
    }
}

/// Silence in, silence out: a filter memory of zero and a block of zeros
/// leave the filter memory at zero and a block of zeros, whatever the length
/// of the block.
pub proof fn lemma_silence<M, A, S, T>(
    ops: &Arithmetic<M, A, S, T>,
    input: Seq<u32>,
    end: u32,
    output: Seq<u32>,
) where M: Fn(u32, u32) -> u32, A: Fn(u32, u32) -> u32, S: Fn(u32, u32) -> u32, T: Fn(u32) -> u32
    requires
        ops.silent_input(),
        ops.silent_memory(),
        forall|i: int| 0 <= i < input.len() ==> input[i] == ZERO,
        streams(ops.step(), ZERO, input, end, output),
    ensures
        end == ZERO,
        forall|i: int| 0 <= i < output.len() ==> output[i] == ZERO,
{
    let step = ops.step();
    assert forall|i: int, next: u32, out: u32|
        0 <= i < input.len() && #[trigger] yields(step, ZERO, input[i], next, out) implies next
        == ZERO && out == ZERO by {
        let stages = choose|stages: Stages| #[trigger] ops.passes(ZERO, ZERO, stages, next, out);
        assert(stages.driven == ZERO);
        assert(stages.saturated == ZERO);
        assert(stages.fresh == ZERO);
        assert(stages.kept == ZERO);
        assert(next == ZERO);
        assert(stages.limited == ZERO);
    }
    lemma_stream_rests(step, ZERO, ZERO, input, end, output);
}

/// Determinism of the chain: operations that have one result for each
/// argument make a chain that has one outcome for each memory and input.
pub proof fn lemma_chain_functional<M, A, S, T>(ops: &Arithmetic<M, A, S, T>) where
    M: Fn(u32, u32) -> u32,
    A: Fn(u32, u32) -> u32,
    S: Fn(u32, u32) -> u32,
    T: Fn(u32) -> u32,

    requires
        ops.deterministic(),
    ensures
        functional(ops.step()),
{
    let step = ops.step();
    assert forall|
        memory: u32,
        input: u32,
        next: u32,
        output: u32,
        other_next: u32,
        other_output: u32,
    | #[trigger]
        yields(step, memory, input, next, output) && #[trigger] yields(
            step,
            memory,
            input,
            other_next,
            other_output,
        ) implies next == other_next && output == other_output by {
        let one = choose|stages: Stages| #[trigger] ops.passes(memory, input, stages, next, output);
        let two = choose|stages: Stages|
            #[trigger] ops.passes(memory, input, stages, other_next, other_output);
        assert(one.driven == two.driven);
        assert(one.saturated == two.saturated);
        assert(one.fresh == two.fresh);
        assert(one.keep == two.keep);
        assert(one.kept == two.kept);
        assert(next == other_next);
        assert(one.limited == two.limited);
    }
}

/// Determinism: with operations that have one result for each argument, one
/// filter memory and one input leave one output and one filter memory.
pub proof fn lemma_deterministic<M, A, S, T>(
    ops: &Arithmetic<M, A, S, T>,
    start: u32,
    input: Seq<u32>,
    end: u32,
    output: Seq<u32>,
    other_end: u32,
    other_output: Seq<u32>,
) where M: Fn(u32, u32) -> u32, A: Fn(u32, u32) -> u32, S: Fn(u32, u32) -> u32, T: Fn(u32) -> u32
    requires
        ops.deterministic(),
        streams(ops.step(), start, input, end, output),
        streams(ops.step(), start, input, other_end, other_output),
    ensures
        end == other_end,
        output == other_output,
{
    lemma_chain_functional(ops);
    lemma_stream_deterministic(ops.step(), start, input, end, output, other_end, other_output);
}

/// Continuity across buffer cuts: with operations that have one result for
/// each argument, a stream fed block after block, however it is cut, leaves
/// the output and the filter memory that it leaves when it is fed as one
/// block.
pub proof fn lemma_cuts_change_nothing<M, A, S, T>(
    ops: &Arithmetic<M, A, S, T>,
    start: u32,
    blocks: Seq<Seq<u32>>,
    end: u32,
    outputs: Seq<Seq<u32>>,
    whole_end: u32,
    whole_output: Seq<u32>,
) where M: Fn(u32, u32) -> u32, A: Fn(u32, u32) -> u32, S: Fn(u32, u32) -> u32, T: Fn(u32) -> u32
    requires
        ops.deterministic(),
        streams_blockwise(ops.step(), start, blocks, end, outputs),
        streams(ops.step(), start, blocks.flatten(), whole_end, whole_output),
    ensures
        end == whole_end,
        outputs.flatten() == whole_output,
{
    lemma_blocks_merge(ops.step(), start, blocks, end, outputs);
    lemma_deterministic(
        ops,
        start,
        blocks.flatten(),
        end,
        outputs.flatten(),
        whole_end,
        whole_output,
    );
}

/// The filter's memory in silence: while zeros come in, each sample takes
/// the filter memory `m` to zero and `(1 - a) * m`, and the output sample is
/// the limiter's value of the new memory.
pub proof fn lemma_memory_fades<M, A, S, T>(
    ops: &Arithmetic<M, A, S, T>,
    start: u32,
    input: Seq<u32>,
    end: u32,
    output: Seq<u32>,
) where M: Fn(u32, u32) -> u32, A: Fn(u32, u32) -> u32, S: Fn(u32, u32) -> u32, T: Fn(u32) -> u32
    requires
        ops.silent_input(),
        forall|i: int| 0 <= i < input.len() ==> input[i] == ZERO,
        streams(ops.step(), start, input, end, output),
    ensures
        streams(ops.fading_step(), start, input, end, output),
{
    let step = ops.step();
    let fading = ops.fading_step();
    assert forall|i: int, memory: u32, next: u32, result: u32|
        0 <= i < input.len() && #[trigger] yields(step, memory, input[i], next, result) implies yields(
        fading,
        memory,
        input[i],
        next,
        result,
    ) by {
        let stages = choose|stages: Stages|
            #[trigger] ops.passes(memory, ZERO, stages, next, result);
        assert(stages.driven == ZERO);
        assert(stages.saturated == ZERO);
        assert(stages.fresh == ZERO);
        assert(ops.product(stages.keep, memory, stages.kept));
        assert(ops.fades(memory, next));
        assert(ops.product(next, GAIN, stages.limited));
        assert(ops.limits(next, result));
    }
    lemma_stream_refines(step, fading, start, input, end, output);
}

} // verus!
