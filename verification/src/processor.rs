//! The processor: one word of filter memory, and the walk over a block.

use crate::arithmetic::{Arithmetic, COEFFICIENT, DRIVE, GAIN, ONE, ZERO};
use crate::chain::Stages;
use crate::stream::{lemma_stream_empty, lemma_stream_push, streams};
use vstd::prelude::*;

verus! {

/// A tape processor for one audio signal path.
///
/// Its whole state is the filter memory: the bit pattern of the most recent
/// output of the warmth filter. Only construction sets it to zero; every
/// processed sample moves it on, and it is carried from one block to the next.
pub struct TapeProcessor {
    filter_state: u32,
}

impl View for TapeProcessor {
    type V = u32;

    /// The filter memory, as an IEEE 754 binary32 bit pattern.
    closed spec fn view(&self) -> u32 {
        self.filter_state
    }
}

impl TapeProcessor {
    /// A processor whose filter memory is positive zero.
    pub fn new() -> (processor: TapeProcessor)
        ensures
            processor@ == ZERO,
    {
        TapeProcessor { filter_state: ZERO }
    }

    /// The filter memory, as an IEEE 754 binary32 bit pattern.
    pub fn filter_state(&self) -> (bits: u32)
        ensures
            bits == self@,
    {
        self.filter_state
    }

    /// Sends one sample through the chain and moves the filter memory on:
    /// drive and saturation, then the warmth filter, whose result is the new
    /// filter memory, then the limiter.
    fn process_sample<M, A, S, T>(&mut self, input: u32, ops: &Arithmetic<M, A, S, T>) -> (output: u32) where
        M: Fn(u32, u32) -> u32,
        A: Fn(u32, u32) -> u32,
        S: Fn(u32, u32) -> u32,
        T: Fn(u32) -> u32,

        requires
            ops.total(),
        ensures
            ops.step()(old(self)@, input, final(self)@, output),
    {
        let driven: u32 = (ops.mul)(input, DRIVE);
        let saturated: u32 = (ops.tanh)(driven);
        let fresh: u32 = (ops.mul)(COEFFICIENT, saturated);
        let keep: u32 = (ops.sub)(ONE, COEFFICIENT);
        let kept: u32 = (ops.mul)(keep, self.filter_state);
        let next: u32 = (ops.add)(fresh, kept);
        let limited: u32 = (ops.mul)(next, GAIN);
        let output: u32 = (ops.tanh)(limited);
        proof {
            let stages = Stages { driven, saturated, fresh, keep, kept, limited };
            assert(ops.passes(self@, input, stages, next, output));
        }
        self.filter_state = next;
        output
    }

    /// Processes a block in place: every sample, in ascending order, is
    /// replaced by what the chain hands out for it, and the filter memory is
    /// carried from each sample to the next and kept for the next block.
    ///
    /// The block may have any length and hold any bit patterns. `ops` are the
    /// operations that the chain is computed with; each must accept every
    /// bit pattern.
    pub fn process<M, A, S, T>(&mut self, data: &mut [u32], ops: &Arithmetic<M, A, S, T>) where
        M: Fn(u32, u32) -> u32,
        A: Fn(u32, u32) -> u32,
        S: Fn(u32, u32) -> u32,
        T: Fn(u32) -> u32,

        requires
            ops.total(),
        ensures
            final(data)@.len() == old(data)@.len(),
            streams(ops.step(), old(self)@, old(data)@, final(self)@, final(data)@),
    {
        let n: usize = data.len();
        let mut i: usize = 0;
        proof {
            lemma_stream_empty(ops.step(), self@, self@, Seq::empty());
            assert(data@.take(0) =~= Seq::empty());
        }
        while i < n
            invariant
                i <= n,
                n == data@.len(),
                data@.len() == old(data)@.len(),
                ops.total(),
                forall|j: int| i <= j < n ==> data@[j] == old(data)@[j],
                streams(ops.step(), old(self)@, old(data)@.take(i as int), self@, data@.take(i as int)),
            decreases n - i,
        {
            let ghost before = self@;
            let ghost seen = data@;
            let output: u32 = self.process_sample(data[i], ops);
            data[i] = output;
            proof {
                lemma_stream_push(
                    ops.step(),
                    old(self)@,
                    old(data)@.take(i as int),
                    before,
                    seen.take(i as int),
                    seen[i as int],
                    self@,
                    output,
                );
                assert(old(data)@.take(i + 1) =~= old(data)@.take(i as int).push(seen[i as int]));
                assert(data@.take(i + 1) =~= seen.take(i as int).push(output));
            }
            i += 1;
        }
        proof {
            assert(old(data)@.take(n as int) =~= old(data)@);
            assert(data@.take(n as int) =~= data@);
        }
    }
}

} // verus!
