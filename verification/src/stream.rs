//! The mathematical model of a stream: what it means to feed a sequence of
//! samples, one after the other, through a per-sample step that carries a
//! piece of memory from each sample to the next.

use vstd::prelude::*;

verus! {

/// A per-sample step as a relation: `step(memory, input, next_memory, output)`
/// holds when the step, started with `memory` and given `input`, may leave
/// `next_memory` behind and hand out `output`.
pub type Step = spec_fn(u32, u32, u32, u32) -> bool;

/// `step` holds of the four values. It gives the relation a name that
/// quantifiers can be matched on.
pub open spec fn yields(step: Step, memory: u32, input: u32, next: u32, output: u32) -> bool {
    step(memory, input, next, output)
}

/// `memory` is a trace of `step` over `input` that gives `output`:
/// `memory[i]` is the memory before sample `i`, `memory[i + 1]` the memory
/// after it, and sample `i` of the output is what the step handed out for
/// sample `i` of the input.
pub open spec fn follows(step: Step, memory: Seq<u32>, input: Seq<u32>, output: Seq<u32>) -> bool {
    &&& memory.len() == input.len() + 1
    &&& output.len() == input.len()
    &&& forall|i: int|
        0 <= i < input.len() ==> step(memory[i], input[i], memory[i + 1], #[trigger] output[i])
}

/// `streams(step, start, input, end, output)`: feeding `input` through `step`
/// in ascending order, with the memory `start` before the first sample, may
/// give `output`, sample for sample, and leave the memory `end`.
pub open spec fn streams(step: Step, start: u32, input: Seq<u32>, end: u32, output: Seq<u32>) -> bool {
    exists|memory: Seq<u32>|
        #[trigger] follows(step, memory, input, output) && memory.first() == start && memory.last()
            == end
}

/// Nothing fed: nothing comes out and the memory stays.
pub proof fn lemma_stream_empty(step: Step, start: u32, end: u32, output: Seq<u32>)
    ensures
        streams(step, start, Seq::empty(), end, output) <==> end == start && output
            == Seq::<u32>::empty(),
{
    let nothing = Seq::<u32>::empty();
    if streams(step, start, nothing, end, output) {
        let memory = choose|memory: Seq<u32>|
            #[trigger] follows(step, memory, nothing, output) && memory.first() == start
                && memory.last() == end;
        assert(output =~= nothing);
    }
    if end == start && output == nothing {
        assert(follows(step, seq![start], nothing, nothing));
    }
}

/// One sample fed: one step is taken.
pub proof fn lemma_stream_single(step: Step, start: u32, sample: u32, end: u32, output: Seq<u32>)
    ensures
        streams(step, start, seq![sample], end, output) <==> output.len() == 1 && yields(
            step,
            start,
            sample,
            end,
            output[0],
        ),
{
    let input = seq![sample];
    if streams(step, start, input, end, output) {
        let memory = choose|memory: Seq<u32>|
            #[trigger] follows(step, memory, input, output) && memory.first() == start
                && memory.last() == end;
        assert(step(memory[0], input[0], memory[1], output[0]));
    }
    if output.len() == 1 && yields(step, start, sample, end, output[0]) {
        assert(follows(step, seq![start, end], input, output));
    }
}

/// One more sample: a stream that has reached the memory `before` goes on by
/// one step.
pub proof fn lemma_stream_push(
    step: Step,
    start: u32,
    input: Seq<u32>,
    before: u32,
    output: Seq<u32>,
    sample: u32,
    end: u32,
    result: u32,
)
    requires
        streams(step, start, input, before, output),
        step(before, sample, end, result),
    ensures
        streams(step, start, input.push(sample), end, output.push(result)),
{
    let memory = choose|memory: Seq<u32>|
        #[trigger] follows(step, memory, input, output) && memory.first() == start && memory.last()
            == before;
    assert(follows(step, memory.push(end), input.push(sample), output.push(result)));
}

/// Two streams, the second started with the memory that the first left,
/// make one stream of the two inputs joined.
pub proof fn lemma_stream_join(
    step: Step,
    start: u32,
    first: Seq<u32>,
    between: u32,
    first_output: Seq<u32>,
    second: Seq<u32>,
    end: u32,
    second_output: Seq<u32>,
)
    requires
        streams(step, start, first, between, first_output),
        streams(step, between, second, end, second_output),
    ensures
        streams(step, start, first + second, end, first_output + second_output),
{
    let head = choose|memory: Seq<u32>|
        #[trigger] follows(step, memory, first, first_output) && memory.first() == start
            && memory.last() == between;
    let tail = choose|memory: Seq<u32>|
        #[trigger] follows(step, memory, second, second_output) && memory.first() == between
            && memory.last() == end;
    let memory = head.drop_last() + tail;
    let input = first + second;
    let output = first_output + second_output;
    assert forall|i: int| 0 <= i < input.len() implies step(
        memory[i],
        input[i],
        memory[i + 1],
        #[trigger] output[i],
    ) by {
        if i < first.len() {
            assert(step(head[i], first[i], head[i + 1], first_output[i]));
        } else {
            let k = i - first.len();
            assert(step(tail[k], second[k], tail[k + 1], second_output[k]));
        }
    }
    assert(follows(step, memory, input, output));
}

/// A stream cut after `first`: some memory lies between the two parts, the
/// first part streams to it and the second part streams on from it.
pub proof fn lemma_stream_split(
    step: Step,
    start: u32,
    first: Seq<u32>,
    second: Seq<u32>,
    end: u32,
    output: Seq<u32>,
) -> (between: u32)
    requires
        streams(step, start, first + second, end, output),
    ensures
        streams(step, start, first, between, output.take(first.len() as int)),
        streams(step, between, second, end, output.skip(first.len() as int)),
{
    let input = first + second;
    let cut = first.len() as int;
    let memory = choose|memory: Seq<u32>|
        #[trigger] follows(step, memory, input, output) && memory.first() == start && memory.last()
            == end;
    let head = memory.take(cut + 1);
    let tail = memory.skip(cut);
    let first_output = output.take(cut);
    let second_output = output.skip(cut);
    assert forall|i: int| 0 <= i < first.len() implies step(
        head[i],
        first[i],
        head[i + 1],
        #[trigger] first_output[i],
    ) by {
        assert(step(memory[i], input[i], memory[i + 1], output[i]));
    }
    assert(follows(step, head, first, first_output));
    assert forall|k: int| 0 <= k < second.len() implies step(
        tail[k],
        second[k],
        tail[k + 1],
        #[trigger] second_output[k],
    ) by {
        let i = cut + k;
        assert(step(memory[i], input[i], memory[i + 1], output[i]));
    }
    assert(follows(step, tail, second, second_output));
    memory[cut]
}

/// Continuity across a cut: to feed `first + second` as one block is to feed
/// `first` and then, from the memory that it left, `second`. Whatever one
/// way can give, output and final memory, the other can give too.
pub proof fn lemma_cut_anywhere(
    step: Step,
    start: u32,
    first: Seq<u32>,
    second: Seq<u32>,
    end: u32,
    output: Seq<u32>,
)
    ensures
        streams(step, start, first + second, end, output) <==> {
            &&& output.len() == first.len() + second.len()
            &&& exists|between: u32|
                #[trigger] streams(step, start, first, between, output.take(first.len() as int))
                    && streams(step, between, second, end, output.skip(first.len() as int))
        },
{
    let cut = first.len() as int;
    if streams(step, start, first + second, end, output) {
        let between = lemma_stream_split(step, start, first, second, end, output);
        assert(streams(step, start, first, between, output.take(cut)));
    }
    if output.len() == first.len() + second.len() {
        if exists|between: u32|
            #[trigger] streams(step, start, first, between, output.take(cut)) && streams(
                step,
                between,
                second,
                end,
                output.skip(cut),
            ) {
            let between = choose|between: u32|
                #[trigger] streams(step, start, first, between, output.take(cut)) && streams(
                    step,
                    between,
                    second,
                    end,
                    output.skip(cut),
                );
            lemma_stream_join(
                step,
                start,
                first,
                between,
                output.take(cut),
                second,
                end,
                output.skip(cut),
            );
            assert(output.take(cut) + output.skip(cut) =~= output);
        }
    }
}

/// The step has at most one outcome for each memory and input.
pub open spec fn functional(step: Step) -> bool {
    forall|memory: u32, input: u32, next: u32, output: u32, other_next: u32, other_output: u32|
        #[trigger] yields(step, memory, input, next, output) && #[trigger] yields(
            step,
            memory,
            input,
            other_next,
            other_output,
        ) ==> next == other_next && output == other_output
}

/// Two traces of a functional step over one input, from one memory, agree up
/// to any sample.
proof fn lemma_traces_agree(
    step: Step,
    input: Seq<u32>,
    memory: Seq<u32>,
    output: Seq<u32>,
    other_memory: Seq<u32>,
    other_output: Seq<u32>,
    upto: int,
)
    requires
        functional(step),
        follows(step, memory, input, output),
        follows(step, other_memory, input, other_output),
        memory.first() == other_memory.first(),
        0 <= upto <= input.len(),
    ensures
        memory[upto] == other_memory[upto],
        upto > 0 ==> output[upto - 1] == other_output[upto - 1],
    decreases upto,
{
    if upto > 0 {
        let i = upto - 1;
        lemma_traces_agree(step, input, memory, output, other_memory, other_output, i);
        assert(yields(step, memory[i], input[i], memory[i + 1], output[i]));
        assert(yields(step, other_memory[i], input[i], other_memory[i + 1], other_output[i]));
    }
}

/// Determinism: a functional step, one starting memory and one input leave
/// one output and one final memory.
pub proof fn lemma_stream_deterministic(
    step: Step,
    start: u32,
    input: Seq<u32>,
    end: u32,
    output: Seq<u32>,
    other_end: u32,
    other_output: Seq<u32>,
)
    requires
        functional(step),
        streams(step, start, input, end, output),
        streams(step, start, input, other_end, other_output),
    ensures
        end == other_end,
        output == other_output,
{
    let memory = choose|memory: Seq<u32>|
        #[trigger] follows(step, memory, input, output) && memory.first() == start && memory.last()
            == end;
    let other_memory = choose|memory: Seq<u32>|
        #[trigger] follows(step, memory, input, other_output) && memory.first() == start
            && memory.last() == other_end;
    lemma_traces_agree(step, input, memory, output, other_memory, other_output, input.len() as int);
    assert forall|i: int| 0 <= i < input.len() implies output[i] == other_output[i] by {
        lemma_traces_agree(step, input, memory, output, other_memory, other_output, i + 1);
    }
    assert(output =~= other_output);
}

/// Every output sample is what the step handed out for the input sample in
/// its place, from some memory.
pub proof fn lemma_stream_sample(
    step: Step,
    start: u32,
    input: Seq<u32>,
    end: u32,
    output: Seq<u32>,
    i: int,
) -> (around: (u32, u32))
    requires
        streams(step, start, input, end, output),
        0 <= i < input.len(),
    ensures
        yields(step, around.0, input[i], around.1, output[i]),
{
    let memory = choose|memory: Seq<u32>|
        #[trigger] follows(step, memory, input, output) && memory.first() == start && memory.last()
            == end;
    assert(step(memory[i], input[i], memory[i + 1], output[i]));
    (memory[i], memory[i + 1])
}

/// A stream of one step is a stream of any other step that allows, on the
/// samples of this input, all that the first does.
pub proof fn lemma_stream_refines(
    step: Step,
    other: Step,
    start: u32,
    input: Seq<u32>,
    end: u32,
    output: Seq<u32>,
)
    requires
        streams(step, start, input, end, output),
        forall|i: int, memory: u32, next: u32, result: u32|
            0 <= i < input.len() && #[trigger] yields(step, memory, input[i], next, result)
                ==> yields(other, memory, input[i], next, result),
    ensures
        streams(other, start, input, end, output),
{
    let memory = choose|memory: Seq<u32>|
        #[trigger] follows(step, memory, input, output) && memory.first() == start && memory.last()
            == end;
    assert forall|i: int| 0 <= i < input.len() implies other(
        memory[i],
        input[i],
        memory[i + 1],
        #[trigger] output[i],
    ) by {
        assert(yields(step, memory[i], input[i], memory[i + 1], output[i]));
        assert(yields(other, memory[i], input[i], memory[i + 1], output[i]));
    }
    assert(follows(other, memory, input, output));
}

/// In a trace whose every step comes back to the memory `rest` and hands out
/// `result`, the memory is `rest` throughout.
proof fn lemma_trace_rests(
    step: Step,
    rest: u32,
    result: u32,
    input: Seq<u32>,
    memory: Seq<u32>,
    output: Seq<u32>,
    upto: int,
)
    requires
        follows(step, memory, input, output),
        memory.first() == rest,
        forall|i: int, next: u32, out: u32|
            0 <= i < input.len() && #[trigger] yields(step, rest, input[i], next, out) ==> next
                == rest && out == result,
        0 <= upto <= input.len(),
    ensures
        memory[upto] == rest,
        upto > 0 ==> output[upto - 1] == result,
    decreases upto,
{
    if upto > 0 {
        let i = upto - 1;
        lemma_trace_rests(step, rest, result, input, memory, output, i);
        assert(yields(step, memory[i], input[i], memory[i + 1], output[i]));
    }
}

/// A resting point: where every sample of the input takes the memory `rest`
/// back to `rest` and gives `result`, a stream started at `rest` ends at
/// `rest` and every output sample is `result`.
pub proof fn lemma_stream_rests(
    step: Step,
    rest: u32,
    result: u32,
    input: Seq<u32>,
    end: u32,
    output: Seq<u32>,
)
    requires
        streams(step, rest, input, end, output),
        forall|i: int, next: u32, out: u32|
            0 <= i < input.len() && #[trigger] yields(step, rest, input[i], next, out) ==> next
                == rest && out == result,
    ensures
        end == rest,
        forall|i: int| 0 <= i < output.len() ==> output[i] == result,
{
    let memory = choose|memory: Seq<u32>|
        #[trigger] follows(step, memory, input, output) && memory.first() == rest && memory.last()
            == end;
    lemma_trace_rests(step, rest, result, input, memory, output, input.len() as int);
    assert forall|i: int| 0 <= i < output.len() implies output[i] == result by {
        lemma_trace_rests(step, rest, result, input, memory, output, i + 1);
    }
}

/// `memory` is a trace of `step` over a run of blocks: `memory[k]` is the
/// memory before block `k`, `memory[k + 1]` the memory after it, and block
/// `k` of the outputs is what block `k` of the input streamed to.
pub open spec fn follows_blockwise(
    step: Step,
    memory: Seq<u32>,
    blocks: Seq<Seq<u32>>,
    outputs: Seq<Seq<u32>>,
) -> bool {
    &&& memory.len() == blocks.len() + 1
    &&& outputs.len() == blocks.len()
    &&& forall|k: int|
        0 <= k < blocks.len() ==> streams(
            step,
            memory[k],
            blocks[k],
            memory[k + 1],
            #[trigger] outputs[k],
        )
}

/// `streams_blockwise(step, start, blocks, end, outputs)`: feeding the
/// blocks one after the other, each from the memory that the one before
/// left, with the memory `start` before the first block, may give `outputs`,
/// block for block, and leave the memory `end`.
pub open spec fn streams_blockwise(
    step: Step,
    start: u32,
    blocks: Seq<Seq<u32>>,
    end: u32,
    outputs: Seq<Seq<u32>>,
) -> bool {
    exists|memory: Seq<u32>|
        #[trigger] follows_blockwise(step, memory, blocks, outputs) && memory.first() == start
            && memory.last() == end
}

proof fn lemma_trace_merges(
    step: Step,
    memory: Seq<u32>,
    blocks: Seq<Seq<u32>>,
    outputs: Seq<Seq<u32>>,
)
    requires
        follows_blockwise(step, memory, blocks, outputs),
    ensures
        streams(step, memory.first(), blocks.flatten(), memory.last(), outputs.flatten()),
    decreases blocks.len(),
{
    if blocks.len() == 0 {
        lemma_stream_empty(step, memory.first(), memory.first(), Seq::empty());
        assert(blocks.flatten() =~= Seq::empty());
        assert(outputs.flatten() =~= Seq::empty());
    } else {
        let later = memory.drop_first();
        let rest = blocks.drop_first();
        let rest_outputs = outputs.drop_first();
        assert forall|k: int| 0 <= k < rest.len() implies streams(
            step,
            later[k],
            rest[k],
            later[k + 1],
            #[trigger] rest_outputs[k],
        ) by {
            assert(streams(step, memory[k + 1], blocks[k + 1], memory[k + 2], outputs[k + 1]));
        }
        lemma_trace_merges(step, later, rest, rest_outputs);
        assert(streams(step, memory[0], blocks[0], memory[1], outputs[0]));
        lemma_stream_join(
            step,
            memory[0],
            blocks[0],
            memory[1],
            outputs[0],
            rest.flatten(),
            memory.last(),
            rest_outputs.flatten(),
        );
    }
}

/// Continuity across any cuts, one way: what a run of blocks, fed one after
/// the other, can give, their concatenation fed as one block can give too.
pub proof fn lemma_blocks_merge(
    step: Step,
    start: u32,
    blocks: Seq<Seq<u32>>,
    end: u32,
    outputs: Seq<Seq<u32>>,
)
    requires
        streams_blockwise(step, start, blocks, end, outputs),
    ensures
        streams(step, start, blocks.flatten(), end, outputs.flatten()),
{
    let memory = choose|memory: Seq<u32>|
        #[trigger] follows_blockwise(step, memory, blocks, outputs) && memory.first() == start
            && memory.last() == end;
    lemma_trace_merges(step, memory, blocks, outputs);
}

/// Continuity across any cuts, the other way: what a block can give, it can
/// give when it is fed in pieces, however it is cut; the pieces of the output
/// are the output cut at the same places.
pub proof fn lemma_block_cuts(
    step: Step,
    start: u32,
    blocks: Seq<Seq<u32>>,
    end: u32,
    output: Seq<u32>,
) -> (outputs: Seq<Seq<u32>>)
    requires
        streams(step, start, blocks.flatten(), end, output),
    ensures
        streams_blockwise(step, start, blocks, end, outputs),
        outputs.flatten() == output,
    decreases blocks.len(),
{
    if blocks.len() == 0 {
        assert(blocks.flatten() =~= Seq::empty());
        let memory = choose|memory: Seq<u32>|
            #[trigger] follows(step, memory, blocks.flatten(), output) && memory.first() == start
                && memory.last() == end;
        let outputs = Seq::<Seq<u32>>::empty();
        assert(follows_blockwise(step, seq![start], blocks, outputs));
        assert(outputs.flatten() =~= output);
        outputs
    } else {
        let rest = blocks.drop_first();
        let cut = blocks[0].len() as int;
        let between = lemma_stream_split(step, start, blocks[0], rest.flatten(), end, output);
        let rest_outputs = lemma_block_cuts(step, between, rest, end, output.skip(cut));
        let later = choose|memory: Seq<u32>|
            #[trigger] follows_blockwise(step, memory, rest, rest_outputs) && memory.first()
                == between && memory.last() == end;
        let memory = seq![start] + later;
        let outputs = seq![output.take(cut)] + rest_outputs;
        assert forall|k: int| 0 <= k < blocks.len() implies streams(
            step,
            memory[k],
            blocks[k],
            memory[k + 1],
            #[trigger] outputs[k],
        ) by {
            if k > 0 {
                assert(streams(step, later[k - 1], rest[k - 1], later[k], rest_outputs[k - 1]));
            }
        }
        assert(follows_blockwise(step, memory, blocks, outputs));
        assert(outputs.drop_first() =~= rest_outputs);
        assert(output.take(cut) + output.skip(cut) =~= output);
        outputs
    }
}

} // verus!
