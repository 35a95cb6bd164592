//! The processor with IEEE 754 binary32 arithmetic.

use tape_dsp::arithmetic::{Arithmetic, COEFFICIENT, DRIVE, GAIN, ONE, ZERO};
use tape_dsp::processor::TapeProcessor;

type Binary = fn(u32, u32) -> u32;
type Unary = fn(u32) -> u32;

fn mul(a: u32, b: u32) -> u32 {
    (f32::from_bits(a) * f32::from_bits(b)).to_bits()
}

fn add(a: u32, b: u32) -> u32 {
    (f32::from_bits(a) + f32::from_bits(b)).to_bits()
}

fn sub(a: u32, b: u32) -> u32 {
    (f32::from_bits(a) - f32::from_bits(b)).to_bits()
}

/// The argument is hidden from the optimiser, so that every call is made at
/// run time: a call that the compiler works out may differ from one that the
/// machine makes in the last bits.
fn tanh(a: u32) -> u32 {
    std::hint::black_box(f32::from_bits(a)).tanh().to_bits()
}

fn ieee() -> Arithmetic<Binary, Binary, Binary, Unary> {
    Arithmetic { mul, add, sub, tanh }
}

fn bits(samples: &[f32]) -> Vec<u32> {
    samples.iter().map(|s| s.to_bits()).collect()
}

fn floats(samples: &[u32]) -> Vec<f32> {
    samples.iter().map(|b| f32::from_bits(*b)).collect()
}

/// Feeds `samples` to `processor` as one block and gives the output.
fn run(processor: &mut TapeProcessor, samples: &[f32]) -> Vec<f32> {
    let mut block = bits(samples);
    processor.process(&mut block, &ieee());
    floats(&block)
}

fn state(processor: &TapeProcessor) -> f32 {
    f32::from_bits(processor.filter_state())
}

/// Equal within the tolerance that the hyperbolic tangent's precision asks for.
fn close(a: f32, b: f32) -> bool {
    (f64::from(a) - f64::from(b)).abs() < 1e-6
}

/// The chain on one sample, written out in floating point.
fn by_hand(memory: f32, input: f32) -> (f32, f32) {
    let a: f32 = 0.19;
    let saturated = (input * 1.5).tanh();
    let next = a * saturated + (1.0 - a) * memory;
    (next, (next * 0.9).tanh())
}

#[test]
fn constants_are_the_bit_patterns_of_their_values() {
    assert_eq!(f32::from_bits(ZERO), 0.0);
    assert_eq!(ZERO, 0.0f32.to_bits());
    assert_eq!(f32::from_bits(ONE), 1.0);
    assert_eq!(f32::from_bits(DRIVE), 1.5);
    assert_eq!(COEFFICIENT, 0.19f32.to_bits());
    assert_eq!(GAIN, 0.9f32.to_bits());
}

#[test]
fn fresh_processor_has_zero_memory() {
    let processor = TapeProcessor::new();
    assert_eq!(processor.filter_state(), 0);
    assert_eq!(state(&processor), 0.0);
}

#[test]
fn zero_then_one_gives_the_closed_form() {
    let mut processor = TapeProcessor::new();
    let first = run(&mut processor, &[0.0]);
    assert_eq!(first, vec![0.0]);
    assert_eq!(state(&processor), 0.0);
    assert_eq!(processor.filter_state(), 0);

    let second = run(&mut processor, &[1.0]);
    let expected = (0.19f64 * 1.5f64.tanh() * 0.9).tanh();
    assert_eq!(second.len(), 1);
    assert!((f64::from(second[0]) - expected).abs() < 1e-6);
    assert!((f64::from(second[0]) - 0.15355606007107098).abs() < 1e-6);
    assert!((f64::from(state(&processor)) - 0.17197816819252462).abs() < 1e-6);
}

#[test]
fn half_gives_its_expected_value() {
    let mut processor = TapeProcessor::new();
    let output = run(&mut processor, &[0.5]);
    assert!((f64::from(output[0]) - 0.108185411528624).abs() < 1e-6);
    assert!((f64::from(state(&processor)) - 0.12067830095358459).abs() < 1e-6);
}

#[test]
fn output_is_the_chain_written_by_hand() {
    let input = [0.5f32, -0.3, 0.1, 0.8, 2.5, -7.0, 0.0, 1.0e-20, -1.0e20];
    let mut processor = TapeProcessor::new();
    let output = run(&mut processor, &input);
    assert_eq!(output.len(), input.len());
    let mut memory = 0.0f32;
    for (i, x) in input.iter().enumerate() {
        let (next, expected) = by_hand(memory, *x);
        assert!(close(output[i], expected), "sample {}: {} and {}", i, output[i], expected);
        memory = next;
    }
    assert!(close(state(&processor), memory));
}

#[test]
fn the_second_sample_remembers_the_first() {
    let mut processor = TapeProcessor::new();
    let output = run(&mut processor, &[1.0, 1.0]);
    let (after_first, first) = by_hand(0.0, 1.0);
    let (after_second, second) = by_hand(after_first, 1.0);
    assert_eq!(output.len(), 2);
    assert!(close(output[0], first));
    assert!(close(output[1], second));
    assert!(output[1] > output[0]);
    assert!(close(state(&processor), after_second));
}

#[test]
fn one_block_equals_two_halves() {
    let mut whole = TapeProcessor::new();
    let expected = run(&mut whole, &[0.5, -0.3, 0.1, 0.8]);

    let mut halves = TapeProcessor::new();
    let mut output = run(&mut halves, &[0.5, -0.3]);
    output.extend(run(&mut halves, &[0.1, 0.8]));

    assert_eq!(bits(&output), bits(&expected));
    assert_eq!(halves.filter_state(), whole.filter_state());
}

#[test]
fn one_block_equals_any_cut() {
    let input = [0.5f32, -0.3, 0.1, 0.8, -1.7, 0.0, 3.0];
    let mut whole = TapeProcessor::new();
    let expected = run(&mut whole, &input);
    for cut in 0..=input.len() {
        let mut processor = TapeProcessor::new();
        let mut output = run(&mut processor, &input[..cut]);
        output.extend(run(&mut processor, &input[cut..]));
        assert_eq!(bits(&output), bits(&expected));
        assert_eq!(processor.filter_state(), whole.filter_state());
    }
}

#[test]
fn one_block_equals_sample_by_sample() {
    let input = [0.5f32, -0.3, 0.1, 0.8, -1.7, 0.0, 3.0];
    let mut whole = TapeProcessor::new();
    let expected = run(&mut whole, &input);
    let mut processor = TapeProcessor::new();
    let mut output = Vec::new();
    for x in input {
        output.extend(run(&mut processor, &[x]));
    }
    assert_eq!(bits(&output), bits(&expected));
    assert_eq!(processor.filter_state(), whole.filter_state());
}

#[test]
fn one_block_equals_uneven_pieces() {
    let input: Vec<f32> = (0..40).map(|i| ((i * 37 % 23) as f32 - 11.0) / 7.0).collect();
    let mut whole = TapeProcessor::new();
    let expected = run(&mut whole, &input);
    let mut processor = TapeProcessor::new();
    let mut output = Vec::new();
    let mut at = 0;
    for size in [1usize, 0, 7, 2, 13, 0, 17] {
        output.extend(run(&mut processor, &input[at..at + size]));
        at += size;
    }
    assert_eq!(at, input.len());
    assert_eq!(bits(&output), bits(&expected));
    assert_eq!(processor.filter_state(), whole.filter_state());
}

#[test]
fn empty_block_changes_nothing() {
    let mut processor = TapeProcessor::new();
    run(&mut processor, &[0.7, -0.2]);
    let before = processor.filter_state();
    let output = run(&mut processor, &[]);
    assert!(output.is_empty());
    assert_eq!(processor.filter_state(), before);
}

#[test]
fn silence_in_silence_out() {
    for length in [0usize, 1, 2, 128, 1000] {
        let mut processor = TapeProcessor::new();
        let mut block = vec![ZERO; length];
        processor.process(&mut block, &ieee());
        assert_eq!(block, vec![ZERO; length]);
        assert_eq!(processor.filter_state(), ZERO);
    }
}

#[test]
fn negative_zero_is_silence_too() {
    let mut processor = TapeProcessor::new();
    let output = run(&mut processor, &[-0.0, -0.0, 0.0]);
    assert_eq!(output, vec![0.0, 0.0, 0.0]);
    assert_eq!(state(&processor), 0.0);
}

#[test]
fn arithmetic_is_silent_at_zero() {
    let ops = ieee();
    assert_eq!((ops.mul)(ZERO, DRIVE), ZERO);
    assert_eq!((ops.tanh)(ZERO), ZERO);
    assert_eq!((ops.mul)(COEFFICIENT, ZERO), ZERO);
    let keep = (ops.sub)(ONE, COEFFICIENT);
    assert_eq!((ops.mul)(keep, ZERO), ZERO);
    assert_eq!((ops.add)(ZERO, ZERO), ZERO);
    assert_eq!((ops.mul)(ZERO, GAIN), ZERO);
}

#[test]
fn output_stays_inside_the_unit_interval() {
    let input = [
        0.0f32,
        1.0,
        -1.0,
        0.5,
        -0.5,
        10.0,
        -10.0,
        1.0e10,
        -1.0e10,
        1.0e30,
        -1.0e30,
        f32::MAX,
        f32::MIN,
        f32::MIN_POSITIVE,
        -f32::MIN_POSITIVE,
        1.0e-40,
    ];
    let mut processor = TapeProcessor::new();
    for round in 0..50 {
        let output = run(&mut processor, &input);
        for y in output {
            assert!(y > -1.0 && y < 1.0, "round {}: {}", round, y);
        }
        let memory = state(&processor);
        assert!(memory >= -1.0 && memory <= 1.0);
    }
}

#[test]
fn full_scale_input_stays_inside_the_unit_interval() {
    let mut up = TapeProcessor::new();
    for y in run(&mut up, &[f32::MAX; 500]) {
        assert!(y > 0.0 && y < 1.0);
    }
    let mut down = TapeProcessor::new();
    for y in run(&mut down, &[f32::MIN; 500]) {
        assert!(y > -1.0 && y < 0.0);
    }
}

#[test]
fn same_state_and_input_give_same_output() {
    let input = [0.9f32, -0.4, 0.0, 2.0, -3.5, 0.25];
    let mut one = TapeProcessor::new();
    let mut two = TapeProcessor::new();
    run(&mut one, &[0.3, 0.6]);
    run(&mut two, &[0.3, 0.6]);
    assert_eq!(one.filter_state(), two.filter_state());
    let first = run(&mut one, &input);
    let second = run(&mut two, &input);
    assert_eq!(bits(&first), bits(&second));
    assert_eq!(one.filter_state(), two.filter_state());
}

#[test]
fn impulse_decays_towards_zero() {
    let mut processor = TapeProcessor::new();
    let first = run(&mut processor, &[1.0]);
    let mut memory = state(&processor);
    let mut output = first[0];
    assert!(memory > 0.0);
    assert!(output > 0.0);
    let keep = 1.0f32 - 0.19f32;
    for _ in 0..60 {
        let next_output = run(&mut processor, &[0.0])[0];
        let next_memory = state(&processor);
        assert!(next_memory > 0.0 && next_memory < memory);
        assert_eq!(next_memory, 0.0 + keep * memory);
        assert!((f64::from(next_memory) / f64::from(memory) - 0.81).abs() < 1e-6);
        assert!(next_output > 0.0 && next_output < output);
        assert!(close(next_output, (next_memory * 0.9).tanh()));
        memory = next_memory;
        output = next_output;
    }
    assert!(memory < 1.0e-5);
}

#[test]
fn negative_impulse_decays_towards_zero() {
    let mut processor = TapeProcessor::new();
    let mut output = run(&mut processor, &[-1.0])[0];
    let mut memory = state(&processor);
    assert!(memory < 0.0 && output < 0.0);
    for next_output in run(&mut processor, &[0.0; 30]) {
        assert!(next_output < 0.0 && next_output > output);
        output = next_output;
    }
    let later = state(&processor);
    assert!(later < 0.0 && later > memory);
    memory = later;
    assert!(memory > -1.0e-3);
}

#[test]
fn infinite_input_saturates() {
    let mut processor = TapeProcessor::new();
    let output = run(&mut processor, &[f32::INFINITY, f32::NEG_INFINITY]);
    let (after_first, first) = by_hand(0.0, f32::INFINITY);
    let (after_second, second) = by_hand(after_first, f32::NEG_INFINITY);
    assert_eq!(after_first, 0.19f32);
    assert_eq!(output.len(), 2);
    assert!(close(output[0], first));
    assert!(close(output[1], second));
    assert!(close(state(&processor), after_second));
}

#[test]
fn not_a_number_stays_in_the_memory() {
    let mut processor = TapeProcessor::new();
    let output = run(&mut processor, &[0.5, f32::NAN, 0.5, 0.0]);
    assert!(!output[0].is_nan());
    assert!(output[1].is_nan());
    assert!(output[2].is_nan());
    assert!(output[3].is_nan());
    assert!(state(&processor).is_nan());
    let later = run(&mut processor, &[0.0, 1.0]);
    assert!(later[0].is_nan() && later[1].is_nan());
    assert!(state(&processor).is_nan());
}
