//! The reference mixer and the arithmetic of the latency benchmark. Reading
//! the time-stamp counter and calling native code happen outside the library.
use vstd::prelude::*;
use crate::bits::lemma_bit_basics;
use vstd::wrapping::u64_specs::{wrapping_mul, wrapping_add};
use crate::ast::{MicroOp, eval_ops, ops_invertible, op_invertible, invert_ops, lemma_eval_injective, lemma_eval_after_invert};

verus! {

/// SplitMix64's output function.
pub open spec fn splitmix64_spec(z: u64) -> u64 {
    let z1 = wrapping_mul(z ^ (z >> 30u64), 0xbf58476d1ce4e5b9u64);
    let z2 = wrapping_mul(z1 ^ (z1 >> 27u64), 0x94d049bb133111ebu64);
    z2 ^ (z2 >> 31u64)
}

/// SplitMix64 as a kernel.
pub open spec fn splitmix64_ops() -> Seq<MicroOp> {
    seq![
        MicroOp::XorShr(30),
        MicroOp::MulOdd(0xbf58476d1ce4e5b9u64),
        MicroOp::XorShr(27),
        MicroOp::MulOdd(0x94d049bb133111ebu64),
        MicroOp::XorShr(31),
    ]
}

/// SplitMix64's output function (Steele, Lea and Flood).
pub fn splitmix64(z: u64) -> (r: u64)
    ensures
        r == splitmix64_spec(z),
{
    let mut z = z;
    z = (z ^ (z >> 30)).wrapping_mul(0xbf58476d1ce4e5b9);
    z = (z ^ (z >> 27)).wrapping_mul(0x94d049bb133111eb);
    z ^ (z >> 31)
}

/// SplitMix64 is the kernel `splitmix64_ops`, whatever the keys.
pub proof fn lemma_splitmix64_is_kernel(keys: Seq<u64>, z: u64)
    ensures
        splitmix64_spec(z) == eval_ops(splitmix64_ops(), keys, z),
        ops_invertible(splitmix64_ops()),
{
    reveal_with_fuel(eval_ops, 6);
    lemma_bit_basics(0xbf58476d1ce4e5b9u64, 0);
    lemma_bit_basics(0x94d049bb133111ebu64, 0);
    let ops = splitmix64_ops();
    assert(ops.drop_last().drop_last().drop_last().drop_last().drop_last() =~= Seq::<MicroOp>::empty());
    assert forall|i: int| 0 <= i < ops.len() implies #[trigger] op_invertible(ops[i]) by {}
}

/// SplitMix64 is a bijection of the 64-bit words: one-to-one, and every
/// word is the output of the inverse kernel's result.
pub proof fn lemma_splitmix64_bijective(a: u64, b: u64, y: u64)
    ensures
        splitmix64_spec(a) == splitmix64_spec(b) ==> a == b,
        splitmix64_spec(invert_ops(splitmix64_ops(), seq![0u64, 0u64], y)) == y,
{
    let keys = seq![0u64, 0u64];
    lemma_splitmix64_is_kernel(keys, a);
    lemma_splitmix64_is_kernel(keys, b);
    lemma_splitmix64_is_kernel(keys, invert_ops(splitmix64_ops(), keys, y));
    if splitmix64_spec(a) == splitmix64_spec(b) {
        lemma_eval_injective(splitmix64_ops(), keys, a, b);
    }
    lemma_eval_after_invert(splitmix64_ops(), keys, y);
}

/// The input the benchmark feeds at position `w` of the window in round `step`:
/// `(step + w) * 6364136223846793005 + 1`, modulo 2^64.
pub open spec fn window_input_spec(step: u64, w: u64) -> u64 {
    wrapping_add(wrapping_mul(wrapping_add(step, w), 6364136223846793005u64), 1)
}

/// The benchmark input at window position `w` in round `step`.
pub fn window_input(step: u64, w: u64) -> (r: u64)
    ensures
        r == window_input_spec(step, w),
{
    step.wrapping_add(w).wrapping_mul(6364136223846793005).wrapping_add(1)
}

/// The inputs of one benchmark round, one per window position.
pub fn window_inputs(step: u64, window: u64) -> (inputs: Vec<u64>)
    ensures
        inputs@.len() == window,
        forall|w: int| 0 <= w < window ==> #[trigger] inputs@[w] == window_input_spec(step, w as u64),
{
    let mut inputs: Vec<u64> = Vec::new();
    let mut w: u64 = 0;
    while w < window
        invariant
            w <= window,
            inputs@.len() == w,
            forall|j: int| 0 <= j < w ==> #[trigger] inputs@[j] == window_input_spec(step, j as u64),
        decreases window - w,
    {
        inputs.push(window_input(step, w));
        w = w + 1;
    }
    inputs
}

/// The cycles per call that one timed round measured: the counter's advance
/// (zero if it went backwards) over the number of calls.
pub open spec fn cycles_per_call(t0: u64, t1: u64, window: u64) -> u64 {
    (if t1 >= t0 { (t1 - t0) as u64 } else { 0u64 }) / window
}

/// The smallest cycles-per-call seen, after one more timed round.
pub fn update_min_latency(min: u64, t0: u64, t1: u64, window: u64) -> (r: u64)
    requires
        window > 0,
    ensures
        r == (if cycles_per_call(t0, t1, window) < min { cycles_per_call(t0, t1, window) } else { min }),
{
    let d = t1.saturating_sub(t0) / window;
    if d < min {
        d
    } else {
        min
    }
}

} // verus!
