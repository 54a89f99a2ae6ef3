//! The synthesized 64-bit mixer, as the emitter writes it.
use vstd::prelude::*;
use crate::bits::lemma_bit_basics;
use crate::ast::{MicroOp, eval_ops, invert_ops, zero_keys, op_invertible, lemma_eval_injective, lemma_eval_after_invert};

verus! {

/// The kernel that `wirecut_mix64` runs.
pub open spec fn mix64_ops() -> Seq<MicroOp> {
    seq![
        MicroOp::MulOdd(0x9E3779B97F4A7C15u64),
        MicroOp::XorShr(31),
        MicroOp::MulOdd(0xBF58476D1CE4E5B9u64),
        MicroOp::XorShr(31),
    ]
}

/// Multiply, xorshift, multiply, xorshift.
pub fn wirecut_mix64(x: u64) -> (r: u64)
    ensures
        r == eval_ops(mix64_ops(), zero_keys(), x),
{
    proof {
        reveal_with_fuel(eval_ops, 5);
        lemma_bit_basics(0x9E3779B97F4A7C15u64, 0);
        lemma_bit_basics(0xBF58476D1CE4E5B9u64, 0);
        assert(mix64_ops().drop_last().drop_last().drop_last().drop_last() =~= Seq::<MicroOp>::empty());
    }
    let mut x = x;
    x = x.wrapping_mul(0x9E3779B97F4A7C15);
    x ^= x >> 31;
    x = x.wrapping_mul(0xBF58476D1CE4E5B9);
    x ^= x >> 31;
    x
}

/// `wirecut_mix64` is a bijection of the 64-bit words: one-to-one, and
/// onto (the inverse kernel gives the preimage of every `y`).
pub proof fn lemma_wirecut_mix64_bijective(a: u64, b: u64, y: u64)
    ensures
        eval_ops(mix64_ops(), zero_keys(), a) == eval_ops(mix64_ops(), zero_keys(), b) ==> a == b,
        eval_ops(mix64_ops(), zero_keys(), invert_ops(mix64_ops(), zero_keys(), y)) == y,
{
    let ops = mix64_ops();
    assert forall|i: int| 0 <= i < ops.len() implies #[trigger] op_invertible(ops[i]) by {}
    if eval_ops(ops, zero_keys(), a) == eval_ops(ops, zero_keys(), b) {
        lemma_eval_injective(ops, zero_keys(), a, b);
    }
    lemma_eval_after_invert(ops, zero_keys(), y);
}

} // verus!
