//! A multiplication-free mixer made of xorshifts and one rotation.
use vstd::prelude::*;
use crate::ast::{MicroOp, eval_ops, invert_ops, zero_keys, op_invertible, lemma_eval_injective, lemma_eval_after_invert};
use crate::bits::rotate_right;

verus! {

/// The kernel that `wirecut_arx64` runs.
pub open spec fn arx64_ops() -> Seq<MicroOp> {
    seq![
        MicroOp::XorShr(31),
        MicroOp::XorShl(18),
        MicroOp::XorShl(9),
        MicroOp::XorShl(30),
        MicroOp::XorShr(14),
        MicroOp::XorShr(24),
        MicroOp::Ror(33),
        MicroOp::XorShr(27),
    ]
}

/// Eight shift and rotate steps.
pub fn wirecut_arx64(x: u64) -> (r: u64)
    ensures
        r == eval_ops(arx64_ops(), zero_keys(), x),
{
    proof {
        reveal_with_fuel(eval_ops, 9);
        let ops = arx64_ops();
        assert(ops.drop_last().drop_last().drop_last().drop_last().drop_last().drop_last().drop_last().drop_last()
            =~= Seq::<MicroOp>::empty());
    }
    let mut x = x;
    x ^= x >> 31;
    x ^= x << 18;
    x ^= x << 9;
    x ^= x << 30;
    x ^= x >> 14;
    x ^= x >> 24;
    x = rotate_right(x, 33);
    x ^= x >> 27;
    x
}

/// `wirecut_arx64` is a bijection of the 64-bit words: one-to-one, and
/// onto (the inverse kernel gives the preimage of every `y`).
pub proof fn lemma_wirecut_arx64_bijective(a: u64, b: u64, y: u64)
    ensures
        eval_ops(arx64_ops(), zero_keys(), a) == eval_ops(arx64_ops(), zero_keys(), b) ==> a == b,
        eval_ops(arx64_ops(), zero_keys(), invert_ops(arx64_ops(), zero_keys(), y)) == y,
{
    let ops = arx64_ops();
    assert forall|i: int| 0 <= i < ops.len() implies #[trigger] op_invertible(ops[i]) by {}
    if eval_ops(ops, zero_keys(), a) == eval_ops(ops, zero_keys(), b) {
        lemma_eval_injective(ops, zero_keys(), a, b);
    }
    lemma_eval_after_invert(ops, zero_keys(), y);
}

} // verus!
