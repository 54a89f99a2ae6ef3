//! The moves of the kernel search: the seed kernel, one move from a kernel to
//! a candidate, drawing a random operation of a given family, and what every
//! run of moves keeps.
use vstd::prelude::*;
use crate::ast::{KernelAST, MicroOp, op_type_index, op_invertible, ops_invertible, ops_in_range, lemma_invertible_in_range};
use crate::bits::lemma_bit_basics;
use crate::random::{thread_rng, gen_u64, gen_range_u64};

verus! {

/// The seed of the search for the key pair `(k0, k1)`: multiply, xorshift,
/// multiply, xorshift, with the multipliers keyed and forced odd.
pub open spec fn seed_ops(k0: u64, k1: u64) -> Seq<MicroOp> {
    seq![
        MicroOp::MulOdd((0x9E3779B97F4A7C15u64 ^ k0) | 1),
        MicroOp::XorShr(33),
        MicroOp::MulOdd((0xBF58476D1CE4E5B9u64 ^ k1) | 1),
        MicroOp::XorShr(33),
    ]
}

/// The parameter ranges that the search draws operations from.
pub open spec fn sampled_in_range(op: MicroOp) -> bool {
    match op {
        MicroOp::MulOdd(c) => c % 2 == 1,
        MicroOp::XorShr(k) => 17 <= k < 34,
        MicroOp::Ror(k) => 7 <= k < 57,
        MicroOp::AddConst(_) => true,
        MicroOp::XorConst(_) => true,
        MicroOp::KeyXor(idx) => idx < 2,
        MicroOp::XorShl(k) => 11 <= k < 29,
    }
}

/// The seed kernel of the search: four operations, a bijection for every key pair.
pub fn seed_kernel(k0: u64, k1: u64) -> (kernel: KernelAST)
    ensures
        kernel@ == seed_ops(k0, k1),
        kernel@.len() == 4,
        ops_invertible(kernel@),
{
    proof {
        lemma_seed_invertible(k0, k1);
    }
    let c1 = (0x9E3779B97F4A7C15u64 ^ k0) | 1;
    let c2 = (0xBF58476D1CE4E5B9u64 ^ k1) | 1;
    let ops = vec![MicroOp::MulOdd(c1), MicroOp::XorShr(33), MicroOp::MulOdd(c2), MicroOp::XorShr(33)];
    let kernel = KernelAST::new(ops);
    assert(kernel@ =~= seed_ops(k0, k1));
    kernel
}

/// The operations after one move of the search: for `m` 0 or 1, operation `r`
/// becomes `op`; for `m == 2`, operations `s` and `s + 1` trade places.
pub open spec fn step_ops(ops: Seq<MicroOp>, m: u64, r: int, op: MicroOp, s: int) -> Seq<MicroOp> {
    if m < 2 {
        ops.update(r, op)
    } else if ops.len() >= 2 {
        ops.update(s, ops[s + 1]).update(s + 1, ops[s])
    } else {
        ops
    }
}

/// A move `(m, r, op, s)` that the search may make on a kernel of `len`
/// operations, with `op` drawn from the search's ranges where it is used.
pub open spec fn move_allowed(len: nat, mv: (u64, int, MicroOp, int)) -> bool {
    &&& mv.0 < 3
    &&& 0 <= mv.1 < len
    &&& len >= 2 ==> 0 <= mv.3 && mv.3 + 1 < len
    &&& mv.0 < 2 ==> sampled_in_range(mv.2)
}

/// The operations after making `moves`, in order, from `start`.
pub open spec fn search_ops(start: Seq<MicroOp>, moves: Seq<(u64, int, MicroOp, int)>) -> Seq<MicroOp>
    decreases moves.len(),
{
    if moves.len() == 0 {
        start
    } else {
        let mv = moves.last();
        step_ops(search_ops(start, moves.drop_last()), mv.0, mv.1, mv.2, mv.3)
    }
}

/// One move keeps the number of operations, and keeps a bijection a
/// bijection when the operation it puts in is one.
pub proof fn lemma_step_ops(ops: Seq<MicroOp>, m: u64, r: int, op: MicroOp, s: int)
    requires
        0 <= r < ops.len(),
        ops.len() >= 2 ==> 0 <= s && s + 1 < ops.len(),
    ensures
        step_ops(ops, m, r, op, s).len() == ops.len(),
        ops_invertible(ops) && (m < 2 ==> op_invertible(op)) ==> ops_invertible(step_ops(ops, m, r, op, s)),
{
    let cand = step_ops(ops, m, r, op, s);
    if ops_invertible(ops) && (m < 2 ==> op_invertible(op)) {
        assert forall|i: int| 0 <= i < cand.len() implies #[trigger] op_invertible(cand[i]) by {
            if m < 2 {
                if i != r {
                    assert(op_invertible(ops[i]));
                }
            } else if ops.len() >= 2 {
                if i == s {
                    assert(op_invertible(ops[s + 1]));
                } else if i == s + 1 {
                    assert(op_invertible(ops[s]));
                } else {
                    assert(op_invertible(ops[i]));
                }
            } else {
                assert(op_invertible(ops[i]));
            }
        }
    }
}

/// Every kernel that the search reaches from the seed, by any run of its
/// moves, has four operations, is a bijection, and has all its shift
/// amounts in range.
pub proof fn lemma_search_keeps_invertible(k0: u64, k1: u64, moves: Seq<(u64, int, MicroOp, int)>)
    requires
        forall|i: int| 0 <= i < moves.len() ==> move_allowed(4, #[trigger] moves[i]),
    ensures
        search_ops(seed_ops(k0, k1), moves).len() == 4,
        ops_invertible(search_ops(seed_ops(k0, k1), moves)),
        ops_in_range(search_ops(seed_ops(k0, k1), moves)),
    decreases moves.len(),
{
    let ops = search_ops(seed_ops(k0, k1), moves);
    if moves.len() == 0 {
        lemma_seed_invertible(k0, k1);
    } else {
        let init = moves.drop_last();
        let mv = moves.last();
        assert(move_allowed(4, moves[moves.len() - 1]));
        assert forall|i: int| 0 <= i < init.len() implies move_allowed(4, #[trigger] init[i]) by {
            assert(move_allowed(4, moves[i]));
        }
        lemma_search_keeps_invertible(k0, k1, init);
        if mv.0 < 2 {
            lemma_sampled_op_invertible(mv.2);
        }
        lemma_step_ops(search_ops(seed_ops(k0, k1), init), mv.0, mv.1, mv.2, mv.3);
    }
    lemma_invertible_in_range(ops);
}

/// One move of the search from `current`: for `m` 0 or 1, operation `r` is
/// replaced by `op`; for `m == 2`, operations `s` and `s + 1` trade places
/// (a kernel of fewer than two operations stays as it is). The candidate has
/// as many operations as `current`, and is a bijection when `current` and
/// `op` are.
pub fn search_step(current: &KernelAST, m: u64, r: usize, op: MicroOp, s: usize) -> (cand: KernelAST)
    requires
        m < 3,
        r < current@.len(),
        current@.len() >= 2 ==> s + 1 < current@.len(),
    ensures
        cand@.len() == current@.len(),
        m < 2 ==> cand@ == current@.update(r as int, op),
        m == 2 && current@.len() >= 2 ==> cand@ == current@.update(s as int, current@[s + 1]).update(
            s + 1,
            current@[s as int],
        ),
        m == 2 && current@.len() < 2 ==> cand@ == current@,
        cand@ == step_ops(current@, m, r as int, op, s as int),
        ops_invertible(current@) && op_invertible(op) ==> ops_invertible(cand@),
{
    let n = current.ops.len();
    let mut cand_ops: Vec<MicroOp> = Vec::new();
    for i in 0..n
        invariant
            n == current@.len(),
            cand_ops@ == current@.take(i as int),
    {
        cand_ops.push(current.ops[i]);
        assert(current@.take(i + 1) =~= current@.take(i as int).push(current@[i as int]));
    }
    assert(current@.take(n as int) =~= current@);
    if m < 2 {
        cand_ops[r] = op;
    } else if n >= 2 {
        let a = cand_ops[s];
        let b = cand_ops[s + 1];
        cand_ops[s] = b;
        cand_ops[s + 1] = a;
    }
    let cand = KernelAST::new(cand_ops);
    proof {
        lemma_step_ops(current@, m, r as int, op, s as int);
    }
    cand
}

/// A random operation of family `op_type` (families past 5 all mean `XorShl`),
/// with its parameter drawn from the search's range.
pub fn sample_op(op_type: usize) -> (op: MicroOp)
    ensures
        op_type_index(op) == (if op_type < 6 { op_type } else { 6 }),
        sampled_in_range(op),
{
    let mut r = thread_rng();
    match op_type {
        0 => {
            let w = gen_u64(&mut r);
            let c = w | 1;
            proof {
                lemma_bit_basics(w, 0);
            }
            MicroOp::MulOdd(c)
        },
        1 => MicroOp::XorShr(gen_range_u64(&mut r, 17, 34) as u8),
        2 => MicroOp::Ror(gen_range_u64(&mut r, 7, 57) as u8),
        3 => MicroOp::AddConst(gen_u64(&mut r)),
        4 => MicroOp::XorConst(gen_u64(&mut r)),
        5 => MicroOp::KeyXor(gen_range_u64(&mut r, 0, 2) as u8),
        _ => MicroOp::XorShl(gen_range_u64(&mut r, 11, 29) as u8),
    }
}

/// Every operation the search draws is a bijection, so every kernel it
/// builds from them can be inverted.
pub proof fn lemma_sampled_op_invertible(op: MicroOp)
    requires
        sampled_in_range(op),
    ensures
        op_invertible(op),
{
}

/// The seed kernel of the search is a bijection for every key pair.
pub proof fn lemma_seed_invertible(k0: u64, k1: u64)
    ensures
        ops_invertible(seed_ops(k0, k1)),
{
    let ops = seed_ops(k0, k1);
    assert forall|i: int| 0 <= i < ops.len() implies #[trigger] op_invertible(ops[i]) by {}
}

} // verus!
