//! The kernel language: a straight-line pipeline of invertible 64-bit
//! micro-operations, its evaluation, and its inverse.
use vstd::prelude::*;
use vstd::wrapping::u64_specs::{wrapping_add, wrapping_mul, wrapping_sub};
use vstd::arithmetic::div_mod::{lemma_mul_mod_noop_left, lemma_mul_mod_noop_right, lemma_small_mod};
use vstd::arithmetic::mul::lemma_mul_is_associative;
use crate::bits::{
    rotr, rotl, unxorshr, unxorshl, odd_inverse, rotate_right, rotate_left, invert_xor_shr,
    invert_xor_shl, odd_mul_inverse, lemma_rot_inverse, lemma_unxorshr, lemma_unxorshl,
    lemma_odd_inverse, lemma_bit_basics, lemma_u8_basics,
};

verus! {

/// One step of a kernel, acting on a 64-bit state `x`.
#[derive(Clone, Copy, Debug, PartialEq, Eq, Structural)]
pub enum MicroOp {
    /// `x *= c | 1` (modulo 2^64).
    MulOdd(u64),
    /// `x += c` (modulo 2^64).
    AddConst(u64),
    /// `x ^= c`.
    XorConst(u64),
    /// `x = x.rotate_right(k)`.
    Ror(u8),
    /// `x ^= x >> k`.
    XorShr(u8),
    /// `x ^= x << k`.
    XorShl(u8),
    /// `x ^= keys[idx & 1]`.
    KeyXor(u8),
}

/// A kernel: its micro-operations, applied first to last.
#[derive(Clone, Debug)]
pub struct KernelAST {
    pub ops: Vec<MicroOp>,
}

impl View for KernelAST {
    type V = Seq<MicroOp>;

    open spec fn view(&self) -> Seq<MicroOp> {
        self.ops@
    }
}

/// The key that `KeyXor(idx)` reads.
pub open spec fn key_of(keys: Seq<u64>, idx: u8) -> u64 {
    keys[(idx & 1) as int]
}

/// The key pair that the unkeyed entry points use: `KeyXor` then changes nothing.
pub open spec fn zero_keys() -> Seq<u64> {
    seq![0u64, 0u64]
}

/// What one micro-operation does to the state `x`.
pub open spec fn apply_op(op: MicroOp, keys: Seq<u64>, x: u64) -> u64 {
    match op {
        MicroOp::MulOdd(c) => wrapping_mul(x, c | 1),
        MicroOp::AddConst(c) => wrapping_add(x, c),
        MicroOp::XorConst(c) => x ^ c,
        MicroOp::Ror(k) => rotr(x, k as u64),
        MicroOp::XorShr(k) => x ^ (x >> (k as u64)),
        MicroOp::XorShl(k) => x ^ (x << (k as u64)),
        MicroOp::KeyXor(idx) => x ^ key_of(keys, idx),
    }
}

/// What the inverse of one micro-operation does to the state `y`.
pub open spec fn undo_op(op: MicroOp, keys: Seq<u64>, y: u64) -> u64 {
    match op {
        MicroOp::MulOdd(c) => wrapping_mul(y, odd_inverse(c | 1)),
        MicroOp::AddConst(c) => wrapping_sub(y, c),
        MicroOp::XorConst(c) => y ^ c,
        MicroOp::Ror(k) => rotl(y, k as u64),
        MicroOp::XorShr(k) => unxorshr(y, k as u64),
        MicroOp::XorShl(k) => unxorshl(y, k as u64),
        MicroOp::KeyXor(idx) => y ^ key_of(keys, idx),
    }
}

/// The kernel `ops` applied to `x`, first operation first.
pub open spec fn eval_ops(ops: Seq<MicroOp>, keys: Seq<u64>, x: u64) -> u64
    decreases ops.len(),
{
    if ops.len() == 0 {
        x
    } else {
        apply_op(ops.last(), keys, eval_ops(ops.drop_last(), keys, x))
    }
}

/// The inverses of the operations of `ops` applied to `y`, last operation first.
pub open spec fn invert_ops(ops: Seq<MicroOp>, keys: Seq<u64>, y: u64) -> u64
    decreases ops.len(),
{
    if ops.len() == 0 {
        y
    } else {
        invert_ops(ops.drop_last(), keys, undo_op(ops.last(), keys, y))
    }
}

/// A shift amount that evaluation can use without overflow.
pub open spec fn op_in_range(op: MicroOp) -> bool {
    match op {
        MicroOp::XorShr(k) => k < 64,
        MicroOp::XorShl(k) => k < 64,
        _ => true,
    }
}

/// An operation that is a bijection of the 64-bit words.
pub open spec fn op_invertible(op: MicroOp) -> bool {
    match op {
        MicroOp::XorShr(k) => 1 <= k < 64,
        MicroOp::XorShl(k) => 1 <= k < 64,
        _ => true,
    }
}

pub open spec fn ops_in_range(ops: Seq<MicroOp>) -> bool {
    forall|i: int| 0 <= i < ops.len() ==> #[trigger] op_in_range(ops[i])
}

pub open spec fn ops_invertible(ops: Seq<MicroOp>) -> bool {
    forall|i: int| 0 <= i < ops.len() ==> #[trigger] op_invertible(ops[i])
}

/// The operation family of `op`, numbered as the synthesizer samples them.
pub open spec fn op_type_index(op: MicroOp) -> usize {
    match op {
        MicroOp::MulOdd(_) => 0,
        MicroOp::XorShr(_) => 1,
        MicroOp::Ror(_) => 2,
        MicroOp::AddConst(_) => 3,
        MicroOp::XorConst(_) => 4,
        MicroOp::KeyXor(_) => 5,
        MicroOp::XorShl(_) => 6,
    }
}

impl MicroOp {
    /// The operation family of this operation (see `op_type_index`).
    pub fn type_index(&self) -> (r: usize)
        ensures
            r == op_type_index(*self),
    {
        match self {
            MicroOp::MulOdd(_) => 0,
            MicroOp::XorShr(_) => 1,
            MicroOp::Ror(_) => 2,
            MicroOp::AddConst(_) => 3,
            MicroOp::XorConst(_) => 4,
            MicroOp::KeyXor(_) => 5,
            MicroOp::XorShl(_) => 6,
        }
    }
}

fn apply(op: MicroOp, x: u64, keys: &[u64; 2]) -> (r: u64)
    requires
        op_in_range(op),
    ensures
        r == apply_op(op, keys@, x),
{
    match op {
        MicroOp::MulOdd(c) => x.wrapping_mul(c | 1),
        MicroOp::AddConst(c) => x.wrapping_add(c),
        MicroOp::XorConst(c) => x ^ c,
        MicroOp::Ror(k) => rotate_right(x, k),
        MicroOp::XorShr(k) => x ^ (x >> (k as u64)),
        MicroOp::XorShl(k) => x ^ (x << (k as u64)),
        MicroOp::KeyXor(idx) => {
            proof {
                lemma_u8_basics(idx);
            }
            x ^ keys[(idx & 1) as usize]
        },
    }
}

fn undo(op: MicroOp, y: u64, keys: &[u64; 2]) -> (r: u64)
    ensures
        r == undo_op(op, keys@, y),
{
    match op {
        MicroOp::MulOdd(c) => {
            let odd = c | 1;
            proof {
                lemma_bit_basics(c, 0);
            }
            let inv = odd_mul_inverse(odd);
            y.wrapping_mul(inv)
        },
        MicroOp::AddConst(c) => y.wrapping_sub(c),
        MicroOp::XorConst(c) => y ^ c,
        MicroOp::Ror(k) => rotate_left(y, k),
        MicroOp::XorShr(k) => invert_xor_shr(y, k),
        MicroOp::XorShl(k) => invert_xor_shl(y, k),
        MicroOp::KeyXor(idx) => {
            proof {
                lemma_u8_basics(idx);
            }
            y ^ keys[(idx & 1) as usize]
        },
    }
}

impl KernelAST {
    /// Whether every shift amount is below 64, so that the kernel can be evaluated.
    pub fn shifts_in_range(&self) -> (b: bool)
        ensures
            b == ops_in_range(self@),
    {
        let n = self.ops.len();
        for i in 0..n
            invariant
                n == self@.len(),
                forall|j: int| 0 <= j < i ==> #[trigger] op_in_range(self@[j]),
        {
            match self.ops[i] {
                MicroOp::XorShr(k) | MicroOp::XorShl(k) => {
                    if k >= 64 {
                        assert(!op_in_range(self@[i as int]));
                        return false;
                    }
                },
                _ => {},
            }
        }
        true
    }

    pub fn new(ops: Vec<MicroOp>) -> (r: Self)
        ensures
            r@ == ops@,
    {
        Self { ops }
    }

    /// Runs the kernel on `x` with both keys zero.
    pub fn eval(&self, x: u64) -> (r: u64)
        requires
            ops_in_range(self@),
        ensures
            r == eval_ops(self@, zero_keys(), x),
    {
        let keys: [u64; 2] = [0, 0];
        assert(keys@ =~= zero_keys());
        self.eval_keyed(x, &keys)
    }

    /// Runs the kernel on `x`, with `KeyXor(idx)` reading `keys[idx & 1]`.
    pub fn eval_keyed(&self, x: u64, keys: &[u64; 2]) -> (r: u64)
        requires
            ops_in_range(self@),
        ensures
            r == eval_ops(self@, keys@, x),
    {
        let mut y = x;
        let n = self.ops.len();
        for i in 0..n
            invariant
                n == self@.len(),
                ops_in_range(self@),
                y == eval_ops(self@.take(i as int), keys@, x),
        {
            let op = self.ops[i];
            assert(op_in_range(self@[i as int]));
            y = apply(op, y, keys);
            assert(self@.take(i + 1).drop_last() =~= self@.take(i as int));
        }
        assert(self@.take(n as int) =~= self@);
        y
    }

    /// Runs the inverse kernel on `y` with both keys zero.
    pub fn invert(&self, y: u64) -> (r: u64)
        ensures
            r == invert_ops(self@, zero_keys(), y),
    {
        let keys: [u64; 2] = [0, 0];
        assert(keys@ =~= zero_keys());
        self.invert_keyed(y, &keys)
    }

    /// Runs the inverse kernel on `y`: the inverse of each operation, last
    /// operation first, with `KeyXor(idx)` reading `keys[idx & 1]`.
    pub fn invert_keyed(&self, y: u64, keys: &[u64; 2]) -> (r: u64)
        ensures
            r == invert_ops(self@, keys@, y),
    {
        let mut x = y;
        let mut j = self.ops.len();
        assert(self@.take(j as int) =~= self@);
        while j > 0
            invariant
                j <= self@.len(),
                invert_ops(self@.take(j as int), keys@, x) == invert_ops(self@, keys@, y),
            decreases j,
        {
            let op = self.ops[j - 1];
            x = undo(op, x, keys);
            assert(self@.take(j as int).drop_last() =~= self@.take(j - 1));
            j = j - 1;
        }
        x
    }
}

// ---------------------------------------------------------------------------
// Laws
// ---------------------------------------------------------------------------

/// The inverse of a bijective micro-operation undoes it, on either side.
pub proof fn lemma_undo_op(op: MicroOp, keys: Seq<u64>, x: u64)
    requires
        op_invertible(op),
    ensures
        undo_op(op, keys, apply_op(op, keys, x)) == x,
        apply_op(op, keys, undo_op(op, keys, x)) == x,
{
    match op {
        MicroOp::MulOdd(c) => {
            let a = c | 1;
            lemma_bit_basics(c, 0);
            lemma_odd_inverse(a);
            lemma_mul_cancel(x, a, odd_inverse(a));
        },
        MicroOp::AddConst(c) => {},
        MicroOp::XorConst(c) => {
            lemma_bit_basics(x, c);
        },
        MicroOp::Ror(k) => {
            lemma_rot_inverse(x, k as u64);
        },
        MicroOp::XorShr(k) => {
            lemma_unxorshr(x, x, k as u64);
        },
        MicroOp::XorShl(k) => {
            lemma_unxorshl(x, x, k as u64);
        },
        MicroOp::KeyXor(idx) => {
            let c = key_of(keys, idx);
            lemma_bit_basics(x, c);
        },
    }
}

proof fn lemma_mul_cancel(x: u64, a: u64, v: u64)
    requires
        wrapping_mul(a, v) == 1,
    ensures
        wrapping_mul(wrapping_mul(x, a), v) == x,
        wrapping_mul(wrapping_mul(x, v), a) == x,
{
    let big: int = 0x1_0000_0000_0000_0000;
    let (xi, ai, vi) = (x as int, a as int, v as int);
    assert((ai * vi) % big == 1);
    lemma_mul_mod_noop_left(xi * ai, vi, big);
    lemma_mul_is_associative(xi, ai, vi);
    lemma_mul_mod_noop_right(xi, ai * vi, big);
    assert((xi * 1) % big == ((xi * ai) * vi) % big);
    lemma_mul_mod_noop_left(xi * vi, ai, big);
    lemma_mul_is_associative(xi, vi, ai);
    assert(vi * ai == ai * vi) by (nonlinear_arith);
    lemma_mul_mod_noop_right(xi, vi * ai, big);
    assert((xi * 1) % big == ((xi * vi) * ai) % big);
    lemma_small_mod(x as nat, big as nat);
}

/// Inversion undoes evaluation: for a kernel of bijective operations,
/// `invert_keyed(eval_keyed(x, keys), keys) == x` for every `x` and key pair.
pub proof fn lemma_invert_after_eval(ops: Seq<MicroOp>, keys: Seq<u64>, x: u64)
    requires
        ops_invertible(ops),
    ensures
        invert_ops(ops, keys, eval_ops(ops, keys, x)) == x,
    decreases ops.len(),
{
    if ops.len() > 0 {
        let init = ops.drop_last();
        assert(op_invertible(ops[ops.len() - 1]));
        lemma_undo_op(ops.last(), keys, eval_ops(init, keys, x));
        assert forall|i: int| 0 <= i < init.len() implies #[trigger] op_invertible(init[i]) by {
            assert(op_invertible(ops[i]));
        }
        lemma_invert_after_eval(init, keys, x);
    }
}

/// Evaluation undoes inversion: for a kernel of bijective operations,
/// `eval_keyed(invert_keyed(y, keys), keys) == y` for every `y` and key pair,
/// so every output has a preimage.
pub proof fn lemma_eval_after_invert(ops: Seq<MicroOp>, keys: Seq<u64>, y: u64)
    requires
        ops_invertible(ops),
    ensures
        eval_ops(ops, keys, invert_ops(ops, keys, y)) == y,
    decreases ops.len(),
{
    if ops.len() > 0 {
        let init = ops.drop_last();
        let z = undo_op(ops.last(), keys, y);
        assert(op_invertible(ops[ops.len() - 1]));
        assert forall|i: int| 0 <= i < init.len() implies #[trigger] op_invertible(init[i]) by {
            assert(op_invertible(ops[i]));
        }
        lemma_eval_after_invert(init, keys, z);
        lemma_undo_op(ops.last(), keys, y);
    }
}

/// A kernel of bijective operations can be evaluated: its shifts are below 64.
pub proof fn lemma_invertible_in_range(ops: Seq<MicroOp>)
    requires
        ops_invertible(ops),
    ensures
        ops_in_range(ops),
{
    assert forall|i: int| 0 <= i < ops.len() implies #[trigger] op_in_range(ops[i]) by {
        assert(op_invertible(ops[i]));
    }
}

/// A kernel of bijective operations maps distinct inputs to distinct outputs.
pub proof fn lemma_eval_injective(ops: Seq<MicroOp>, keys: Seq<u64>, x1: u64, x2: u64)
    requires
        ops_invertible(ops),
        eval_ops(ops, keys, x1) == eval_ops(ops, keys, x2),
    ensures
        x1 == x2,
{
    lemma_invert_after_eval(ops, keys, x1);
    lemma_invert_after_eval(ops, keys, x2);
}

} // verus!
