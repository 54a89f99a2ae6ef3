//! Machine code for a kernel: `extern "C" fn(x: u64, keys: *const u64) -> u64`
//! for x86-64 (System V or Win64 calling convention) or AArch64. Mapping the
//! bytes into executable memory is left to the caller.
use vstd::prelude::*;
use crate::ast::{KernelAST, MicroOp};
use crate::bits::lemma_u8_basics;
use vstd::arithmetic::power::{pow, lemma_pow_positive};
use vstd::arithmetic::div_mod::lemma_breakdown;

verus! {

/// The instruction set and calling convention to emit for.
#[derive(Clone, Copy, Debug, PartialEq, Eq, Structural)]
pub enum Target {
    /// x86-64, System V: `x` in `rdi`, `keys` in `rsi`.
    X86_64SysV,
    /// x86-64, Win64: `x` in `rcx`, `keys` in `rdx`.
    X86_64Win64,
    /// AArch64: `x` in `x0`, `keys` in `x1`.
    Aarch64,
}

/// The emitter of machine code.
pub struct JITEmitter;

/// The low `n` bytes of `v`, least significant first.
pub open spec fn le_bytes(v: nat, n: nat) -> Seq<u8>
    decreases n,
{
    if n == 0 {
        Seq::empty()
    } else {
        seq![(v % 256) as u8] + le_bytes(v / 256, (n - 1) as nat)
    }
}

/// The little-endian value of `bytes`.
pub open spec fn le_value(bytes: Seq<u8>) -> nat
    decreases bytes.len(),
{
    if bytes.len() == 0 {
        0
    } else {
        bytes[0] as nat + 256 * le_value(bytes.skip(1))
    }
}

pub proof fn lemma_le_value(v: nat, n: nat)
    ensures
        le_value(le_bytes(v, n)) == v % pow(256, n) as nat,
    decreases n,
{
    let b = le_bytes(v, n);
    reveal(pow);
    if n == 0 {
        assert(b.len() == 0);
        assert(pow(256, 0) == 1);
    } else {
        assert(b.skip(1) =~= le_bytes(v / 256, (n - 1) as nat));
        lemma_le_value(v / 256, (n - 1) as nat);
        lemma_pow_positive(256, (n - 1) as nat);
        let p = pow(256, (n - 1) as nat);
        assert(pow(256, n) == 256 * p);
        // v % (256 p) == v % 256 + 256 * ((v / 256) % p)
        lemma_breakdown(v as int, 256, p);
    }
}

pub proof fn lemma_le_bytes_len(v: nat, n: nat)
    ensures
        le_bytes(v, n).len() == n,
    decreases n,
{
    if n > 0 {
        lemma_le_bytes_len(v / 256, (n - 1) as nat);
    }
}

/// x86-64 code for one operation, with `x` in `rax`, `keys` in `r10`, `rdx` as scratch.
pub open spec fn x86_op_code(op: MicroOp) -> Seq<u8> {
    match op {
        // mov rdx, imm64; imul rax, rdx
        MicroOp::MulOdd(c) => seq![0x48u8, 0xBA] + le_bytes((c | 1) as nat, 8) + seq![0x48u8, 0x0F, 0xAF, 0xC2],
        // mov rdx, imm64; add rax, rdx
        MicroOp::AddConst(c) => seq![0x48u8, 0xBA] + le_bytes(c as nat, 8) + seq![0x48u8, 0x01, 0xD0],
        // mov rdx, imm64; xor rax, rdx
        MicroOp::XorConst(c) => seq![0x48u8, 0xBA] + le_bytes(c as nat, 8) + seq![0x48u8, 0x31, 0xD0],
        // ror rax, k
        MicroOp::Ror(k) => seq![0x48u8, 0xC1, 0xC8, k],
        // mov rdx, rax; shr rdx, k; xor rax, rdx
        MicroOp::XorShr(k) => seq![0x48u8, 0x89, 0xC2, 0x48, 0xC1, 0xEA, k, 0x48, 0x31, 0xD0],
        // mov rdx, rax; shl rdx, k; xor rax, rdx
        MicroOp::XorShl(k) => seq![0x48u8, 0x89, 0xC2, 0x48, 0xC1, 0xE2, k, 0x48, 0x31, 0xD0],
        // xor rax, [r10 + 8 * (idx & 1)]
        MicroOp::KeyXor(idx) => seq![0x49u8, 0x33, 0x42, ((idx & 1) * 8) as u8],
    }
}

/// The little-endian bytes of one AArch64 instruction word.
pub open spec fn a64_word(w: u32) -> Seq<u8> {
    le_bytes(w as nat, 4)
}

/// `movz`/`movk` sequence that loads `val` into register `reg`.
pub open spec fn a64_mov_u64(reg: u32, val: u64) -> Seq<u8> {
    a64_word(0xD2800000u32 | (((val & 0xFFFF) as u32) << 5u32) | reg)
        + a64_word(0xF2A00000u32 | ((((val >> 16u64) & 0xFFFF) as u32) << 5u32) | reg)
        + a64_word(0xF2C00000u32 | ((((val >> 32u64) & 0xFFFF) as u32) << 5u32) | reg)
        + a64_word(0xF2E00000u32 | ((((val >> 48u64) & 0xFFFF) as u32) << 5u32) | reg)
}

/// `eor x0, x0, x2`
pub open spec fn a64_eor() -> Seq<u8> {
    a64_word(0xCA020000u32)
}

/// AArch64 code for one operation, with `x` in `x0`, `keys` in `x1`, `x2` as scratch.
pub open spec fn a64_op_code(op: MicroOp) -> Seq<u8> {
    match op {
        // mov x2, imm64; mul x0, x0, x2
        MicroOp::MulOdd(c) => a64_mov_u64(2, c | 1) + a64_word(0x9B027C00u32),
        // mov x2, imm64; add x0, x0, x2
        MicroOp::AddConst(c) => a64_mov_u64(2, c) + a64_word(0x8B020000u32),
        // mov x2, imm64; eor x0, x0, x2
        MicroOp::XorConst(c) => a64_mov_u64(2, c) + a64_eor(),
        // ror x0, x0, k
        MicroOp::Ror(k) => a64_word(0x93C00000u32 | ((k as u32) << 10u32)),
        // lsr x2, x0, k; eor x0, x0, x2
        MicroOp::XorShr(k) => a64_word(0xD3400000u32 | ((k as u32) << 16u32) | (63u32 << 10u32) | 2u32)
            + a64_eor(),
        // lsl x2, x0, k; eor x0, x0, x2
        MicroOp::XorShl(k) => a64_word(
            0xD3400000u32 | ((((64 - k) as u32) & 63u32) << 16u32) | (((63 - k) as u32) << 10u32) | 2u32,
        ) + a64_eor(),
        // ldr x2, [x1, 8 * (idx & 1)]; eor x0, x0, x2
        MicroOp::KeyXor(idx) => a64_word(0xF9400000u32 | (((((idx & 1) as u32) * 8 / 8) as u32) << 10u32) | (1u32 << 5u32) | 2u32)
            + a64_eor(),
    }
}

pub open spec fn op_code(op: MicroOp, target: Target) -> Seq<u8> {
    if target == Target::Aarch64 {
        a64_op_code(op)
    } else {
        x86_op_code(op)
    }
}

pub open spec fn ops_code(ops: Seq<MicroOp>, target: Target) -> Seq<u8>
    decreases ops.len(),
{
    if ops.len() == 0 {
        Seq::empty()
    } else {
        ops_code(ops.drop_last(), target) + op_code(ops.last(), target)
    }
}

/// Moves the arguments into `rax` and `r10` (nothing on AArch64).
pub open spec fn prologue(target: Target) -> Seq<u8> {
    match target {
        // mov rax, rdi; mov r10, rsi
        Target::X86_64SysV => seq![0x48u8, 0x89, 0xF8, 0x49, 0x89, 0xF2],
        // mov rax, rcx; mov r10, rdx
        Target::X86_64Win64 => seq![0x48u8, 0x89, 0xC8, 0x49, 0x89, 0xD2],
        Target::Aarch64 => Seq::empty(),
    }
}

/// `ret`
pub open spec fn epilogue(target: Target) -> Seq<u8> {
    match target {
        Target::Aarch64 => a64_word(0xD65F03C0u32),
        _ => seq![0xC3u8],
    }
}

/// The whole function for `ops`.
pub open spec fn jit_code(ops: Seq<MicroOp>, target: Target) -> Seq<u8> {
    prologue(target) + ops_code(ops, target) + epilogue(target)
}

/// The number of bytes of code for `op` on `target`: it depends on the
/// operation's family alone, not on its constant or shift amount.
pub open spec fn op_code_len(op: MicroOp, target: Target) -> nat {
    if target == Target::Aarch64 {
        match op {
            MicroOp::MulOdd(_) | MicroOp::AddConst(_) | MicroOp::XorConst(_) => 20,
            MicroOp::Ror(_) => 4,
            _ => 8,
        }
    } else {
        match op {
            MicroOp::MulOdd(_) => 14,
            MicroOp::AddConst(_) | MicroOp::XorConst(_) => 13,
            MicroOp::XorShr(_) | MicroOp::XorShl(_) => 10,
            _ => 4,
        }
    }
}

/// The sum of `op_code_len` over `ops`.
pub open spec fn ops_code_len(ops: Seq<MicroOp>, target: Target) -> nat
    decreases ops.len(),
{
    if ops.len() == 0 {
        0
    } else {
        ops_code_len(ops.drop_last(), target) + op_code_len(ops.last(), target)
    }
}

proof fn lemma_op_code_len(op: MicroOp, target: Target)
    ensures
        op_code(op, target).len() == op_code_len(op, target),
{
    match op {
        MicroOp::MulOdd(c) => lemma_le_bytes_len((c | 1) as nat, 8),
        MicroOp::AddConst(c) => lemma_le_bytes_len(c as nat, 8),
        MicroOp::XorConst(c) => lemma_le_bytes_len(c as nat, 8),
        _ => {},
    }
    assert forall|w: u32| #[trigger] a64_word(w).len() == 4 by {
        lemma_le_bytes_len(w as nat, 4);
    }
}

/// The length of the emitted function: on x86-64, 7 bytes of argument moves
/// and `ret`; on AArch64, 4 bytes of `ret`; plus, for each operation, a
/// length fixed by its family. The function ends in its `ret`
/// (`C3` on x86-64, `D65F03C0` on AArch64).
pub proof fn lemma_jit_code_len(ops: Seq<MicroOp>, target: Target)
    ensures
        jit_code(ops, target).len() == (if target == Target::Aarch64 { 4nat } else { 7nat }) + ops_code_len(
            ops,
            target,
        ),
        target != Target::Aarch64 ==> jit_code(ops, target).last() == 0xC3u8,
        target == Target::Aarch64 ==> jit_code(ops, target).subrange(
            jit_code(ops, target).len() - 4,
            jit_code(ops, target).len() as int,
        ) == a64_word(0xD65F03C0u32),
    decreases ops.len(),
{
    lemma_le_bytes_len(0xD65F03C0u32 as nat, 4);
    if ops.len() > 0 {
        lemma_jit_code_len(ops.drop_last(), target);
        lemma_op_code_len(ops.last(), target);
    }
    let code = jit_code(ops, target);
    assert(code.subrange(code.len() - epilogue(target).len(), code.len() as int) =~= epilogue(target));
}

/// The operations that the emitter for `target` can encode: on AArch64 the
/// left-shift amount must be at most 63.
pub open spec fn encodable(ops: Seq<MicroOp>, target: Target) -> bool {
    target == Target::Aarch64 ==> forall|i: int|
        0 <= i < ops.len() ==> (#[trigger] ops[i] matches MicroOp::XorShl(k) ==> k <= 63)
}

fn push_bytes(code: &mut Vec<u8>, bytes: &[u8])
    ensures
        final(code)@ == old(code)@ + bytes@,
{
    let n = bytes.len();
    for i in 0..n
        invariant
            n == bytes@.len(),
            code@ == old(code)@ + bytes@.take(i as int),
    {
        code.push(bytes[i]);
        assert(bytes@.take(i + 1) =~= bytes@.take(i as int).push(bytes@[i as int]));
    }
    assert(bytes@.take(n as int) =~= bytes@);
}

fn push_le(code: &mut Vec<u8>, v: u64, n: u64)
    ensures
        final(code)@ == old(code)@ + le_bytes(v as nat, n as nat),
    decreases n,
{
    if n > 0 {
        code.push((v % 256) as u8);
        push_le(code, v / 256, n - 1);
        assert(old(code)@ + le_bytes(v as nat, n as nat) =~= old(code)@ + seq![(v % 256) as u8]
            + le_bytes((v / 256) as nat, (n - 1) as nat));
    }
}

fn push_a64_word(code: &mut Vec<u8>, w: u32)
    ensures
        final(code)@ == old(code)@ + a64_word(w),
{
    push_le(code, w as u64, 4);
}

fn push_a64_mov_u64(code: &mut Vec<u8>, reg: u32, val: u64)
    requires
        reg < 32,
    ensures
        final(code)@ == old(code)@ + a64_mov_u64(reg, val),
{
    push_a64_word(code, 0xD2800000u32 | (((val & 0xFFFF) as u32) << 5u32) | reg);
    push_a64_word(code, 0xF2A00000u32 | ((((val >> 16u64) & 0xFFFF) as u32) << 5u32) | reg);
    push_a64_word(code, 0xF2C00000u32 | ((((val >> 32u64) & 0xFFFF) as u32) << 5u32) | reg);
    push_a64_word(code, 0xF2E00000u32 | ((((val >> 48u64) & 0xFFFF) as u32) << 5u32) | reg);
    assert(final(code)@ =~= old(code)@ + a64_mov_u64(reg, val));
}

fn push_x86_op(code: &mut Vec<u8>, op: MicroOp)
    ensures
        final(code)@ == old(code)@ + x86_op_code(op),
{
    let ghost start = code@;
    match op {
        MicroOp::MulOdd(c) => {
            push_bytes(code, &[0x48u8, 0xBA]);
            push_le(code, c | 1, 8);
            push_bytes(code, &[0x48u8, 0x0F, 0xAF, 0xC2]);
        },
        MicroOp::AddConst(c) => {
            push_bytes(code, &[0x48u8, 0xBA]);
            push_le(code, c, 8);
            push_bytes(code, &[0x48u8, 0x01, 0xD0]);
        },
        MicroOp::XorConst(c) => {
            push_bytes(code, &[0x48u8, 0xBA]);
            push_le(code, c, 8);
            push_bytes(code, &[0x48u8, 0x31, 0xD0]);
        },
        MicroOp::Ror(k) => {
            push_bytes(code, &[0x48u8, 0xC1, 0xC8, k]);
        },
        MicroOp::XorShr(k) => {
            push_bytes(code, &[0x48u8, 0x89, 0xC2]);
            push_bytes(code, &[0x48u8, 0xC1, 0xEA, k]);
            push_bytes(code, &[0x48u8, 0x31, 0xD0]);
        },
        MicroOp::XorShl(k) => {
            push_bytes(code, &[0x48u8, 0x89, 0xC2]);
            push_bytes(code, &[0x48u8, 0xC1, 0xE2, k]);
            push_bytes(code, &[0x48u8, 0x31, 0xD0]);
        },
        MicroOp::KeyXor(idx) => {
            proof {
                lemma_u8_basics(idx);
            }
            let offset = ((idx & 1) * 8) as u8;
            push_bytes(code, &[0x49u8, 0x33, 0x42, offset]);
        },
    }
    assert(code@ =~= start + x86_op_code(op));
}

fn push_a64_op(code: &mut Vec<u8>, op: MicroOp)
    requires
        op matches MicroOp::XorShl(k) ==> k <= 63,
    ensures
        final(code)@ == old(code)@ + a64_op_code(op),
{
    let ghost start = code@;
    match op {
        MicroOp::MulOdd(c) => {
            push_a64_mov_u64(code, 2, c | 1);
            push_a64_word(code, 0x9B027C00u32);
        },
        MicroOp::AddConst(c) => {
            push_a64_mov_u64(code, 2, c);
            push_a64_word(code, 0x8B020000u32);
        },
        MicroOp::XorConst(c) => {
            push_a64_mov_u64(code, 2, c);
            push_a64_word(code, 0xCA020000u32);
        },
        MicroOp::Ror(k) => {
            push_a64_word(code, 0x93C00000u32 | ((k as u32) << 10u32));
        },
        MicroOp::XorShr(k) => {
            push_a64_word(code, 0xD3400000u32 | ((k as u32) << 16u32) | (63u32 << 10u32) | 2u32);
            push_a64_word(code, 0xCA020000u32);
        },
        MicroOp::XorShl(k) => {
            let immr = (64 - (k as u32)) & 63;
            let imms = 63 - (k as u32);
            push_a64_word(code, 0xD3400000u32 | (immr << 16u32) | (imms << 10u32) | 2u32);
            push_a64_word(code, 0xCA020000u32);
        },
        MicroOp::KeyXor(idx) => {
            let offset = ((idx & 1) as u32) * 8;
            push_a64_word(code, 0xF9400000u32 | ((offset / 8) << 10u32) | (1u32 << 5u32) | 2u32);
            push_a64_word(code, 0xCA020000u32);
        },
    }
    assert(code@ =~= start + a64_op_code(op));
}

impl JITEmitter {
    /// The machine code of `ast` for `target`.
    pub fn emit(ast: &KernelAST, target: Target) -> (code: Vec<u8>)
        requires
            encodable(ast@, target),
        ensures
            code@ == jit_code(ast@, target),
    {
        let mut code: Vec<u8> = Vec::with_capacity(512);
        match target {
            Target::X86_64SysV => push_bytes(&mut code, &[0x48u8, 0x89, 0xF8, 0x49, 0x89, 0xF2]),
            Target::X86_64Win64 => push_bytes(&mut code, &[0x48u8, 0x89, 0xC8, 0x49, 0x89, 0xD2]),
            Target::Aarch64 => {},
        }
        assert(code@ =~= prologue(target));
        let n = ast.ops.len();
        for i in 0..n
            invariant
                n == ast@.len(),
                encodable(ast@, target),
                code@ == prologue(target) + ops_code(ast@.take(i as int), target),
        {
            let op = ast.ops[i];
            let ghost before = code@;
            if target == Target::Aarch64 {
                assert(ast@[i as int] matches MicroOp::XorShl(k) ==> k <= 63);
                push_a64_op(&mut code, op);
            } else {
                push_x86_op(&mut code, op);
            }
            assert(ast@.take(i + 1).drop_last() =~= ast@.take(i as int));
            assert(code@ =~= prologue(target) + ops_code(ast@.take(i + 1), target));
        }
        assert(ast@.take(n as int) =~= ast@);
        if target == Target::Aarch64 {
            push_a64_word(&mut code, 0xD65F03C0u32);
        } else {
            code.push(0xC3);
            assert(code@ =~= prologue(target) + ops_code(ast@, target) + seq![0xC3u8]);
        }
        code
    }
}

} // verus!
