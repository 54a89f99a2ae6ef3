//! A model of the AArch64 instructions that the JIT emits, and the proof
//! that the emitted code computes what the kernel computes.
//!
//! The model covers the 64-bit forms below (Arm ARM, A64), on the registers
//! `x0`, `x1`, `x2` and a 64-bit-word memory: MOVZ and MOVK into `x2`,
//! `MADD x0, x0, x2, xzr` (mul), `ADD x0, x0, x2`, `EOR x0, x0, x2`,
//! `EXTR x0, x0, x0, #lsb` (ror), `UBFM x2, x0, #immr, #imms` (lsr, lsl),
//! `LDR x2, [x1, #8 * imm12]` and `RET`.
use vstd::prelude::*;
use vstd::wrapping::u64_specs::{wrapping_add, wrapping_mul};
use vstd::arithmetic::power::pow;
use crate::ast::{MicroOp, apply_op, eval_ops, op_in_range};
use crate::bits::{rotr, lemma_u8_basics};
use crate::jit::{Target, a64_word, a64_mov_u64, a64_eor, a64_op_code, ops_code, jit_code, le_value, lemma_le_value, lemma_le_bytes_len};

verus! {

/// The registers that the emitted code reads or writes.
pub struct A64State {
    pub x0: u64,
    pub x1: u64,
    pub x2: u64,
}

/// The instructions of the model.
pub enum A64Insn {
    /// `movz x2, #imm16, lsl #(16 * hw)`
    MovzX2(u64, u64),
    /// `movk x2, #imm16, lsl #(16 * hw)`
    MovkX2(u64, u64),
    MulX0X2,
    AddX0X2,
    EorX0X2,
    /// `extr x0, x0, x0, #lsb`
    ExtrX0(u32),
    /// `ubfm x2, x0, #immr, #imms`
    UbfmX2X0(u32, u32),
    /// `ldr x2, [x1, #8 * imm12]`
    LdrX2X1(u32),
    Ret,
}

/// The low `n` bits set (all 64 for `n >= 64`).
pub open spec fn low_mask(n: u64) -> u64 {
    if n >= 64 {
        0xFFFF_FFFF_FFFF_FFFFu64
    } else {
        ((1u64 << n) - 1) as u64
    }
}

/// The instruction word at the start of `code`.
pub open spec fn word_at(code: Seq<u8>) -> u32 {
    le_value(code.subrange(0, 4)) as u32
}

/// The instruction at the start of `code` (every instruction is four bytes).
pub open spec fn decode_a64(code: Seq<u8>) -> Option<A64Insn> {
    if code.len() < 4 {
        None
    } else {
        let w = word_at(code);
        if w & 0xFF80001Fu32 == 0xD2800002u32 {
            Some(A64Insn::MovzX2(((w >> 5u32) & 0xFFFFu32) as u64, ((w >> 21u32) & 3u32) as u64))
        } else if w & 0xFF80001Fu32 == 0xF2800002u32 {
            Some(A64Insn::MovkX2(((w >> 5u32) & 0xFFFFu32) as u64, ((w >> 21u32) & 3u32) as u64))
        } else if w == 0x9B027C00u32 {
            Some(A64Insn::MulX0X2)
        } else if w == 0x8B020000u32 {
            Some(A64Insn::AddX0X2)
        } else if w == 0xCA020000u32 {
            Some(A64Insn::EorX0X2)
        } else if w & 0xFFFF03FFu32 == 0x93C00000u32 {
            Some(A64Insn::ExtrX0((w >> 10u32) & 63u32))
        } else if w & 0xFFC003FFu32 == 0xD3400002u32 {
            Some(A64Insn::UbfmX2X0((w >> 16u32) & 63u32, (w >> 10u32) & 63u32))
        } else if w & 0xFFC003FFu32 == 0xF9400022u32 {
            Some(A64Insn::LdrX2X1((w >> 10u32) & 0xFFFu32))
        } else if w == 0xD65F03C0u32 {
            Some(A64Insn::Ret)
        } else {
            None
        }
    }
}

/// `UBFM` on 64-bit registers: extract bits `immr..=imms` to the bottom, or,
/// when `imms < immr`, move bits `0..=imms` up to bit `64 - immr`.
pub open spec fn ubfm(x: u64, immr: u64, imms: u64) -> u64 {
    if imms >= immr {
        (x >> immr) & low_mask((imms - immr + 1) as u64)
    } else {
        (x & low_mask((imms + 1) as u64)) << ((64 - immr) as u64)
    }
}

/// The effect of one instruction (other than `ret`) on the registers.
pub open spec fn exec_a64(insn: A64Insn, st: A64State, mem: spec_fn(u64) -> u64) -> A64State {
    match insn {
        A64Insn::MovzX2(imm, hw) => A64State { x2: imm << (16 * hw) as u64, ..st },
        A64Insn::MovkX2(imm, hw) => A64State {
            x2: (st.x2 & !(0xFFFFu64 << (16 * hw) as u64)) | (imm << (16 * hw) as u64),
            ..st
        },
        A64Insn::MulX0X2 => A64State { x0: wrapping_mul(st.x0, st.x2), ..st },
        A64Insn::AddX0X2 => A64State { x0: wrapping_add(st.x0, st.x2), ..st },
        A64Insn::EorX0X2 => A64State { x0: st.x0 ^ st.x2, ..st },
        A64Insn::ExtrX0(lsb) => A64State { x0: rotr(st.x0, lsb as u64), ..st },
        A64Insn::UbfmX2X0(immr, imms) => A64State { x2: ubfm(st.x0, immr as u64, imms as u64), ..st },
        A64Insn::LdrX2X1(imm12) => A64State { x2: mem(wrapping_add(st.x1, (8 * imm12) as u64)), ..st },
        A64Insn::Ret => st,
    }
}

/// Runs `code` from `st` until `ret`; the value returned in `x0`, or `None`
/// if the code leaves the modelled instructions.
pub open spec fn run_a64(code: Seq<u8>, st: A64State, mem: spec_fn(u64) -> u64) -> Option<u64>
    decreases code.len(),
{
    match decode_a64(code) {
        None => None,
        Some(insn) => {
            if insn is Ret {
                Some(st.x0)
            } else {
                run_a64(code.skip(4), exec_a64(insn, st, mem), mem)
            }
        },
    }
}

/// The four bytes of an instruction word read back as the word.
proof fn lemma_word(w: u32, rest: Seq<u8>)
    ensures
        a64_word(w).len() == 4,
        (a64_word(w) + rest).len() >= 4,
        word_at(a64_word(w) + rest) == w,
        (a64_word(w) + rest).skip(4) == rest,
{
    lemma_le_bytes_len(w as nat, 4);
    lemma_le_value(w as nat, 4);
    reveal_with_fuel(pow, 5);
    assert(pow(256, 4) == 0x1_0000_0000);
    vstd::arithmetic::div_mod::lemma_small_mod(w as nat, 0x1_0000_0000);
    assert((a64_word(w) + rest).subrange(0, 4) =~= a64_word(w));
    assert((a64_word(w) + rest).skip(4) =~= rest);
}

proof fn lemma_run_word(w: u32, rest: Seq<u8>, st: A64State, mem: spec_fn(u64) -> u64, insn: A64Insn)
    requires
        decode_a64(a64_word(w) + rest) == Some(insn),
        !(insn is Ret),
    ensures
        run_a64(a64_word(w) + rest, st, mem) == run_a64(rest, exec_a64(insn, st, mem), mem),
{
    lemma_word(w, rest);
}

proof fn lemma_mov_words(c0: u32, c1: u32, c2: u32, c3: u32)
    by (bit_vector)
    requires
        c0 < 0x10000,
        c1 < 0x10000,
        c2 < 0x10000,
        c3 < 0x10000,
    ensures
        (0xD2800000u32 | (c0 << 5u32) | 2u32) & 0xFF80001Fu32 == 0xD2800002u32,
        ((0xD2800000u32 | (c0 << 5u32) | 2u32) >> 5u32) & 0xFFFFu32 == c0,
        ((0xD2800000u32 | (c0 << 5u32) | 2u32) >> 21u32) & 3u32 == 0,
        (0xF2A00000u32 | (c1 << 5u32) | 2u32) & 0xFF80001Fu32 == 0xF2800002u32,
        (0xF2A00000u32 | (c1 << 5u32) | 2u32) & 0xFF80001Fu32 != 0xD2800002u32,
        ((0xF2A00000u32 | (c1 << 5u32) | 2u32) >> 5u32) & 0xFFFFu32 == c1,
        ((0xF2A00000u32 | (c1 << 5u32) | 2u32) >> 21u32) & 3u32 == 1,
        (0xF2C00000u32 | (c2 << 5u32) | 2u32) & 0xFF80001Fu32 == 0xF2800002u32,
        (0xF2C00000u32 | (c2 << 5u32) | 2u32) & 0xFF80001Fu32 != 0xD2800002u32,
        ((0xF2C00000u32 | (c2 << 5u32) | 2u32) >> 5u32) & 0xFFFFu32 == c2,
        ((0xF2C00000u32 | (c2 << 5u32) | 2u32) >> 21u32) & 3u32 == 2,
        (0xF2E00000u32 | (c3 << 5u32) | 2u32) & 0xFF80001Fu32 == 0xF2800002u32,
        (0xF2E00000u32 | (c3 << 5u32) | 2u32) & 0xFF80001Fu32 != 0xD2800002u32,
        ((0xF2E00000u32 | (c3 << 5u32) | 2u32) >> 5u32) & 0xFFFFu32 == c3,
        ((0xF2E00000u32 | (c3 << 5u32) | 2u32) >> 21u32) & 3u32 == 3,
{
}

proof fn lemma_mov_value(v: u64)
    by (bit_vector)
    ensures
        (v >> 0u64) & 0xFFFF < 0x10000,
        (v >> 16u64) & 0xFFFF < 0x10000,
        (v >> 32u64) & 0xFFFF < 0x10000,
        (v >> 48u64) & 0xFFFF < 0x10000,
        v & 0xFFFF == (v >> 0u64) & 0xFFFF,
        ((((((((v >> 0u64) & 0xFFFF) << 0u64) & !(0xFFFFu64 << 16u64)) | (((v >> 16u64) & 0xFFFF) << 16u64))
            & !(0xFFFFu64 << 32u64)) | (((v >> 32u64) & 0xFFFF) << 32u64)) & !(0xFFFFu64 << 48u64)) | (((v
            >> 48u64) & 0xFFFF) << 48u64) == v,
{
}

proof fn lemma_const_words()
    by (bit_vector)
    ensures
        0x9B027C00u32 & 0xFF80001Fu32 != 0xD2800002u32,
        0x9B027C00u32 & 0xFF80001Fu32 != 0xF2800002u32,
        0x8B020000u32 & 0xFF80001Fu32 != 0xD2800002u32,
        0x8B020000u32 & 0xFF80001Fu32 != 0xF2800002u32,
        0xCA020000u32 & 0xFF80001Fu32 != 0xD2800002u32,
        0xCA020000u32 & 0xFF80001Fu32 != 0xF2800002u32,
        0xD65F03C0u32 & 0xFF80001Fu32 != 0xD2800002u32,
        0xD65F03C0u32 & 0xFF80001Fu32 != 0xF2800002u32,
        0xD65F03C0u32 & 0xFFFF03FFu32 != 0x93C00000u32,
        0xD65F03C0u32 & 0xFFC003FFu32 != 0xD3400002u32,
        0xD65F03C0u32 & 0xFFC003FFu32 != 0xF9400022u32,
{
}

proof fn lemma_shift_words(k: u32, j: u32, l: u32, m: u32)
    by (bit_vector)
    requires
        k < 64,
        j < 2,
        l == 64 - k,
        m == 63 - k,
    ensures
        (0x93C00000u32 | (k << 10u32)) & 0xFF80001Fu32 != 0xD2800002u32,
        (0x93C00000u32 | (k << 10u32)) & 0xFF80001Fu32 != 0xF2800002u32,
        (0x93C00000u32 | (k << 10u32)) != 0x9B027C00u32,
        (0x93C00000u32 | (k << 10u32)) != 0x8B020000u32,
        (0x93C00000u32 | (k << 10u32)) != 0xCA020000u32,
        (0x93C00000u32 | (k << 10u32)) & 0xFFFF03FFu32 == 0x93C00000u32,
        ((0x93C00000u32 | (k << 10u32)) >> 10u32) & 63u32 == k,
        (0xD3400000u32 | (k << 16u32) | (63u32 << 10u32) | 2u32) & 0xFF80001Fu32 != 0xD2800002u32,
        (0xD3400000u32 | (k << 16u32) | (63u32 << 10u32) | 2u32) & 0xFF80001Fu32 != 0xF2800002u32,
        (0xD3400000u32 | (k << 16u32) | (63u32 << 10u32) | 2u32) != 0x9B027C00u32,
        (0xD3400000u32 | (k << 16u32) | (63u32 << 10u32) | 2u32) != 0x8B020000u32,
        (0xD3400000u32 | (k << 16u32) | (63u32 << 10u32) | 2u32) != 0xCA020000u32,
        (0xD3400000u32 | (k << 16u32) | (63u32 << 10u32) | 2u32) & 0xFFFF03FFu32 != 0x93C00000u32,
        (0xD3400000u32 | (k << 16u32) | (63u32 << 10u32) | 2u32) & 0xFFC003FFu32 == 0xD3400002u32,
        ((0xD3400000u32 | (k << 16u32) | (63u32 << 10u32) | 2u32) >> 16u32) & 63u32 == k,
        ((0xD3400000u32 | (k << 16u32) | (63u32 << 10u32) | 2u32) >> 10u32) & 63u32 == 63,
        (0xD3400000u32 | ((l & 63u32) << 16u32) | (m << 10u32) | 2u32) & 0xFF80001Fu32 != 0xD2800002u32,
        (0xD3400000u32 | ((l & 63u32) << 16u32) | (m << 10u32) | 2u32) & 0xFF80001Fu32 != 0xF2800002u32,
        (0xD3400000u32 | ((l & 63u32) << 16u32) | (m << 10u32) | 2u32) != 0x9B027C00u32,
        (0xD3400000u32 | ((l & 63u32) << 16u32) | (m << 10u32) | 2u32) != 0x8B020000u32,
        (0xD3400000u32 | ((l & 63u32) << 16u32) | (m << 10u32) | 2u32) != 0xCA020000u32,
        (0xD3400000u32 | ((l & 63u32) << 16u32) | (m << 10u32) | 2u32) & 0xFFFF03FFu32 != 0x93C00000u32,
        (0xD3400000u32 | ((l & 63u32) << 16u32) | (m << 10u32) | 2u32) & 0xFFC003FFu32 == 0xD3400002u32,
        ((0xD3400000u32 | ((l & 63u32) << 16u32) | (m << 10u32) | 2u32) >> 16u32) & 63u32 == l & 63u32,
        ((0xD3400000u32 | ((l & 63u32) << 16u32) | (m << 10u32) | 2u32) >> 10u32) & 63u32 == m,
        (0xF9400000u32 | (j << 10u32) | (1u32 << 5u32) | 2u32) & 0xFF80001Fu32 != 0xD2800002u32,
        (0xF9400000u32 | (j << 10u32) | (1u32 << 5u32) | 2u32) & 0xFF80001Fu32 != 0xF2800002u32,
        (0xF9400000u32 | (j << 10u32) | (1u32 << 5u32) | 2u32) != 0x9B027C00u32,
        (0xF9400000u32 | (j << 10u32) | (1u32 << 5u32) | 2u32) != 0x8B020000u32,
        (0xF9400000u32 | (j << 10u32) | (1u32 << 5u32) | 2u32) != 0xCA020000u32,
        (0xF9400000u32 | (j << 10u32) | (1u32 << 5u32) | 2u32) & 0xFFFF03FFu32 != 0x93C00000u32,
        (0xF9400000u32 | (j << 10u32) | (1u32 << 5u32) | 2u32) & 0xFFC003FFu32 != 0xD3400002u32,
        (0xF9400000u32 | (j << 10u32) | (1u32 << 5u32) | 2u32) & 0xFFC003FFu32 == 0xF9400022u32,
        ((0xF9400000u32 | (j << 10u32) | (1u32 << 5u32) | 2u32) >> 10u32) & 0xFFFu32 == j,
{
}

proof fn lemma_ubfm_shifts(x: u64, k: u64, t: u64)
    by (bit_vector)
    requires
        1 <= k < 64,
        t + k == 64,
    ensures
        (x >> k) & (((1u64 << t) - 1) as u64) == x >> k,
        (x & (((1u64 << t) - 1) as u64)) << k == x << k,
        (x >> 0u64) & 0xFFFF_FFFF_FFFF_FFFFu64 == x,
        x >> 0u64 == x,
        x << 0u64 == x,
{
}

/// The key words that the emitted code loads through `x1`.
pub open spec fn keys_at_x1(x1: u64, keys: Seq<u64>, mem: spec_fn(u64) -> u64) -> bool {
    &&& mem(wrapping_add(x1, 0)) == keys[0]
    &&& mem(wrapping_add(x1, 8)) == keys[1]
}

/// The operations whose AArch64 encoding the model reads back: shift and
/// rotate amounts below 64.
pub open spec fn a64_in_range(op: MicroOp) -> bool {
    &&& op_in_range(op)
    &&& (op matches MicroOp::Ror(k) ==> k < 64)
}

/// `movz`/`movk` load `v` into `x2`.
proof fn lemma_run_mov(v: u64, rest: Seq<u8>, st: A64State, mem: spec_fn(u64) -> u64) -> (st2: A64State)
    ensures
        st2.x2 == v,
        st2.x0 == st.x0,
        st2.x1 == st.x1,
        run_a64(a64_mov_u64(2, v) + rest, st, mem) == run_a64(rest, st2, mem),
{
    lemma_mov_value(v);
    let c0 = ((v & 0xFFFF) as u32);
    let c1 = (((v >> 16u64) & 0xFFFF) as u32);
    let c2 = (((v >> 32u64) & 0xFFFF) as u32);
    let c3 = (((v >> 48u64) & 0xFFFF) as u32);
    let w0 = 0xD2800000u32 | (c0 << 5u32) | 2u32;
    let w1 = 0xF2A00000u32 | (c1 << 5u32) | 2u32;
    let w2 = 0xF2C00000u32 | (c2 << 5u32) | 2u32;
    let w3 = 0xF2E00000u32 | (c3 << 5u32) | 2u32;
    lemma_mov_words(c0, c1, c2, c3);
    let t3 = a64_word(w3) + rest;
    let t2 = a64_word(w2) + t3;
    let t1 = a64_word(w1) + t2;
    assert(a64_mov_u64(2, v) + rest =~= a64_word(w0) + t1);
    lemma_word(w0, t1);
    lemma_word(w1, t2);
    lemma_word(w2, t3);
    lemma_word(w3, rest);
    let i0 = A64Insn::MovzX2(c0 as u64, 0);
    let i1 = A64Insn::MovkX2(c1 as u64, 1);
    let i2 = A64Insn::MovkX2(c2 as u64, 2);
    let i3 = A64Insn::MovkX2(c3 as u64, 3);
    lemma_run_word(w0, t1, st, mem, i0);
    let s1 = exec_a64(i0, st, mem);
    lemma_run_word(w1, t2, s1, mem, i1);
    let s2 = exec_a64(i1, s1, mem);
    lemma_run_word(w2, t3, s2, mem, i2);
    let s3 = exec_a64(i2, s2, mem);
    lemma_run_word(w3, rest, s3, mem, i3);
    exec_a64(i3, s3, mem)
}

proof fn lemma_run_eor(rest: Seq<u8>, st: A64State, mem: spec_fn(u64) -> u64)
    ensures
        run_a64(a64_eor() + rest, st, mem) == run_a64(rest, exec_a64(A64Insn::EorX0X2, st, mem), mem),
{
    lemma_word(0xCA020000u32, rest);
    lemma_const_words();
    lemma_run_word(0xCA020000u32, rest, st, mem, A64Insn::EorX0X2);
}

proof fn lemma_a64_run_mul_odd(c: u64, rest: Seq<u8>, st: A64State, keys: Seq<u64>, mem: spec_fn(u64) -> u64)
    -> (st2: A64State)
    requires
        a64_in_range(MicroOp::MulOdd(c)),
        keys_at_x1(st.x1, keys, mem),
    ensures
        st2.x0 == apply_op(MicroOp::MulOdd(c), keys, st.x0),
        st2.x1 == st.x1,
        run_a64(a64_op_code(MicroOp::MulOdd(c)) + rest, st, mem) == run_a64(rest, st2, mem),
{
    let op = MicroOp::MulOdd(c);
    lemma_const_words();
        let tail = a64_word(0x9B027C00u32) + rest;
        assert(a64_op_code(op) + rest =~= a64_mov_u64(2, c | 1) + tail);
        let s1 = lemma_run_mov(c | 1, tail, st, mem);
        lemma_word(0x9B027C00u32, rest);
        lemma_run_word(0x9B027C00u32, rest, s1, mem, A64Insn::MulX0X2);
        exec_a64(A64Insn::MulX0X2, s1, mem)
}

proof fn lemma_a64_run_add_const(c: u64, rest: Seq<u8>, st: A64State, keys: Seq<u64>, mem: spec_fn(u64) -> u64)
    -> (st2: A64State)
    requires
        a64_in_range(MicroOp::AddConst(c)),
        keys_at_x1(st.x1, keys, mem),
    ensures
        st2.x0 == apply_op(MicroOp::AddConst(c), keys, st.x0),
        st2.x1 == st.x1,
        run_a64(a64_op_code(MicroOp::AddConst(c)) + rest, st, mem) == run_a64(rest, st2, mem),
{
    let op = MicroOp::AddConst(c);
    lemma_const_words();
        let tail = a64_word(0x8B020000u32) + rest;
        assert(a64_op_code(op) + rest =~= a64_mov_u64(2, c) + tail);
        let s1 = lemma_run_mov(c, tail, st, mem);
        lemma_word(0x8B020000u32, rest);
        lemma_run_word(0x8B020000u32, rest, s1, mem, A64Insn::AddX0X2);
        exec_a64(A64Insn::AddX0X2, s1, mem)
}

proof fn lemma_a64_run_xor_const(c: u64, rest: Seq<u8>, st: A64State, keys: Seq<u64>, mem: spec_fn(u64) -> u64)
    -> (st2: A64State)
    requires
        a64_in_range(MicroOp::XorConst(c)),
        keys_at_x1(st.x1, keys, mem),
    ensures
        st2.x0 == apply_op(MicroOp::XorConst(c), keys, st.x0),
        st2.x1 == st.x1,
        run_a64(a64_op_code(MicroOp::XorConst(c)) + rest, st, mem) == run_a64(rest, st2, mem),
{
    let op = MicroOp::XorConst(c);
    lemma_const_words();
        let tail = a64_eor() + rest;
        assert(a64_op_code(op) + rest =~= a64_mov_u64(2, c) + tail);
        let s1 = lemma_run_mov(c, tail, st, mem);
        lemma_run_eor(rest, s1, mem);
        exec_a64(A64Insn::EorX0X2, s1, mem)
}

proof fn lemma_a64_run_ror(k: u8, rest: Seq<u8>, st: A64State, keys: Seq<u64>, mem: spec_fn(u64) -> u64)
    -> (st2: A64State)
    requires
        a64_in_range(MicroOp::Ror(k)),
        keys_at_x1(st.x1, keys, mem),
    ensures
        st2.x0 == apply_op(MicroOp::Ror(k), keys, st.x0),
        st2.x1 == st.x1,
        run_a64(a64_op_code(MicroOp::Ror(k)) + rest, st, mem) == run_a64(rest, st2, mem),
{
    let op = MicroOp::Ror(k);
    lemma_const_words();
        let kk = k as u32;
        let w = 0x93C00000u32 | (kk << 10u32);
        lemma_shift_words(kk, 0, (64 - kk) as u32, (63 - kk) as u32);
        lemma_word(w, rest);
        assert(a64_op_code(op) + rest =~= a64_word(w) + rest);
        lemma_run_word(w, rest, st, mem, A64Insn::ExtrX0(kk));
        exec_a64(A64Insn::ExtrX0(kk), st, mem)
}

proof fn lemma_a64_run_xor_shr(k: u8, rest: Seq<u8>, st: A64State, keys: Seq<u64>, mem: spec_fn(u64) -> u64)
    -> (st2: A64State)
    requires
        a64_in_range(MicroOp::XorShr(k)),
        keys_at_x1(st.x1, keys, mem),
    ensures
        st2.x0 == apply_op(MicroOp::XorShr(k), keys, st.x0),
        st2.x1 == st.x1,
        run_a64(a64_op_code(MicroOp::XorShr(k)) + rest, st, mem) == run_a64(rest, st2, mem),
{
    let op = MicroOp::XorShr(k);
    lemma_const_words();
        let kk = k as u32;
        let w = 0xD3400000u32 | (kk << 16u32) | (63u32 << 10u32) | 2u32;
        lemma_shift_words(kk, 0, (64 - kk) as u32, (63 - kk) as u32);
        lemma_word(w, a64_eor() + rest);
        assert(a64_op_code(op) + rest =~= a64_word(w) + (a64_eor() + rest));
        let i = A64Insn::UbfmX2X0(kk, 63);
        lemma_run_word(w, a64_eor() + rest, st, mem, i);
        let s1 = exec_a64(i, st, mem);
        if kk == 0 {
            lemma_ubfm_shifts(st.x0, 1, 63);
        } else {
            lemma_ubfm_shifts(st.x0, kk as u64, (64 - kk) as u64);
        }
        assert(s1.x2 == st.x0 >> (k as u64));
        lemma_run_eor(rest, s1, mem);
        exec_a64(A64Insn::EorX0X2, s1, mem)
}

proof fn lemma_a64_run_xor_shl(k: u8, rest: Seq<u8>, st: A64State, keys: Seq<u64>, mem: spec_fn(u64) -> u64)
    -> (st2: A64State)
    requires
        a64_in_range(MicroOp::XorShl(k)),
        keys_at_x1(st.x1, keys, mem),
    ensures
        st2.x0 == apply_op(MicroOp::XorShl(k), keys, st.x0),
        st2.x1 == st.x1,
        run_a64(a64_op_code(MicroOp::XorShl(k)) + rest, st, mem) == run_a64(rest, st2, mem),
{
    let op = MicroOp::XorShl(k);
    lemma_const_words();
        let kk = k as u32;
        let l = (64 - kk) as u32;
        let m = (63 - kk) as u32;
        let w = 0xD3400000u32 | ((l & 63u32) << 16u32) | (m << 10u32) | 2u32;
        lemma_shift_words(kk, 0, l, m);
        lemma_word(w, a64_eor() + rest);
        assert(a64_op_code(op) + rest =~= a64_word(w) + (a64_eor() + rest));
        let i = A64Insn::UbfmX2X0(l & 63u32, m);
        lemma_run_word(w, a64_eor() + rest, st, mem, i);
        let s1 = exec_a64(i, st, mem);
        if kk == 0 {
            assert(l & 63u32 == 0) by (bit_vector)
                requires
                    l == 64u32,
            ;
            lemma_ubfm_shifts(st.x0, 1, 63);
        } else {
            assert(l & 63u32 == l) by (bit_vector)
                requires
                    l < 64u32,
            ;
            lemma_ubfm_shifts(st.x0, kk as u64, l as u64);
        }
        assert(s1.x2 == st.x0 << (k as u64));
        lemma_run_eor(rest, s1, mem);
        exec_a64(A64Insn::EorX0X2, s1, mem)
}

proof fn lemma_a64_run_key_xor(idx: u8, rest: Seq<u8>, st: A64State, keys: Seq<u64>, mem: spec_fn(u64) -> u64)
    -> (st2: A64State)
    requires
        a64_in_range(MicroOp::KeyXor(idx)),
        keys_at_x1(st.x1, keys, mem),
    ensures
        st2.x0 == apply_op(MicroOp::KeyXor(idx), keys, st.x0),
        st2.x1 == st.x1,
        run_a64(a64_op_code(MicroOp::KeyXor(idx)) + rest, st, mem) == run_a64(rest, st2, mem),
{
    let op = MicroOp::KeyXor(idx);
    lemma_const_words();
        lemma_u8_basics(idx);
        let j = (idx & 1) as u32;
        let w = 0xF9400000u32 | (j << 10u32) | (1u32 << 5u32) | 2u32;
        lemma_shift_words(0, j, 64, 63);
        lemma_word(w, a64_eor() + rest);
        assert(a64_op_code(op) + rest =~= a64_word(w) + (a64_eor() + rest));
        let i = A64Insn::LdrX2X1(j);
        lemma_run_word(w, a64_eor() + rest, st, mem, i);
        let s1 = exec_a64(i, st, mem);
        lemma_run_eor(rest, s1, mem);
        exec_a64(A64Insn::EorX0X2, s1, mem)
}

proof fn lemma_a64_run_op(op: MicroOp, rest: Seq<u8>, st: A64State, keys: Seq<u64>, mem: spec_fn(u64) -> u64)
    -> (st2: A64State)
    requires
        a64_in_range(op),
        keys_at_x1(st.x1, keys, mem),
    ensures
        st2.x0 == apply_op(op, keys, st.x0),
        st2.x1 == st.x1,
        run_a64(a64_op_code(op) + rest, st, mem) == run_a64(rest, st2, mem),
{
    match op {
        MicroOp::MulOdd(c) => lemma_a64_run_mul_odd(c, rest, st, keys, mem),
        MicroOp::AddConst(c) => lemma_a64_run_add_const(c, rest, st, keys, mem),
        MicroOp::XorConst(c) => lemma_a64_run_xor_const(c, rest, st, keys, mem),
        MicroOp::Ror(k) => lemma_a64_run_ror(k, rest, st, keys, mem),
        MicroOp::XorShr(k) => lemma_a64_run_xor_shr(k, rest, st, keys, mem),
        MicroOp::XorShl(k) => lemma_a64_run_xor_shl(k, rest, st, keys, mem),
        MicroOp::KeyXor(idx) => lemma_a64_run_key_xor(idx, rest, st, keys, mem),
    }
}

proof fn lemma_a64_run_ops(ops: Seq<MicroOp>, rest: Seq<u8>, st: A64State, keys: Seq<u64>, mem: spec_fn(u64) -> u64)
    -> (st2: A64State)
    requires
        forall|i: int| 0 <= i < ops.len() ==> #[trigger] a64_in_range(ops[i]),
        keys_at_x1(st.x1, keys, mem),
    ensures
        st2.x0 == eval_ops(ops, keys, st.x0),
        st2.x1 == st.x1,
        run_a64(ops_code(ops, Target::Aarch64) + rest, st, mem) == run_a64(rest, st2, mem),
    decreases ops.len(),
{
    if ops.len() == 0 {
        assert(ops_code(ops, Target::Aarch64) + rest =~= rest);
        st
    } else {
        let init = ops.drop_last();
        let last = ops.last();
        assert(a64_in_range(ops[ops.len() - 1]));
        assert forall|i: int| 0 <= i < init.len() implies #[trigger] a64_in_range(init[i]) by {
            assert(a64_in_range(ops[i]));
        }
        assert(ops_code(ops, Target::Aarch64) + rest =~= ops_code(init, Target::Aarch64) + (a64_op_code(last) + rest));
        let st1 = lemma_a64_run_ops(init, a64_op_code(last) + rest, st, keys, mem);
        lemma_a64_run_op(last, rest, st1, keys, mem)
    }
}

/// The emitted AArch64 code computes the kernel: called with `x` in `x0` and
/// a pointer to the two keys in `x1`, it returns `eval_keyed(x, keys)`
/// (for rotations and shifts below 64 bits, which its encoding can hold).
pub proof fn lemma_jit_a64_computes_eval(ops: Seq<MicroOp>, keys: Seq<u64>, st: A64State, mem: spec_fn(u64) -> u64)
    requires
        forall|i: int| 0 <= i < ops.len() ==> #[trigger] a64_in_range(ops[i]),
        keys_at_x1(st.x1, keys, mem),
    ensures
        run_a64(jit_code(ops, Target::Aarch64), st, mem) == Some(eval_ops(ops, keys, st.x0)),
{
    let ret = a64_word(0xD65F03C0u32);
    assert(jit_code(ops, Target::Aarch64) =~= ops_code(ops, Target::Aarch64) + ret);
    let s1 = lemma_a64_run_ops(ops, ret, st, keys, mem);
    lemma_const_words();
    lemma_word(0xD65F03C0u32, Seq::empty());
    assert(ret + Seq::<u8>::empty() =~= ret);
}

} // verus!
