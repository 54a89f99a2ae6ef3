//! A model of the x86-64 instructions that the JIT emits, and the proof that
//! the emitted code computes what the kernel computes.
//!
//! The model covers exactly the encodings below (Intel SDM, vol. 2), on the
//! registers `rax`, `rcx`, `rdx`, `rsi`, `rdi`, `r10` and a 64-bit-word memory:
//! `REX.W B8+r io` (mov r64, imm64), `REX.W 0F AF /r` (imul r64, r/m64),
//! `REX.W 01 /r` (add), `REX.W 31 /r` and `REX.WB 33 /r` with `mod = 01`
//! (xor), `REX.W 89 /r` (mov), `REX.W C1 /1 /4 /5 ib` (ror, shl, shr; the
//! count is taken modulo 64) and `C3` (ret).
use vstd::prelude::*;
use vstd::wrapping::u64_specs::{wrapping_add, wrapping_mul, wrapping_sub};
use crate::ast::{MicroOp, apply_op, eval_ops, op_in_range, ops_in_range};
use vstd::arithmetic::power::pow;
use crate::bits::{rotr, lemma_u8_basics};
use crate::jit::{Target, le_bytes, le_value, lemma_le_value, lemma_le_bytes_len, x86_op_code, ops_code, jit_code};

verus! {

/// The registers that the emitted code reads or writes.
pub struct X86State {
    pub rax: u64,
    pub rcx: u64,
    pub rdx: u64,
    pub rsi: u64,
    pub rdi: u64,
    pub r10: u64,
}

/// The instructions of the model.
pub enum X86Insn {
    MovRdxImm(u64),
    ImulRaxRdx,
    AddRaxRdx,
    XorRaxRdx,
    MovRdxRax,
    MovRaxRdi,
    MovRaxRcx,
    MovR10Rsi,
    MovR10Rdx,
    RorRax(u8),
    ShrRdx(u8),
    ShlRdx(u8),
    XorRaxMemR10(u8),
    Ret,
}


/// The instruction at the start of `code` and its length in bytes.
pub open spec fn decode_x86(code: Seq<u8>) -> Option<(X86Insn, nat)> {
    if code.len() >= 1 && code[0] == 0xC3 {
        Some((X86Insn::Ret, 1))
    } else if code.len() >= 10 && code[0] == 0x48 && code[1] == 0xBA {
        Some((X86Insn::MovRdxImm(le_value(code.subrange(2, 10)) as u64), 10))
    } else if code.len() >= 4 && code[0] == 0x48 && code[1] == 0x0F && code[2] == 0xAF && code[3] == 0xC2 {
        Some((X86Insn::ImulRaxRdx, 4))
    } else if code.len() >= 4 && code[0] == 0x48 && code[1] == 0xC1 && code[2] == 0xC8 {
        Some((X86Insn::RorRax(code[3]), 4))
    } else if code.len() >= 4 && code[0] == 0x48 && code[1] == 0xC1 && code[2] == 0xEA {
        Some((X86Insn::ShrRdx(code[3]), 4))
    } else if code.len() >= 4 && code[0] == 0x48 && code[1] == 0xC1 && code[2] == 0xE2 {
        Some((X86Insn::ShlRdx(code[3]), 4))
    } else if code.len() >= 4 && code[0] == 0x49 && code[1] == 0x33 && code[2] == 0x42 {
        Some((X86Insn::XorRaxMemR10(code[3]), 4))
    } else if code.len() >= 3 && code[0] == 0x48 && code[1] == 0x01 && code[2] == 0xD0 {
        Some((X86Insn::AddRaxRdx, 3))
    } else if code.len() >= 3 && code[0] == 0x48 && code[1] == 0x31 && code[2] == 0xD0 {
        Some((X86Insn::XorRaxRdx, 3))
    } else if code.len() >= 3 && code[0] == 0x48 && code[1] == 0x89 && code[2] == 0xC2 {
        Some((X86Insn::MovRdxRax, 3))
    } else if code.len() >= 3 && code[0] == 0x48 && code[1] == 0x89 && code[2] == 0xF8 {
        Some((X86Insn::MovRaxRdi, 3))
    } else if code.len() >= 3 && code[0] == 0x48 && code[1] == 0x89 && code[2] == 0xC8 {
        Some((X86Insn::MovRaxRcx, 3))
    } else if code.len() >= 3 && code[0] == 0x49 && code[1] == 0x89 && code[2] == 0xF2 {
        Some((X86Insn::MovR10Rsi, 3))
    } else if code.len() >= 3 && code[0] == 0x49 && code[1] == 0x89 && code[2] == 0xD2 {
        Some((X86Insn::MovR10Rdx, 3))
    } else {
        None
    }
}

/// `base + disp8`, with the displacement sign-extended.
pub open spec fn plus_disp8(base: u64, disp: u8) -> u64 {
    if disp < 128 {
        wrapping_add(base, disp as u64)
    } else {
        wrapping_sub(base, (256 - disp) as u64)
    }
}

/// The effect of one instruction (other than `ret`) on the registers.
pub open spec fn exec_x86(insn: X86Insn, st: X86State, mem: spec_fn(u64) -> u64) -> X86State {
    match insn {
        X86Insn::MovRdxImm(v) => X86State { rdx: v, ..st },
        X86Insn::ImulRaxRdx => X86State { rax: wrapping_mul(st.rax, st.rdx), ..st },
        X86Insn::AddRaxRdx => X86State { rax: wrapping_add(st.rax, st.rdx), ..st },
        X86Insn::XorRaxRdx => X86State { rax: st.rax ^ st.rdx, ..st },
        X86Insn::MovRdxRax => X86State { rdx: st.rax, ..st },
        X86Insn::MovRaxRdi => X86State { rax: st.rdi, ..st },
        X86Insn::MovRaxRcx => X86State { rax: st.rcx, ..st },
        X86Insn::MovR10Rsi => X86State { r10: st.rsi, ..st },
        X86Insn::MovR10Rdx => X86State { r10: st.rdx, ..st },
        X86Insn::RorRax(k) => X86State { rax: rotr(st.rax, (k & 63) as u64), ..st },
        X86Insn::ShrRdx(k) => X86State { rdx: st.rdx >> ((k & 63) as u64), ..st },
        X86Insn::ShlRdx(k) => X86State { rdx: st.rdx << ((k & 63) as u64), ..st },
        X86Insn::XorRaxMemR10(d) => X86State { rax: st.rax ^ mem(plus_disp8(st.r10, d)), ..st },
        X86Insn::Ret => st,
    }
}

/// Runs `code` from `st` until `ret`; the value returned in `rax`, or `None`
/// if the code leaves the modelled instructions.
pub open spec fn run_x86(code: Seq<u8>, st: X86State, mem: spec_fn(u64) -> u64) -> Option<u64>
    decreases code.len(),
{
    match decode_x86(code) {
        None => None,
        Some((insn, n)) => {
            if insn is Ret {
                Some(st.rax)
            } else if 0 < n <= code.len() {
                run_x86(code.skip(n as int), exec_x86(insn, st, mem), mem)
            } else {
                None
            }
        },
    }
}



/// The eight bytes that `mov rdx, imm64` carries read back as the immediate.
proof fn lemma_imm64(v: u64)
    ensures
        le_bytes(v as nat, 8).len() == 8,
        le_value(le_bytes(v as nat, 8)) as u64 == v,
{
    lemma_le_bytes_len(v as nat, 8);
    lemma_le_value(v as nat, 8);
    reveal_with_fuel(pow, 9);
    assert(pow(256, 8) == 0x1_0000_0000_0000_0000);
    vstd::arithmetic::div_mod::lemma_small_mod(v as nat, 0x1_0000_0000_0000_0000);
}

proof fn lemma_run_insn(head: Seq<u8>, rest: Seq<u8>, st: X86State, mem: spec_fn(u64) -> u64, insn: X86Insn)
    requires
        head.len() > 0,
        decode_x86(head + rest) == Some((insn, head.len())),
        !(insn is Ret),
    ensures
        run_x86(head + rest, st, mem) == run_x86(rest, exec_x86(insn, st, mem), mem),
{
    assert((head + rest).skip(head.len() as int) =~= rest);
}

/// The key words that the emitted code reads through `r10`.
pub open spec fn keys_at(r10: u64, keys: Seq<u64>, mem: spec_fn(u64) -> u64) -> bool {
    &&& mem(plus_disp8(r10, 0)) == keys[0]
    &&& mem(plus_disp8(r10, 8)) == keys[1]
}

proof fn lemma_run_mul_odd(c: u64, rest: Seq<u8>, st: X86State, keys: Seq<u64>, mem: spec_fn(u64) -> u64)
    -> (st2: X86State)
    requires
        op_in_range(MicroOp::MulOdd(c)),
        keys_at(st.r10, keys, mem),
    ensures
        st2.rax == apply_op(MicroOp::MulOdd(c), keys, st.rax),
        st2.r10 == st.r10,
        run_x86(x86_op_code(MicroOp::MulOdd(c)) + rest, st, mem) == run_x86(rest, st2, mem),
{
    let op = MicroOp::MulOdd(c);
        let h1 = seq![0x48u8, 0xBA] + le_bytes((c | 1) as nat, 8);
        let h2 = seq![0x48u8, 0x0F, 0xAF, 0xC2];
        lemma_imm64(c | 1);
        assert(x86_op_code(op) + rest =~= h1 + (h2 + rest));
        assert((h1 + (h2 + rest)).subrange(2, 10) =~= le_bytes((c | 1) as nat, 8));
        lemma_run_insn(h1, h2 + rest, st, mem, X86Insn::MovRdxImm(c | 1));
        let s1 = exec_x86(X86Insn::MovRdxImm(c | 1), st, mem);
        lemma_run_insn(h2, rest, s1, mem, X86Insn::ImulRaxRdx);
        exec_x86(X86Insn::ImulRaxRdx, s1, mem)
}

proof fn lemma_run_add_const(c: u64, rest: Seq<u8>, st: X86State, keys: Seq<u64>, mem: spec_fn(u64) -> u64)
    -> (st2: X86State)
    requires
        op_in_range(MicroOp::AddConst(c)),
        keys_at(st.r10, keys, mem),
    ensures
        st2.rax == apply_op(MicroOp::AddConst(c), keys, st.rax),
        st2.r10 == st.r10,
        run_x86(x86_op_code(MicroOp::AddConst(c)) + rest, st, mem) == run_x86(rest, st2, mem),
{
    let op = MicroOp::AddConst(c);
        let h1 = seq![0x48u8, 0xBA] + le_bytes(c as nat, 8);
        let h2 = seq![0x48u8, 0x01, 0xD0];
        lemma_imm64(c);
        assert(x86_op_code(op) + rest =~= h1 + (h2 + rest));
        assert((h1 + (h2 + rest)).subrange(2, 10) =~= le_bytes(c as nat, 8));
        lemma_run_insn(h1, h2 + rest, st, mem, X86Insn::MovRdxImm(c));
        let s1 = exec_x86(X86Insn::MovRdxImm(c), st, mem);
        lemma_run_insn(h2, rest, s1, mem, X86Insn::AddRaxRdx);
        exec_x86(X86Insn::AddRaxRdx, s1, mem)
}

proof fn lemma_run_xor_const(c: u64, rest: Seq<u8>, st: X86State, keys: Seq<u64>, mem: spec_fn(u64) -> u64)
    -> (st2: X86State)
    requires
        op_in_range(MicroOp::XorConst(c)),
        keys_at(st.r10, keys, mem),
    ensures
        st2.rax == apply_op(MicroOp::XorConst(c), keys, st.rax),
        st2.r10 == st.r10,
        run_x86(x86_op_code(MicroOp::XorConst(c)) + rest, st, mem) == run_x86(rest, st2, mem),
{
    let op = MicroOp::XorConst(c);
        let h1 = seq![0x48u8, 0xBA] + le_bytes(c as nat, 8);
        let h2 = seq![0x48u8, 0x31, 0xD0];
        lemma_imm64(c);
        assert(x86_op_code(op) + rest =~= h1 + (h2 + rest));
        assert((h1 + (h2 + rest)).subrange(2, 10) =~= le_bytes(c as nat, 8));
        lemma_run_insn(h1, h2 + rest, st, mem, X86Insn::MovRdxImm(c));
        let s1 = exec_x86(X86Insn::MovRdxImm(c), st, mem);
        lemma_run_insn(h2, rest, s1, mem, X86Insn::XorRaxRdx);
        exec_x86(X86Insn::XorRaxRdx, s1, mem)
}

proof fn lemma_run_ror(k: u8, rest: Seq<u8>, st: X86State, keys: Seq<u64>, mem: spec_fn(u64) -> u64)
    -> (st2: X86State)
    requires
        op_in_range(MicroOp::Ror(k)),
        keys_at(st.r10, keys, mem),
    ensures
        st2.rax == apply_op(MicroOp::Ror(k), keys, st.rax),
        st2.r10 == st.r10,
        run_x86(x86_op_code(MicroOp::Ror(k)) + rest, st, mem) == run_x86(rest, st2, mem),
{
    let op = MicroOp::Ror(k);
        let h1 = seq![0x48u8, 0xC1, 0xC8, k];
        assert(x86_op_code(op) + rest =~= h1 + rest);
        lemma_run_insn(h1, rest, st, mem, X86Insn::RorRax(k));
        lemma_u8_basics(k);
        exec_x86(X86Insn::RorRax(k), st, mem)
}

proof fn lemma_run_xor_shr(k: u8, rest: Seq<u8>, st: X86State, keys: Seq<u64>, mem: spec_fn(u64) -> u64)
    -> (st2: X86State)
    requires
        op_in_range(MicroOp::XorShr(k)),
        keys_at(st.r10, keys, mem),
    ensures
        st2.rax == apply_op(MicroOp::XorShr(k), keys, st.rax),
        st2.r10 == st.r10,
        run_x86(x86_op_code(MicroOp::XorShr(k)) + rest, st, mem) == run_x86(rest, st2, mem),
{
    let op = MicroOp::XorShr(k);
        let h1 = seq![0x48u8, 0x89, 0xC2];
        let h2 = seq![0x48u8, 0xC1, 0xEA, k];
        let h3 = seq![0x48u8, 0x31, 0xD0];
        assert(x86_op_code(op) + rest =~= h1 + (h2 + (h3 + rest)));
        lemma_run_insn(h1, h2 + (h3 + rest), st, mem, X86Insn::MovRdxRax);
        let s1 = exec_x86(X86Insn::MovRdxRax, st, mem);
        lemma_run_insn(h2, h3 + rest, s1, mem, X86Insn::ShrRdx(k));
        let s2 = exec_x86(X86Insn::ShrRdx(k), s1, mem);
        lemma_run_insn(h3, rest, s2, mem, X86Insn::XorRaxRdx);
        lemma_u8_basics(k);
        exec_x86(X86Insn::XorRaxRdx, s2, mem)
}

proof fn lemma_run_xor_shl(k: u8, rest: Seq<u8>, st: X86State, keys: Seq<u64>, mem: spec_fn(u64) -> u64)
    -> (st2: X86State)
    requires
        op_in_range(MicroOp::XorShl(k)),
        keys_at(st.r10, keys, mem),
    ensures
        st2.rax == apply_op(MicroOp::XorShl(k), keys, st.rax),
        st2.r10 == st.r10,
        run_x86(x86_op_code(MicroOp::XorShl(k)) + rest, st, mem) == run_x86(rest, st2, mem),
{
    let op = MicroOp::XorShl(k);
        let h1 = seq![0x48u8, 0x89, 0xC2];
        let h2 = seq![0x48u8, 0xC1, 0xE2, k];
        let h3 = seq![0x48u8, 0x31, 0xD0];
        assert(x86_op_code(op) + rest =~= h1 + (h2 + (h3 + rest)));
        lemma_run_insn(h1, h2 + (h3 + rest), st, mem, X86Insn::MovRdxRax);
        let s1 = exec_x86(X86Insn::MovRdxRax, st, mem);
        lemma_run_insn(h2, h3 + rest, s1, mem, X86Insn::ShlRdx(k));
        let s2 = exec_x86(X86Insn::ShlRdx(k), s1, mem);
        lemma_run_insn(h3, rest, s2, mem, X86Insn::XorRaxRdx);
        lemma_u8_basics(k);
        exec_x86(X86Insn::XorRaxRdx, s2, mem)
}

proof fn lemma_run_key_xor(idx: u8, rest: Seq<u8>, st: X86State, keys: Seq<u64>, mem: spec_fn(u64) -> u64)
    -> (st2: X86State)
    requires
        op_in_range(MicroOp::KeyXor(idx)),
        keys_at(st.r10, keys, mem),
    ensures
        st2.rax == apply_op(MicroOp::KeyXor(idx), keys, st.rax),
        st2.r10 == st.r10,
        run_x86(x86_op_code(MicroOp::KeyXor(idx)) + rest, st, mem) == run_x86(rest, st2, mem),
{
    let op = MicroOp::KeyXor(idx);
        lemma_u8_basics(idx);
        let d = ((idx & 1) * 8) as u8;
        let h1 = seq![0x49u8, 0x33, 0x42, d];
        assert(x86_op_code(op) + rest =~= h1 + rest);
        lemma_run_insn(h1, rest, st, mem, X86Insn::XorRaxMemR10(d));
        exec_x86(X86Insn::XorRaxMemR10(d), st, mem)
}

/// The code of one operation moves `rax` as the operation moves `x`, keeps
/// `r10`, and falls through to what follows.
proof fn lemma_run_op(op: MicroOp, rest: Seq<u8>, st: X86State, keys: Seq<u64>, mem: spec_fn(u64) -> u64)
    -> (st2: X86State)
    requires
        op_in_range(op),
        keys_at(st.r10, keys, mem),
    ensures
        st2.rax == apply_op(op, keys, st.rax),
        st2.r10 == st.r10,
        run_x86(x86_op_code(op) + rest, st, mem) == run_x86(rest, st2, mem),
{
    match op {
        MicroOp::MulOdd(c) => lemma_run_mul_odd(c, rest, st, keys, mem),
        MicroOp::AddConst(c) => lemma_run_add_const(c, rest, st, keys, mem),
        MicroOp::XorConst(c) => lemma_run_xor_const(c, rest, st, keys, mem),
        MicroOp::Ror(k) => lemma_run_ror(k, rest, st, keys, mem),
        MicroOp::XorShr(k) => lemma_run_xor_shr(k, rest, st, keys, mem),
        MicroOp::XorShl(k) => lemma_run_xor_shl(k, rest, st, keys, mem),
        MicroOp::KeyXor(idx) => lemma_run_key_xor(idx, rest, st, keys, mem),
    }
}

proof fn lemma_run_ops(ops: Seq<MicroOp>, target: Target, rest: Seq<u8>, st: X86State, keys: Seq<u64>, mem: spec_fn(u64) -> u64)
    -> (st2: X86State)
    requires
        target != Target::Aarch64,
        ops_in_range(ops),
        keys_at(st.r10, keys, mem),
    ensures
        st2.rax == eval_ops(ops, keys, st.rax),
        st2.r10 == st.r10,
        run_x86(ops_code(ops, target) + rest, st, mem) == run_x86(rest, st2, mem),
    decreases ops.len(),
{
    if ops.len() == 0 {
        assert(ops_code(ops, target) + rest =~= rest);
        st
    } else {
        let init = ops.drop_last();
        let last = ops.last();
        assert(op_in_range(ops[ops.len() - 1]));
        assert forall|i: int| 0 <= i < init.len() implies #[trigger] op_in_range(init[i]) by {
            assert(op_in_range(ops[i]));
        }
        assert(ops_code(ops, target) + rest =~= ops_code(init, target) + (x86_op_code(last) + rest));
        let st1 = lemma_run_ops(init, target, x86_op_code(last) + rest, st, keys, mem);
        lemma_run_op(last, rest, st1, keys, mem)
    }
}

/// The emitted x86-64 code computes the kernel: called with `x` in the first
/// argument register and a pointer to the two keys in the second, it
/// returns `eval_keyed(x, keys)`.
pub proof fn lemma_jit_x86_computes_eval(
    ops: Seq<MicroOp>,
    keys: Seq<u64>,
    target: Target,
    st: X86State,
    mem: spec_fn(u64) -> u64,
)
    requires
        target != Target::Aarch64,
        ops_in_range(ops),
        target == Target::X86_64SysV ==> keys_at(st.rsi, keys, mem),
        target == Target::X86_64Win64 ==> keys_at(st.rdx, keys, mem),
    ensures
        run_x86(jit_code(ops, target), st, mem) == Some(
            eval_ops(ops, keys, if target == Target::X86_64SysV { st.rdi } else { st.rcx }),
        ),
{
    let body = ops_code(ops, target) + seq![0xC3u8];
    if target == Target::X86_64SysV {
        let h1 = seq![0x48u8, 0x89, 0xF8];
        let h2 = seq![0x49u8, 0x89, 0xF2];
        assert(jit_code(ops, target) =~= h1 + (h2 + body));
        lemma_run_insn(h1, h2 + body, st, mem, X86Insn::MovRaxRdi);
        let s1 = exec_x86(X86Insn::MovRaxRdi, st, mem);
        lemma_run_insn(h2, body, s1, mem, X86Insn::MovR10Rsi);
        let s2 = exec_x86(X86Insn::MovR10Rsi, s1, mem);
        let s3 = lemma_run_ops(ops, target, seq![0xC3u8], s2, keys, mem);
    } else {
        let h1 = seq![0x48u8, 0x89, 0xC8];
        let h2 = seq![0x49u8, 0x89, 0xD2];
        assert(jit_code(ops, target) =~= h1 + (h2 + body));
        lemma_run_insn(h1, h2 + body, st, mem, X86Insn::MovRaxRcx);
        let s1 = exec_x86(X86Insn::MovRaxRcx, st, mem);
        lemma_run_insn(h2, body, s1, mem, X86Insn::MovR10Rdx);
        let s2 = exec_x86(X86Insn::MovR10Rdx, s1, mem);
        let s3 = lemma_run_ops(ops, target, seq![0xC3u8], s2, keys, mem);
    }
}

/// The instructions that `code` decodes to, one after another, through the
/// first `ret`; `None` if decoding leaves the model before a `ret`. It reads
/// the code alone: no register or memory value enters it.
pub open spec fn x86_listing(code: Seq<u8>) -> Option<Seq<X86Insn>>
    decreases code.len(),
{
    match decode_x86(code) {
        None => None,
        Some((insn, n)) => {
            if insn is Ret {
                Some(seq![insn])
            } else if 0 < n <= code.len() {
                match x86_listing(code.skip(n as int)) {
                    None => None,
                    Some(l) => Some(seq![insn] + l),
                }
            } else {
                None
            }
        },
    }
}

/// Runs `insns` in order from `st`.
pub open spec fn exec_all(insns: Seq<X86Insn>, st: X86State, mem: spec_fn(u64) -> u64) -> X86State
    decreases insns.len(),
{
    if insns.len() == 0 {
        st
    } else {
        exec_all(insns.drop_first(), exec_x86(insns[0], st, mem), mem)
    }
}

/// The instructions that the emitter writes for `op`.
pub open spec fn x86_op_insns(op: MicroOp) -> Seq<X86Insn> {
    match op {
        MicroOp::MulOdd(c) => seq![X86Insn::MovRdxImm(c | 1), X86Insn::ImulRaxRdx],
        MicroOp::AddConst(c) => seq![X86Insn::MovRdxImm(c), X86Insn::AddRaxRdx],
        MicroOp::XorConst(c) => seq![X86Insn::MovRdxImm(c), X86Insn::XorRaxRdx],
        MicroOp::Ror(k) => seq![X86Insn::RorRax(k)],
        MicroOp::XorShr(k) => seq![X86Insn::MovRdxRax, X86Insn::ShrRdx(k), X86Insn::XorRaxRdx],
        MicroOp::XorShl(k) => seq![X86Insn::MovRdxRax, X86Insn::ShlRdx(k), X86Insn::XorRaxRdx],
        MicroOp::KeyXor(idx) => seq![X86Insn::XorRaxMemR10(((idx & 1) * 8) as u8)],
    }
}

/// The instructions that the emitter writes for `ops`, in order.
pub open spec fn x86_ops_insns(ops: Seq<MicroOp>) -> Seq<X86Insn>
    decreases ops.len(),
{
    if ops.len() == 0 {
        Seq::empty()
    } else {
        x86_ops_insns(ops.drop_last()) + x86_op_insns(ops.last())
    }
}

/// The argument moves that open the emitted function.
pub open spec fn x86_prologue_insns(target: Target) -> Seq<X86Insn> {
    if target == Target::X86_64SysV {
        seq![X86Insn::MovRaxRdi, X86Insn::MovR10Rsi]
    } else {
        seq![X86Insn::MovRaxRcx, X86Insn::MovR10Rdx]
    }
}

/// A listing ends in its one `ret`, and running the code runs the listing.
proof fn lemma_run_listing(code: Seq<u8>, st: X86State, mem: spec_fn(u64) -> u64)
    requires
        x86_listing(code) is Some,
    ensures
        x86_listing(code)->0.len() >= 1,
        x86_listing(code)->0.last() is Ret,
        run_x86(code, st, mem) == Some(exec_all(x86_listing(code)->0.drop_last(), st, mem).rax),
    decreases code.len(),
{
    let (insn, n) = decode_x86(code)->0;
    if !(insn is Ret) {
        let rest = code.skip(n as int);
        let st1 = exec_x86(insn, st, mem);
        lemma_run_listing(rest, st1, mem);
        let l = x86_listing(rest)->0;
        assert((seq![insn] + l).drop_last() =~= seq![insn] + l.drop_last());
        assert((seq![insn] + l.drop_last()).drop_first() =~= l.drop_last());
    }
}

proof fn lemma_listing_insn(head: Seq<u8>, rest: Seq<u8>, insn: X86Insn)
    requires
        head.len() > 0,
        decode_x86(head + rest) == Some((insn, head.len())),
        !(insn is Ret),
        x86_listing(rest) is Some,
    ensures
        x86_listing(head + rest) == Some(seq![insn] + x86_listing(rest)->0),
{
    assert((head + rest).skip(head.len() as int) =~= rest);
}

proof fn lemma_listing_op(op: MicroOp, rest: Seq<u8>)
    requires
        x86_listing(rest) is Some,
    ensures
        x86_listing(x86_op_code(op) + rest) == Some(x86_op_insns(op) + x86_listing(rest)->0),
{
    let l = x86_listing(rest)->0;
    match op {
        MicroOp::MulOdd(c) => {
            let h1 = seq![0x48u8, 0xBA] + le_bytes((c | 1) as nat, 8);
            let h2 = seq![0x48u8, 0x0F, 0xAF, 0xC2];
            lemma_imm64(c | 1);
            assert(x86_op_code(op) + rest =~= h1 + (h2 + rest));
            assert((h1 + (h2 + rest)).subrange(2, 10) =~= le_bytes((c | 1) as nat, 8));
            lemma_listing_insn(h2, rest, X86Insn::ImulRaxRdx);
            lemma_listing_insn(h1, h2 + rest, X86Insn::MovRdxImm(c | 1));
            assert(seq![X86Insn::MovRdxImm(c | 1)] + (seq![X86Insn::ImulRaxRdx] + l) =~= x86_op_insns(op) + l);
        },
        MicroOp::AddConst(c) => {
            let h1 = seq![0x48u8, 0xBA] + le_bytes(c as nat, 8);
            let h2 = seq![0x48u8, 0x01, 0xD0];
            lemma_imm64(c);
            assert(x86_op_code(op) + rest =~= h1 + (h2 + rest));
            assert((h1 + (h2 + rest)).subrange(2, 10) =~= le_bytes(c as nat, 8));
            lemma_listing_insn(h2, rest, X86Insn::AddRaxRdx);
            lemma_listing_insn(h1, h2 + rest, X86Insn::MovRdxImm(c));
            assert(seq![X86Insn::MovRdxImm(c)] + (seq![X86Insn::AddRaxRdx] + l) =~= x86_op_insns(op) + l);
        },
        MicroOp::XorConst(c) => {
            let h1 = seq![0x48u8, 0xBA] + le_bytes(c as nat, 8);
            let h2 = seq![0x48u8, 0x31, 0xD0];
            lemma_imm64(c);
            assert(x86_op_code(op) + rest =~= h1 + (h2 + rest));
            assert((h1 + (h2 + rest)).subrange(2, 10) =~= le_bytes(c as nat, 8));
            lemma_listing_insn(h2, rest, X86Insn::XorRaxRdx);
            lemma_listing_insn(h1, h2 + rest, X86Insn::MovRdxImm(c));
            assert(seq![X86Insn::MovRdxImm(c)] + (seq![X86Insn::XorRaxRdx] + l) =~= x86_op_insns(op) + l);
        },
        MicroOp::Ror(k) => {
            let h1 = seq![0x48u8, 0xC1, 0xC8, k];
            assert(x86_op_code(op) + rest =~= h1 + rest);
            lemma_listing_insn(h1, rest, X86Insn::RorRax(k));
        },
        MicroOp::XorShr(k) => {
            let h1 = seq![0x48u8, 0x89, 0xC2];
            let h2 = seq![0x48u8, 0xC1, 0xEA, k];
            let h3 = seq![0x48u8, 0x31, 0xD0];
            assert(x86_op_code(op) + rest =~= h1 + (h2 + (h3 + rest)));
            lemma_listing_insn(h3, rest, X86Insn::XorRaxRdx);
            lemma_listing_insn(h2, h3 + rest, X86Insn::ShrRdx(k));
            lemma_listing_insn(h1, h2 + (h3 + rest), X86Insn::MovRdxRax);
            assert(seq![X86Insn::MovRdxRax] + (seq![X86Insn::ShrRdx(k)] + (seq![X86Insn::XorRaxRdx] + l))
                =~= x86_op_insns(op) + l);
        },
        MicroOp::XorShl(k) => {
            let h1 = seq![0x48u8, 0x89, 0xC2];
            let h2 = seq![0x48u8, 0xC1, 0xE2, k];
            let h3 = seq![0x48u8, 0x31, 0xD0];
            assert(x86_op_code(op) + rest =~= h1 + (h2 + (h3 + rest)));
            lemma_listing_insn(h3, rest, X86Insn::XorRaxRdx);
            lemma_listing_insn(h2, h3 + rest, X86Insn::ShlRdx(k));
            lemma_listing_insn(h1, h2 + (h3 + rest), X86Insn::MovRdxRax);
            assert(seq![X86Insn::MovRdxRax] + (seq![X86Insn::ShlRdx(k)] + (seq![X86Insn::XorRaxRdx] + l))
                =~= x86_op_insns(op) + l);
        },
        MicroOp::KeyXor(idx) => {
            let d = ((idx & 1) * 8) as u8;
            let h1 = seq![0x49u8, 0x33, 0x42, d];
            assert(x86_op_code(op) + rest =~= h1 + rest);
            lemma_listing_insn(h1, rest, X86Insn::XorRaxMemR10(d));
        },
    }
}

proof fn lemma_listing_ops(ops: Seq<MicroOp>, target: Target, rest: Seq<u8>)
    requires
        target != Target::Aarch64,
        x86_listing(rest) is Some,
    ensures
        x86_listing(ops_code(ops, target) + rest) == Some(x86_ops_insns(ops) + x86_listing(rest)->0),
        forall|i: int| 0 <= i < x86_ops_insns(ops).len() ==> !(#[trigger] x86_ops_insns(ops)[i] is Ret),
    decreases ops.len(),
{
    if ops.len() == 0 {
        assert(ops_code(ops, target) + rest =~= rest);
        assert(x86_ops_insns(ops) + x86_listing(rest)->0 =~= x86_listing(rest)->0);
    } else {
        let init = ops.drop_last();
        let last = ops.last();
        lemma_listing_op(last, rest);
        let tail = x86_op_code(last) + rest;
        lemma_listing_ops(init, target, tail);
        assert(ops_code(ops, target) + rest =~= ops_code(init, target) + tail);
        assert(x86_ops_insns(init) + (x86_op_insns(last) + x86_listing(rest)->0)
            =~= x86_ops_insns(ops) + x86_listing(rest)->0);
        let a = x86_ops_insns(init);
        let b = x86_op_insns(last);
        assert forall|i: int| 0 <= i < x86_ops_insns(ops).len() implies !(#[trigger] x86_ops_insns(ops)[i] is Ret) by {
            if i >= a.len() {
                assert(x86_ops_insns(ops)[i] == b[i - a.len()]);
            } else {
                assert(x86_ops_insns(ops)[i] == a[i]);
            }
        }
    }
}

/// The emitted x86-64 code is straight-line: whatever the kernel's constants,
/// it decodes to the argument moves, the instructions of each operation in
/// turn, and one `ret` at the end, with no other `ret` (and the model has no
/// jump). Every call runs exactly those instructions in that order, whatever
/// `x`, the keys and the memory hold.
pub proof fn lemma_jit_x86_straight_line(ops: Seq<MicroOp>, target: Target, st: X86State, mem: spec_fn(u64) -> u64)
    requires
        target != Target::Aarch64,
    ensures
        x86_listing(jit_code(ops, target)) == Some(
            x86_prologue_insns(target) + x86_ops_insns(ops) + seq![X86Insn::Ret],
        ),
        forall|i: int|
            0 <= i < x86_ops_insns(ops).len() ==> !(#[trigger] x86_ops_insns(ops)[i] is Ret),
        run_x86(jit_code(ops, target), st, mem) == Some(
            exec_all(x86_prologue_insns(target) + x86_ops_insns(ops), st, mem).rax,
        ),
{
    let ret = seq![0xC3u8];
    assert(ret.skip(0) =~= ret);
    assert(x86_listing(ret) == Some(seq![X86Insn::Ret]));
    lemma_listing_ops(ops, target, ret);
    let body = ops_code(ops, target) + ret;
    let l = x86_ops_insns(ops) + seq![X86Insn::Ret];
    let (h1, h2, i1, i2) = if target == Target::X86_64SysV {
        (seq![0x48u8, 0x89, 0xF8], seq![0x49u8, 0x89, 0xF2], X86Insn::MovRaxRdi, X86Insn::MovR10Rsi)
    } else {
        (seq![0x48u8, 0x89, 0xC8], seq![0x49u8, 0x89, 0xD2], X86Insn::MovRaxRcx, X86Insn::MovR10Rdx)
    };
    assert(jit_code(ops, target) =~= h1 + (h2 + body));
    lemma_listing_insn(h2, body, i2);
    lemma_listing_insn(h1, h2 + body, i1);
    assert(seq![i1] + (seq![i2] + l) =~= x86_prologue_insns(target) + x86_ops_insns(ops) + seq![X86Insn::Ret]);
    lemma_run_listing(jit_code(ops, target), st, mem);
    assert((x86_prologue_insns(target) + x86_ops_insns(ops) + seq![X86Insn::Ret]).drop_last()
        =~= x86_prologue_insns(target) + x86_ops_insns(ops));
}

} // verus!
