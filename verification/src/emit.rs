//! Source text for a kernel: a C header and a Rust module holding
//! `wirecut_mix64`, the unkeyed kernel.
use vstd::prelude::*;
use crate::ast::{KernelAST, MicroOp, apply_op};
use crate::bits::rotr;
use vstd::arithmetic::power::{pow, lemma_pow_positive};
use vstd::arithmetic::div_mod::{lemma_breakdown, lemma_small_mod};
use vstd::wrapping::u64_specs::{wrapping_add, wrapping_mul};

verus! {

/// The upper-case hexadecimal digit of `d < 16`.
pub open spec fn hex_char(d: nat) -> char {
    if d < 10 {
        (48 + d) as char
    } else {
        (55 + d) as char
    }
}

/// The last `n` hexadecimal digits of `v`, most significant first.
pub open spec fn hex_digits(v: nat, n: nat) -> Seq<char>
    decreases n,
{
    if n == 0 {
        Seq::empty()
    } else {
        hex_digits(v / 16, (n - 1) as nat).push(hex_char(v % 16))
    }
}

/// `v` as `format!("{:#018X}", v)` writes it: `0x` and sixteen digits.
pub open spec fn hex_literal(v: u64) -> Seq<char> {
    "0x"@ + hex_digits(v as nat, 16)
}

/// `v` in decimal, as `format!("{}", v)` writes it.
pub open spec fn dec_literal(v: nat) -> Seq<char>
    decreases v,
{
    if v < 10 {
        seq![hex_char(v)]
    } else {
        dec_literal(v / 10).push(hex_char(v % 10))
    }
}

/// The C statement for one operation (`KeyXor` reads a zero key in the
/// unkeyed mixer, so it writes nothing).
pub open spec fn c_line(op: MicroOp) -> Seq<char> {
    match op {
        MicroOp::MulOdd(c) => "    x *= UINT64_C("@ + hex_literal(c | 1) + ");\n"@,
        MicroOp::AddConst(c) => "    x += UINT64_C("@ + hex_literal(c) + ");\n"@,
        MicroOp::XorConst(c) => "    x ^= UINT64_C("@ + hex_literal(c) + ");\n"@,
        MicroOp::Ror(k) => "    x = (x >> "@ + dec_literal(k as nat) + ") | (x << (64 - "@ + dec_literal(
            k as nat,
        ) + "));\n"@,
        MicroOp::XorShr(k) => "    x ^= (x >> "@ + dec_literal(k as nat) + ");\n"@,
        MicroOp::XorShl(k) => "    x ^= (x << "@ + dec_literal(k as nat) + ");\n"@,
        MicroOp::KeyXor(_) => Seq::empty(),
    }
}

/// The Rust statement for one operation (`KeyXor` writes nothing, as in C).
pub open spec fn rust_line(op: MicroOp) -> Seq<char> {
    match op {
        MicroOp::MulOdd(c) => "    x = x.wrapping_mul("@ + hex_literal(c | 1) + ");\n"@,
        MicroOp::AddConst(c) => "    x = x.wrapping_add("@ + hex_literal(c) + ");\n"@,
        MicroOp::XorConst(c) => "    x ^= "@ + hex_literal(c) + ";\n"@,
        MicroOp::Ror(k) => "    x = x.rotate_right("@ + dec_literal(k as nat) + ");\n"@,
        MicroOp::XorShr(k) => "    x ^= x >> "@ + dec_literal(k as nat) + ";\n"@,
        MicroOp::XorShl(k) => "    x ^= x << "@ + dec_literal(k as nat) + ";\n"@,
        MicroOp::KeyXor(_) => Seq::empty(),
    }
}

pub open spec fn c_lines(ops: Seq<MicroOp>) -> Seq<char>
    decreases ops.len(),
{
    if ops.len() == 0 {
        Seq::empty()
    } else {
        c_lines(ops.drop_last()) + c_line(ops.last())
    }
}

pub open spec fn rust_lines(ops: Seq<MicroOp>) -> Seq<char>
    decreases ops.len(),
{
    if ops.len() == 0 {
        Seq::empty()
    } else {
        rust_lines(ops.drop_last()) + rust_line(ops.last())
    }
}

/// The whole C header for `ops`.
pub open spec fn c_source(ops: Seq<MicroOp>) -> Seq<char> {
    "#ifndef WIRECUT_KERNEL_H\n#define WIRECUT_KERNEL_H\n\n#include <stdint.h>\n\n"@
        + "static inline uint64_t wirecut_mix64(uint64_t x) {\n"@ + c_lines(ops)
        + "    return x;\n}\n\n#endif\n"@
}

/// The whole Rust module for `ops`.
pub open spec fn rust_source(ops: Seq<MicroOp>) -> Seq<char> {
    "#[inline(always)]\npub fn wirecut_mix64(mut x: u64) -> u64 {\n"@ + rust_lines(ops) + "    x\n}\n"@
}

fn hex_digit_str(d: u64) -> (r: &'static str)
    requires
        d < 16,
    ensures
        r@ == seq![hex_char(d as nat)],
{
    if d == 0 {
        proof { reveal_strlit("0"); }
        "0"
    } else if d == 1 {
        proof { reveal_strlit("1"); }
        "1"
    } else if d == 2 {
        proof { reveal_strlit("2"); }
        "2"
    } else if d == 3 {
        proof { reveal_strlit("3"); }
        "3"
    } else if d == 4 {
        proof { reveal_strlit("4"); }
        "4"
    } else if d == 5 {
        proof { reveal_strlit("5"); }
        "5"
    } else if d == 6 {
        proof { reveal_strlit("6"); }
        "6"
    } else if d == 7 {
        proof { reveal_strlit("7"); }
        "7"
    } else if d == 8 {
        proof { reveal_strlit("8"); }
        "8"
    } else if d == 9 {
        proof { reveal_strlit("9"); }
        "9"
    } else if d == 10 {
        proof { reveal_strlit("A"); }
        "A"
    } else if d == 11 {
        proof { reveal_strlit("B"); }
        "B"
    } else if d == 12 {
        proof { reveal_strlit("C"); }
        "C"
    } else if d == 13 {
        proof { reveal_strlit("D"); }
        "D"
    } else if d == 14 {
        proof { reveal_strlit("E"); }
        "E"
    } else {
        proof { reveal_strlit("F"); }
        "F"
    }
}

fn append_hex_digits(s: &mut String, v: u64, n: u64)
    ensures
        final(s)@ == old(s)@ + hex_digits(v as nat, n as nat),
    decreases n,
{
    if n > 0 {
        append_hex_digits(s, v / 16, n - 1);
        s.append(hex_digit_str(v % 16));
    }
}

fn append_hex(s: &mut String, v: u64)
    ensures
        final(s)@ == old(s)@ + hex_literal(v),
{
    s.append("0x");
    append_hex_digits(s, v, 16);
}

fn append_dec(s: &mut String, v: u64)
    ensures
        final(s)@ == old(s)@ + dec_literal(v as nat),
    decreases v,
{
    if v >= 10 {
        append_dec(s, v / 10);
    }
    s.append(hex_digit_str(v % 10));
}

fn append_c_line(s: &mut String, op: MicroOp)
    ensures
        final(s)@ == old(s)@ + c_line(op),
{
    match op {
        MicroOp::MulOdd(c) => {
            s.append("    x *= UINT64_C(");
            append_hex(s, c | 1);
            s.append(");\n");
        },
        MicroOp::AddConst(c) => {
            s.append("    x += UINT64_C(");
            append_hex(s, c);
            s.append(");\n");
        },
        MicroOp::XorConst(c) => {
            s.append("    x ^= UINT64_C(");
            append_hex(s, c);
            s.append(");\n");
        },
        MicroOp::Ror(k) => {
            s.append("    x = (x >> ");
            append_dec(s, k as u64);
            s.append(") | (x << (64 - ");
            append_dec(s, k as u64);
            s.append("));\n");
        },
        MicroOp::XorShr(k) => {
            s.append("    x ^= (x >> ");
            append_dec(s, k as u64);
            s.append(");\n");
        },
        MicroOp::XorShl(k) => {
            s.append("    x ^= (x << ");
            append_dec(s, k as u64);
            s.append(");\n");
        },
        MicroOp::KeyXor(_) => {
            assert(old(s)@ + Seq::<char>::empty() =~= old(s)@);
        },
    }
}

fn append_rust_line(s: &mut String, op: MicroOp)
    ensures
        final(s)@ == old(s)@ + rust_line(op),
{
    match op {
        MicroOp::MulOdd(c) => {
            s.append("    x = x.wrapping_mul(");
            append_hex(s, c | 1);
            s.append(");\n");
        },
        MicroOp::AddConst(c) => {
            s.append("    x = x.wrapping_add(");
            append_hex(s, c);
            s.append(");\n");
        },
        MicroOp::XorConst(c) => {
            s.append("    x ^= ");
            append_hex(s, c);
            s.append(";\n");
        },
        MicroOp::Ror(k) => {
            s.append("    x = x.rotate_right(");
            append_dec(s, k as u64);
            s.append(");\n");
        },
        MicroOp::XorShr(k) => {
            s.append("    x ^= x >> ");
            append_dec(s, k as u64);
            s.append(";\n");
        },
        MicroOp::XorShl(k) => {
            s.append("    x ^= x << ");
            append_dec(s, k as u64);
            s.append(";\n");
        },
        MicroOp::KeyXor(_) => {
            assert(old(s)@ + Seq::<char>::empty() =~= old(s)@);
        },
    }
}

impl KernelAST {
    /// The kernel as a C99 header defining `wirecut_mix64`.
    pub fn emit_c(&self) -> (s: String)
        ensures
            s@ == c_source(self@),
    {
        let mut s = String::new();
        s.append("#ifndef WIRECUT_KERNEL_H\n#define WIRECUT_KERNEL_H\n\n#include <stdint.h>\n\n");
        s.append("static inline uint64_t wirecut_mix64(uint64_t x) {\n");
        let ghost head = s@;
        let n = self.ops.len();
        for i in 0..n
            invariant
                n == self@.len(),
                s@ == head + c_lines(self@.take(i as int)),
        {
            append_c_line(&mut s, self.ops[i]);
            assert(self@.take(i + 1).drop_last() =~= self@.take(i as int));
        }
        assert(self@.take(n as int) =~= self@);
        s.append("    return x;\n}\n\n#endif\n");
        s
    }

    /// The kernel as a Rust module defining `wirecut_mix64`.
    pub fn emit_rust(&self) -> (s: String)
        ensures
            s@ == rust_source(self@),
    {
        let mut s = String::new();
        s.append("#[inline(always)]\npub fn wirecut_mix64(mut x: u64) -> u64 {\n");
        let ghost head = s@;
        let n = self.ops.len();
        for i in 0..n
            invariant
                n == self@.len(),
                s@ == head + rust_lines(self@.take(i as int)),
        {
            append_rust_line(&mut s, self.ops[i]);
            assert(self@.take(i + 1).drop_last() =~= self@.take(i as int));
        }
        assert(self@.take(n as int) =~= self@);
        s.append("    x\n}\n");
        s
    }
}

// ---------------------------------------------------------------------------
// Reading the constants back
// ---------------------------------------------------------------------------

/// `ch` is one of `0-9`, `A-F`.
pub open spec fn is_hex_digit(ch: char) -> bool {
    (48 <= ch as int <= 57) || (65 <= ch as int <= 70)
}

/// The value of the hexadecimal digit `ch`.
pub open spec fn hex_digit_value(ch: char) -> nat {
    if ch as int <= 57 {
        (ch as int - 48) as nat
    } else {
        (ch as int - 55) as nat
    }
}

/// The number that the hexadecimal digits `s` spell, most significant first.
pub open spec fn hex_value(s: Seq<char>) -> nat
    decreases s.len(),
{
    if s.len() == 0 {
        0
    } else {
        hex_value(s.drop_last()) * 16 + hex_digit_value(s.last())
    }
}

/// Sixteen hexadecimal digits.
pub open spec fn hex_word(s: Seq<char>) -> bool {
    s.len() == 16 && forall|i: int| 0 <= i < 16 ==> #[trigger] is_hex_digit(s[i])
}

proof fn lemma_hex_digits_read_back(v: nat, n: nat)
    ensures
        hex_digits(v, n).len() == n,
        forall|i: int| 0 <= i < n ==> #[trigger] is_hex_digit(hex_digits(v, n)[i]),
        hex_value(hex_digits(v, n)) == v % pow(16, n) as nat,
    decreases n,
{
    reveal(pow);
    if n > 0 {
        let d = v % 16;
        lemma_hex_digits_read_back(v / 16, (n - 1) as nat);
        let h = hex_digits(v, n);
        assert(h.drop_last() =~= hex_digits(v / 16, (n - 1) as nat));
        assert(hex_char(d) as int == if d < 10 { 48 + d } else { 55 + d });
        lemma_pow_positive(16, (n - 1) as nat);
        let p = pow(16, (n - 1) as nat);
        assert(pow(16, n) == 16 * p);
        lemma_breakdown(v as int, 16, p);
        assert forall|i: int| 0 <= i < n implies #[trigger] is_hex_digit(h[i]) by {
            if i < n - 1 {
                assert(h[i] == h.drop_last()[i]);
            }
        }
    } else {
        assert(pow(16, 0) == 1);
    }
}

/// The sixteen digits of `hex_literal(v)` spell `v`.
proof fn lemma_hex_literal_read_back(v: u64)
    ensures
        hex_literal(v) == "0x"@ + hex_digits(v as nat, 16),
        hex_word(hex_digits(v as nat, 16)),
        hex_value(hex_digits(v as nat, 16)) == v,
{
    lemma_hex_digits_read_back(v as nat, 16);
    reveal_with_fuel(pow, 17);
    assert(pow(16, 16) == 0x1_0000_0000_0000_0000);
    lemma_small_mod(v as nat, 0x1_0000_0000_0000_0000);
}

/// The C statement of an operation with a constant is that statement with
/// sixteen hexadecimal digits in it, and those digits spell the constant that
/// the operation applies: the emitted C computes what `apply_op` computes.
pub proof fn lemma_c_line_constant(op: MicroOp, keys: Seq<u64>, x: u64)
    requires
        op is MulOdd || op is AddConst || op is XorConst,
    ensures
        hex_word(c_line(op).subrange(20, 36)),
        op is MulOdd ==> c_line(op) == "    x *= UINT64_C(0x"@ + c_line(op).subrange(20, 36) + ");\n"@
            && apply_op(op, keys, x) == wrapping_mul(x, hex_value(c_line(op).subrange(20, 36)) as u64),
        op is AddConst ==> c_line(op) == "    x += UINT64_C(0x"@ + c_line(op).subrange(20, 36) + ");\n"@
            && apply_op(op, keys, x) == wrapping_add(x, hex_value(c_line(op).subrange(20, 36)) as u64),
        op is XorConst ==> c_line(op) == "    x ^= UINT64_C(0x"@ + c_line(op).subrange(20, 36) + ");\n"@
            && apply_op(op, keys, x) == x ^ (hex_value(c_line(op).subrange(20, 36)) as u64),
{
    reveal_strlit("0x");
    reveal_strlit(");\n");
    reveal_strlit("    x *= UINT64_C(");
    reveal_strlit("    x += UINT64_C(");
    reveal_strlit("    x ^= UINT64_C(");
    reveal_strlit("    x *= UINT64_C(0x");
    reveal_strlit("    x += UINT64_C(0x");
    reveal_strlit("    x ^= UINT64_C(0x");
    let c: u64 = match op {
        MicroOp::MulOdd(c) => c | 1,
        MicroOp::AddConst(c) => c,
        MicroOp::XorConst(c) => c,
        _ => 0,
    };
    lemma_hex_literal_read_back(c);
    let digits = hex_digits(c as nat, 16);
    assert(c_line(op).subrange(20, 36) =~= digits);
    if op is MulOdd {
        assert(c_line(op) =~= "    x *= UINT64_C(0x"@ + digits + ");\n"@);
    } else if op is AddConst {
        assert(c_line(op) =~= "    x += UINT64_C(0x"@ + digits + ");\n"@);
    } else {
        assert(c_line(op) =~= "    x ^= UINT64_C(0x"@ + digits + ");\n"@);
    }
}

/// The Rust statement of an operation with a constant is that statement with
/// sixteen hexadecimal digits in it, and those digits spell the constant that
/// the operation applies: the emitted Rust computes what `apply_op` computes.
pub proof fn lemma_rust_line_constant(op: MicroOp, keys: Seq<u64>, x: u64)
    requires
        op is MulOdd || op is AddConst || op is XorConst,
    ensures
        op is MulOdd ==> rust_line(op) == "    x = x.wrapping_mul(0x"@ + rust_line(op).subrange(25, 41) + ");\n"@
            && hex_word(rust_line(op).subrange(25, 41))
            && apply_op(op, keys, x) == wrapping_mul(x, hex_value(rust_line(op).subrange(25, 41)) as u64),
        op is AddConst ==> rust_line(op) == "    x = x.wrapping_add(0x"@ + rust_line(op).subrange(25, 41) + ");\n"@
            && hex_word(rust_line(op).subrange(25, 41))
            && apply_op(op, keys, x) == wrapping_add(x, hex_value(rust_line(op).subrange(25, 41)) as u64),
        op is XorConst ==> rust_line(op) == "    x ^= 0x"@ + rust_line(op).subrange(11, 27) + ";\n"@
            && hex_word(rust_line(op).subrange(11, 27))
            && apply_op(op, keys, x) == x ^ (hex_value(rust_line(op).subrange(11, 27)) as u64),
{
    reveal_strlit("0x");
    reveal_strlit(");\n");
    reveal_strlit(";\n");
    reveal_strlit("    x = x.wrapping_mul(");
    reveal_strlit("    x = x.wrapping_add(");
    reveal_strlit("    x ^= ");
    reveal_strlit("    x = x.wrapping_mul(0x");
    reveal_strlit("    x = x.wrapping_add(0x");
    reveal_strlit("    x ^= 0x");
    let c: u64 = match op {
        MicroOp::MulOdd(c) => c | 1,
        MicroOp::AddConst(c) => c,
        MicroOp::XorConst(c) => c,
        _ => 0,
    };
    lemma_hex_literal_read_back(c);
    let digits = hex_digits(c as nat, 16);
    if op is MulOdd {
        assert(rust_line(op).subrange(25, 41) =~= digits);
        assert(rust_line(op) =~= "    x = x.wrapping_mul(0x"@ + digits + ");\n"@);
    } else if op is AddConst {
        assert(rust_line(op).subrange(25, 41) =~= digits);
        assert(rust_line(op) =~= "    x = x.wrapping_add(0x"@ + digits + ");\n"@);
    } else {
        assert(rust_line(op).subrange(11, 27) =~= digits);
        assert(rust_line(op) =~= "    x ^= 0x"@ + digits + ";\n"@);
    }
}

/// `ch` is one of `0-9`.
pub open spec fn is_dec_digit(ch: char) -> bool {
    48 <= ch as int <= 57
}

/// One or more decimal digits.
pub open spec fn dec_word(s: Seq<char>) -> bool {
    s.len() >= 1 && forall|i: int| 0 <= i < s.len() ==> #[trigger] is_dec_digit(s[i])
}

/// The number that the decimal digits `s` spell, most significant first.
pub open spec fn dec_value(s: Seq<char>) -> nat
    decreases s.len(),
{
    if s.len() == 0 {
        0
    } else {
        dec_value(s.drop_last()) * 10 + (s.last() as int - 48) as nat
    }
}

/// The digits of `dec_literal(v)` spell `v`.
proof fn lemma_dec_literal_read_back(v: nat)
    ensures
        dec_word(dec_literal(v)),
        dec_value(dec_literal(v)) == v,
    decreases v,
{
    let d = dec_literal(v);
    if v < 10 {
        assert(d.drop_last() =~= Seq::<char>::empty());
        assert(hex_char(v) as int == 48 + v);
        assert(dec_value(d.drop_last()) == 0);
    } else {
        lemma_dec_literal_read_back(v / 10);
        assert(d.drop_last() =~= dec_literal(v / 10));
        assert(hex_char(v % 10) as int == 48 + v % 10);
        assert(v / 10 * 10 + v % 10 == v);
        assert forall|i: int| 0 <= i < d.len() implies #[trigger] is_dec_digit(d[i]) by {
            if i < d.len() - 1 {
                assert(d[i] == d.drop_last()[i]);
            }
        }
    }
}

/// The C statement of a shift or rotation carries its amount in decimal, and
/// the statement computes what `apply_op` computes with that amount.
pub proof fn lemma_c_line_shift(op: MicroOp, keys: Seq<u64>, x: u64)
    ensures
        op matches MicroOp::XorShr(k) ==> exists|d: Seq<char>|
            dec_word(d) && dec_value(d) == k && #[trigger] c_line(op) == "    x ^= (x >> "@ + d + ");\n"@
                && apply_op(op, keys, x) == x ^ (x >> (dec_value(d) as u64)),
        op matches MicroOp::XorShl(k) ==> exists|d: Seq<char>|
            dec_word(d) && dec_value(d) == k && #[trigger] c_line(op) == "    x ^= (x << "@ + d + ");\n"@
                && apply_op(op, keys, x) == x ^ (x << (dec_value(d) as u64)),
        op matches MicroOp::Ror(k) ==> exists|d: Seq<char>|
            dec_word(d) && dec_value(d) == k
                && #[trigger] c_line(op) == "    x = (x >> "@ + d + ") | (x << (64 - "@ + d + "));\n"@
                && apply_op(op, keys, x) == rotr(x, dec_value(d) as u64),
{
    match op {
        MicroOp::XorShr(k) | MicroOp::XorShl(k) | MicroOp::Ror(k) => {
            lemma_dec_literal_read_back(k as nat);
            let d = dec_literal(k as nat);
            assert(dec_value(d) as u64 == k as u64);
            assert(c_line(op) == c_line(op));
        },
        _ => {},
    }
}

/// The Rust statement of a shift or rotation carries its amount in decimal,
/// and the statement computes what `apply_op` computes with that amount.
pub proof fn lemma_rust_line_shift(op: MicroOp, keys: Seq<u64>, x: u64)
    ensures
        op matches MicroOp::XorShr(k) ==> exists|d: Seq<char>|
            dec_word(d) && dec_value(d) == k && #[trigger] rust_line(op) == "    x ^= x >> "@ + d + ";\n"@
                && apply_op(op, keys, x) == x ^ (x >> (dec_value(d) as u64)),
        op matches MicroOp::XorShl(k) ==> exists|d: Seq<char>|
            dec_word(d) && dec_value(d) == k && #[trigger] rust_line(op) == "    x ^= x << "@ + d + ";\n"@
                && apply_op(op, keys, x) == x ^ (x << (dec_value(d) as u64)),
        op matches MicroOp::Ror(k) ==> exists|d: Seq<char>|
            dec_word(d) && dec_value(d) == k
                && #[trigger] rust_line(op) == "    x = x.rotate_right("@ + d + ");\n"@
                && apply_op(op, keys, x) == rotr(x, dec_value(d) as u64),
{
    match op {
        MicroOp::XorShr(k) | MicroOp::XorShl(k) | MicroOp::Ror(k) => {
            lemma_dec_literal_read_back(k as nat);
            let d = dec_literal(k as nat);
            assert(dec_value(d) as u64 == k as u64);
        },
        _ => {},
    }
}

} // verus!
