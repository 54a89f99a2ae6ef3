//! Bit-level building blocks of the micro-operations: rotations, the
//! xorshift steps and their inverses, and the inverse of an odd
//! multiplier modulo 2^64.
use vstd::prelude::*;
use vstd::arithmetic::power2::{pow2, lemma_pow2_adds, lemma_pow2_pos, lemma_pow2_strictly_increases, lemma2_to64, lemma2_to64_rest};
use vstd::arithmetic::div_mod::{
    lemma_div_denominator, lemma_basic_div, lemma_fundamental_div_mod, lemma_mod_mod,
    lemma_mod_multiples_vanish, lemma_small_mod, lemma_mul_mod_noop_left, lemma_mul_mod_noop_right,
};
use vstd::arithmetic::mul::lemma_mul_is_associative;
use vstd::wrapping::u64_specs::{wrapping_mul, wrapping_sub};
use vstd::bits::lemma_u64_shr_is_div;

verus! {

// ---------------------------------------------------------------------------
// Shift arithmetic
// ---------------------------------------------------------------------------

/// Two logical right shifts add up; past 63 bits nothing is left.
pub proof fn lemma_shr_shr(a: u64, s: u64, k: u64)
    requires
        s < 64,
        k < 64,
    ensures
        s + k < 64 ==> (a >> s) >> k == a >> ((s + k) as u64),
        s + k >= 64 ==> (a >> s) >> k == 0,
{
    lemma_u64_shr_is_div(a, s);
    lemma_u64_shr_is_div(a >> s, k);
    lemma_pow2_pos(s as nat);
    lemma_pow2_pos(k as nat);
    lemma_div_denominator(a as int, pow2(s as nat) as int, pow2(k as nat) as int);
    lemma_pow2_adds(s as nat, k as nat);
    if s + k < 64 {
        lemma_u64_shr_is_div(a, (s + k) as u64);
    } else {
        lemma2_to64_rest();
        if s + k > 64 {
            lemma_pow2_strictly_increases(64, (s + k) as nat);
        }
        lemma_basic_div(a as int, pow2((s + k) as nat) as int);
    }
}

/// Two left shifts add up; past 63 bits nothing is left.
pub proof fn lemma_shl_shl(a: u64, s: u64, k: u64)
    requires
        s < 64,
        k < 64,
    ensures
        s + k < 64 ==> (a << s) << k == a << ((s + k) as u64),
        s + k >= 64 ==> (a << s) << k == 0,
{
    if s + k < 64 {
        let t = (s + k) as u64;
        assert((a << s) << k == a << t) by (bit_vector)
            requires
                s < 64,
                k < 64,
                t == s + k,
                t < 64,
        ;
    } else {
        assert((a << s) << k == 0) by (bit_vector)
            requires
                s < 64,
                k < 64,
                s + k >= 64,
        ;
    }
}

proof fn lemma_xor_shr(a: u64, b: u64, k: u64)
    by (bit_vector)
    requires
        k < 64,
    ensures
        (a ^ b) >> k == (a >> k) ^ (b >> k),
{
}

proof fn lemma_xor_shl(a: u64, b: u64, k: u64)
    by (bit_vector)
    requires
        k < 64,
    ensures
        (a ^ b) << k == (a << k) ^ (b << k),
{
}

/// Small bit identities used throughout.
pub proof fn lemma_bit_basics(x: u64, y: u64)
    by (bit_vector)
    ensures
        (x ^ y) ^ y == x,
        x ^ 0u64 == x,
        0u64 | x == x,
        x % 2 == 1 ==> x | 1 == x,
        (x | 1) % 2 == 1,
        x & 1 <= 1,
        (x & 1) ^ (y & 1) <= 1,
        x & 0xFF < 256,
        x ^ y == 0 ==> x == y,
        0u64 >> x == 0,
        0u64 << x == 0,
        0u64 & 1 == 0,
{
}

/// Small identities on one-byte operands.
pub proof fn lemma_u8_basics(u: u8)
    by (bit_vector)
    ensures
        u & 1 < 2,
        (u & 1) * 8 < 256,
        u & 63 == u % 64,
{
}

proof fn lemma_shift_zero(a: u64)
    by (bit_vector)
    ensures
        a + 0u64 == a,
        a >> 0u64 == a,
        a << 0u64 == a,
{
}

// ---------------------------------------------------------------------------
// x ^= x >> k and its inverse
// ---------------------------------------------------------------------------

/// `(y >> s) ^ (y >> (s + k)) ^ (y >> (s + 2k)) ^ ...`, over the shifts below 64.
pub open spec fn shr_series(y: u64, k: u64, s: nat) -> u64
    decreases 64 - s,
{
    if s >= 64 || k == 0 {
        0
    } else {
        (y >> (s as u64)) ^ (if s + k < 64 {
            shr_series(y, k, s + k as nat)
        } else {
            0
        })
    }
}

/// The inverse of `x ^= x >> k`: for `1 <= k < 64` the xor of `y >> (j * k)`
/// over all `j` with `j * k < 64`; any other shift leaves `y` as it is.
pub open spec fn unxorshr(y: u64, k: u64) -> u64 {
    if 1 <= k < 64 {
        shr_series(y, k, 0)
    } else {
        y
    }
}

proof fn lemma_shr_series(y: u64, k: u64, s: nat)
    requires
        1 <= k < 64,
        s < 64,
    ensures
        shr_series(y, k, s) ^ (shr_series(y, k, s) >> k) == y >> (s as u64),
    decreases 64 - s,
{
    let t = shr_series(y, k, s + k as nat);
    let ys = y >> (s as u64);
    assert(shr_series(y, k, s) == ys ^ t) by {
        if s + k >= 64 {
            assert(t == 0);
        }
    }
    lemma_xor_shr(ys, t, k);
    lemma_shr_shr(y, s as u64, k);
    if s + k < 64 {
        lemma_shr_series(y, k, s + k as nat);
        assert((ys ^ t) ^ ((ys >> k) ^ (t >> k)) == ys) by (bit_vector)
            requires
                t ^ (t >> k) == ys >> k,
        ;
    } else {
        assert(t == 0);
        assert((ys ^ 0u64) ^ ((ys >> k) ^ (0u64 >> k)) == ys) by (bit_vector)
            requires
                ys >> k == 0,
                k < 64,
        ;
    }
}

/// `x ^= x >> k` is one-to-one for `1 <= k < 64`.
pub proof fn lemma_xorshr_injective(a: u64, b: u64, k: u64)
    requires
        1 <= k < 64,
        a ^ (a >> k) == b ^ (b >> k),
    ensures
        a == b,
{
    let d = a ^ b;
    assert(d == d >> k) by (bit_vector)
        requires
            d == a ^ b,
            a ^ (a >> k) == b ^ (b >> k),
            k < 64,
    ;
    lemma_u64_shr_is_div(d, k);
    lemma_pow2_pos(k as nat);
    if k > 1 {
        lemma_pow2_strictly_increases(1, k as nat);
    }
    lemma2_to64();
    assert(d == 0) by (nonlinear_arith)
        requires
            d == d as nat / pow2(k as nat),
            pow2(k as nat) >= 2,
            d >= 0,
    ;
    lemma_bit_basics(a, b);
}

/// `unxorshr` undoes `x ^= x >> k` from either side, for `1 <= k < 64`.
pub proof fn lemma_unxorshr(x: u64, y: u64, k: u64)
    requires
        1 <= k < 64,
    ensures
        unxorshr(y, k) ^ (unxorshr(y, k) >> k) == y,
        unxorshr(x ^ (x >> k), k) == x,
{
    lemma_shr_series(y, k, 0);
    lemma_shift_zero(y);
    let y2 = x ^ (x >> k);
    lemma_shr_series(y2, k, 0);
    lemma_shift_zero(y2);
    lemma_xorshr_injective(unxorshr(y2, k), x, k);
}

spec fn unshr_partial(orig: u64, y: u64, k: u64, lo: u64) -> bool {
    &&& (orig >> lo) << lo == orig
    &&& (orig ^ (orig >> k)) >> lo == y >> lo
}

proof fn lemma_unshr_first(y: u64, k: u64, b: u64, orig: u64)
    by (bit_vector)
    requires
        1 <= k < 64,
        b == (y >> 63u64) & 1,
        orig == 0u64 | (b << 63u64),
    ensures
        (orig >> 63u64) << 63u64 == orig,
        (orig ^ (orig >> k)) >> 63u64 == y >> 63u64,
{
}

proof fn lemma_unshr_core(u: u64, v: u64, k: u64, b: u64)
    by (bit_vector)
    requires
        1 <= k < 64,
        u & 1 == 0,
        (u ^ (u >> k)) >> 1 == v >> 1,
        b == (v & 1) ^ ((u >> k) & 1),
    ensures
        (u | b) ^ ((u | b) >> k) == v,
{
}

proof fn lemma_unshr_low(orig: u64, i: u64, b: u64)
    by (bit_vector)
    requires
        i < 63,
        b <= 1,
        (orig >> (i + 1)) << (i + 1) == orig,
    ensures
        (orig >> i) & 1 == 0,
        (orig | (b << i)) >> i == (orig >> i) | b,
        ((orig | (b << i)) >> i) << i == orig | (b << i),
{
}

proof fn lemma_shr_succ(a: u64, i: u64)
    by (bit_vector)
    requires
        i < 63,
    ensures
        a >> (i + 1) == (a >> i) >> 1,
{
}

proof fn lemma_unshr_step(orig: u64, y: u64, k: u64, i: u64, b: u64, orig2: u64)
    requires
        i < 63,
        1 <= k < 64,
        unshr_partial(orig, y, k, (i + 1) as u64),
        b == ((y >> i) & 1) ^ (if i + k < 64 { (orig >> ((i + k) as u64)) & 1 } else { 0 }),
        orig2 == orig | (b << i),
    ensures
        unshr_partial(orig2, y, k, i),
{
    let u = orig >> i;
    let v = y >> i;
    let z = orig ^ (orig >> k);
    let c = if i + k < 64 { (orig >> ((i + k) as u64)) & 1 } else { 0 };
    lemma_bit_basics(y >> i, orig >> ((i + k) as u64));
    lemma_bit_basics((y >> i) & 1, 0);
    lemma_unshr_low(orig, i, b);
    lemma_shr_succ(z, i);
    lemma_shr_succ(y, i);
    lemma_xor_shr(orig, orig >> k, i);
    lemma_shr_shr(orig, k, i);
    lemma_shr_shr(orig, i, k);
    assert((u ^ (u >> k)) >> 1 == v >> 1);
    assert(c == (u >> k) & 1) by {
        if i + k >= 64 {
            assert(u >> k == 0);
            lemma_bit_basics(0, 0);
        }
    }
    lemma_unshr_core(u, v, k, b);
    lemma_xor_shr(orig2, orig2 >> k, i);
    lemma_shr_shr(orig2, k, i);
    lemma_shr_shr(orig2, i, k);
}

proof fn lemma_unshr_identity_low(orig: u64, y: u64, i: u64)
    by (bit_vector)
    requires
        i < 63,
        orig == (y >> (i + 1)) << (i + 1),
    ensures
        (orig >> i) & 1 == 0,
{
}

proof fn lemma_unshr_identity_step(orig: u64, y: u64, i: u64, b: u64, orig2: u64)
    by (bit_vector)
    requires
        i < 63,
        orig == (y >> (i + 1)) << (i + 1),
        b == (y >> i) & 1,
        orig2 == orig | (b << i),
    ensures
        orig2 == (y >> i) << i,
        (orig >> i) & 1 == 0,
{
}

/// Undoes `x ^= x >> k` bit by bit, from the top bit down.
pub fn invert_xor_shr(y: u64, k: u8) -> (x: u64)
    ensures
        x == unxorshr(y, k as u64),
{
    let kk = k as u64;
    let mut orig: u64 = 0;
    let mut i: u64 = 64;
    while i > 0
        invariant
            i <= 64,
            kk == k as u64,
            i == 64 ==> orig == 0,
            i < 64 && 1 <= kk < 64 ==> unshr_partial(orig, y, kk, i),
            i < 64 && !(1 <= kk < 64) ==> orig == (y >> i) << i,
        decreases i,
    {
        i = i - 1;
        let bit_y = (y >> i) & 1;
        let bit_x_k = if i + kk < 64 {
            (orig >> (i + kk)) & 1
        } else {
            0
        };
        let ghost old_orig = orig;
        let b = bit_y ^ bit_x_k;
        proof {
            lemma_bit_basics(y >> i, old_orig >> ((i + kk) as u64));
            lemma_bit_basics(bit_y, 0);
        }
        orig = orig | (b << i);
        proof {
            if 1 <= kk < 64 {
                if i == 63 {
                    assert(bit_x_k == 0);
                    lemma_unshr_first(y, kk, b, orig);
                } else {
                    lemma_unshr_step(old_orig, y, kk, i, b, orig);
                }
            } else if i == 63 {
                lemma_bit_basics(63, 0);
                assert(bit_x_k == 0);
                assert(orig == (y >> 63u64) << 63u64) by (bit_vector)
                    requires
                        orig == 0u64 | (b << 63u64),
                        b == (y >> 63u64) & 1,
                ;
            } else {
                lemma_unshr_identity_low(old_orig, y, i);
                if kk == 0 {
                    lemma_shift_zero(i);
                }
                assert(bit_x_k == 0);
                lemma_unshr_identity_step(old_orig, y, i, b, orig);
            }
        }
    }
    proof {
        lemma_shift_zero(orig);
        lemma_shift_zero(y);
        lemma_shift_zero(orig ^ (orig >> kk));
        if 1 <= kk < 64 {
            lemma_unxorshr(orig, y, kk);
            lemma_xorshr_injective(orig, unxorshr(y, kk), kk);
        }
    }
    orig
}

// ---------------------------------------------------------------------------
// x ^= x << k and its inverse
// ---------------------------------------------------------------------------

/// `(y << s) ^ (y << (s + k)) ^ (y << (s + 2k)) ^ ...`, over the shifts below 64.
pub open spec fn shl_series(y: u64, k: u64, s: nat) -> u64
    decreases 64 - s,
{
    if s >= 64 || k == 0 {
        0
    } else {
        (y << (s as u64)) ^ (if s + k < 64 {
            shl_series(y, k, s + k as nat)
        } else {
            0
        })
    }
}

/// The inverse of `x ^= x << k`: for `1 <= k < 64` the xor of `y << (j * k)`
/// over all `j` with `j * k < 64`; any other shift leaves `y` as it is.
pub open spec fn unxorshl(y: u64, k: u64) -> u64 {
    if 1 <= k < 64 {
        shl_series(y, k, 0)
    } else {
        y
    }
}

proof fn lemma_shl_series(y: u64, k: u64, s: nat)
    requires
        1 <= k < 64,
        s < 64,
    ensures
        shl_series(y, k, s) ^ (shl_series(y, k, s) << k) == y << (s as u64),
    decreases 64 - s,
{
    let t = if s + k < 64 { shl_series(y, k, s + k as nat) } else { 0 };
    let ys = y << (s as u64);
    assert(shl_series(y, k, s) == ys ^ t);
    lemma_xor_shl(ys, t, k);
    lemma_shl_shl(y, s as u64, k);
    if s + k < 64 {
        lemma_shl_series(y, k, s + k as nat);
        assert((ys ^ t) ^ ((ys << k) ^ (t << k)) == ys) by (bit_vector)
            requires
                t ^ (t << k) == ys << k,
        ;
    } else {
        assert((ys ^ 0u64) ^ ((ys << k) ^ (0u64 << k)) == ys) by (bit_vector)
            requires
                ys << k == 0,
                k < 64,
        ;
    }
}

/// `x ^= x << k` is one-to-one for `1 <= k < 64`.
pub proof fn lemma_xorshl_injective(a: u64, b: u64, k: u64)
    requires
        1 <= k < 64,
        a ^ (a << k) == b ^ (b << k),
    ensures
        a == b,
{
    let d = a ^ b;
    assert(d == d << k) by (bit_vector)
        requires
            d == a ^ b,
            a ^ (a << k) == b ^ (b << k),
            k < 64,
    ;
    assert(d == 0) by (bit_vector)
        requires
            1 <= k < 64,
            d == d << k,
    ;
    lemma_bit_basics(a, b);
}

/// `unxorshl` undoes `x ^= x << k` from either side, for `1 <= k < 64`.
pub proof fn lemma_unxorshl(x: u64, y: u64, k: u64)
    requires
        1 <= k < 64,
    ensures
        unxorshl(y, k) ^ (unxorshl(y, k) << k) == y,
        unxorshl(x ^ (x << k), k) == x,
{
    lemma_shl_series(y, k, 0);
    lemma_shift_zero(y);
    let y2 = x ^ (x << k);
    lemma_shl_series(y2, k, 0);
    lemma_shift_zero(y2);
    lemma_xorshl_injective(unxorshl(y2, k), x, k);
}

spec fn unshl_partial(orig: u64, y: u64, k: u64, t: u64) -> bool {
    &&& (orig << t) >> t == orig
    &&& (orig ^ (orig << k)) << t == y << t
}

proof fn lemma_unshl_first(y: u64, k: u64, b: u64)
    by (bit_vector)
    requires
        1 <= k < 64,
        b == (y >> 0u64) & 1,
    ensures
        ((0u64 | (b << 0u64)) << 63u64) >> 63u64 == 0u64 | (b << 0u64),
        ((0u64 | (b << 0u64)) ^ ((0u64 | (b << 0u64)) << k)) << 63u64 == y << 63u64,
{
}

proof fn lemma_unshl_core(u: u64, v: u64, k: u64, b: u64)
    by (bit_vector)
    requires
        1 <= k < 64,
        u >> 63u64 == 0,
        (u ^ (u << k)) << 1u64 == v << 1u64,
        b == ((v >> 63u64) & 1) ^ (((u << k) >> 63u64) & 1),
    ensures
        (u | (b << 63u64)) ^ ((u | (b << 63u64)) << k) == v,
{
}

proof fn lemma_unshl_high(orig: u64, i: u64, s: u64, b: u64)
    by (bit_vector)
    requires
        s + i == 63,
        s < 63,
        b <= 1,
        (orig << (s + 1)) >> (s + 1) == orig,
    ensures
        (orig << s) >> 63u64 == 0,
        (orig | (b << i)) << s == (orig << s) | (b << 63u64),
        ((orig | (b << i)) << s) >> s == orig | (b << i),
        (orig >> i) & 1 == 0,
{
}

proof fn lemma_bit_to_top(a: u64, t: u64, j: u64)
    by (bit_vector)
    requires
        t + j == 63,
    ensures
        (a >> j) & 1 == ((a << t) >> 63u64) & 1,
{
}

proof fn lemma_unshl_glue(orig: u64, k: u64, s: u64)
    requires
        s < 64,
        k < 64,
    ensures
        (orig ^ (orig << k)) << s == (orig << s) ^ ((orig << s) << k),
{
    lemma_xor_shl(orig, orig << k, s);
    lemma_shl_shl(orig, k, s);
    lemma_shl_shl(orig, s, k);
}

proof fn lemma_unshl_step(orig: u64, y: u64, k: u64, i: u64, s: u64, b: u64, orig2: u64)
    requires
        1 <= i < 64,
        s + i == 63,
        1 <= k < 64,
        unshl_partial(orig, y, k, (s + 1) as u64),
        b == ((y >> i) & 1) ^ (if i >= k { (orig >> ((i - k) as u64)) & 1 } else { 0 }),
        orig2 == orig | (b << i),
    ensures
        unshl_partial(orig2, y, k, s),
{
    let u = orig << s;
    let v = y << s;
    let c = if i >= k { (orig >> ((i - k) as u64)) & 1 } else { 0 };
    lemma_bit_basics(y >> i, orig >> ((i - k) as u64));
    lemma_bit_basics((y >> i) & 1, 0);
    lemma_unshl_high(orig, i, s, b);
    lemma_unshl_glue(orig, k, s);
    let z = orig ^ (orig << k);
    lemma_shl_shl(z, s, 1);
    lemma_shl_shl(y, s, 1);
    lemma_shl_shl(u, k, 1);
    assert((u ^ (u << k)) << 1u64 == v << 1u64);
    lemma_bit_to_top(y, s, i);
    lemma_shl_shl(orig, s, k);
    assert(c == ((u << k) >> 63u64) & 1) by {
        if i >= k {
            lemma_bit_to_top(orig, (s + k) as u64, (i - k) as u64);
        } else {
            assert(u << k == 0);
            lemma_bit_basics(63, 0);
        }
    }
    lemma_unshl_core(u, v, k, b);
    lemma_unshl_glue(orig2, k, s);
}

proof fn lemma_unshl_identity_step(orig: u64, y: u64, i: u64, s: u64, b: u64)
    by (bit_vector)
    requires
        s + i == 63,
        s < 63,
        orig == (y << (s + 1)) >> (s + 1),
        b == (y >> i) & 1,
    ensures
        orig | (b << i) == (y << s) >> s,
        (orig >> i) & 1 == 0,
{
}

proof fn lemma_unshl_identity_low(orig: u64, y: u64, i: u64, s: u64)
    by (bit_vector)
    requires
        s + i == 63,
        s < 63,
        orig == (y << (s + 1)) >> (s + 1),
    ensures
        (orig >> i) & 1 == 0,
{
}

/// Undoes `x ^= x << k` bit by bit, from the bottom bit up.
pub fn invert_xor_shl(y: u64, k: u8) -> (x: u64)
    ensures
        x == unxorshl(y, k as u64),
{
    let kk = k as u64;
    let mut orig: u64 = 0;
    let mut i: u64 = 0;
    while i < 64
        invariant
            i <= 64,
            kk == k as u64,
            i == 0 ==> orig == 0,
            0 < i && 1 <= kk < 64 ==> unshl_partial(orig, y, kk, (64 - i) as u64),
            0 < i && !(1 <= kk < 64) ==> orig == (y << ((64 - i) as u64)) >> ((64 - i) as u64),
        decreases 64 - i,
    {
        let bit_y = (y >> i) & 1;
        let bit_x_k = if i >= kk {
            (orig >> (i - kk)) & 1
        } else {
            0
        };
        let ghost old_orig = orig;
        let b = bit_y ^ bit_x_k;
        proof {
            lemma_bit_basics(y >> i, old_orig >> ((i - kk) as u64));
            lemma_bit_basics(bit_y, 0);
        }
        orig = orig | (b << i);
        proof {
            let s = (63 - i) as u64;
            if i == 0 {
                lemma_bit_basics(0, 0);
                assert(bit_x_k == 0);
                assert(b == (y >> 0u64) & 1);
                if 1 <= kk < 64 {
                    lemma_unshl_first(y, kk, b);
                } else {
                    assert(0u64 | (b << 0u64) == (y << 63u64) >> 63u64) by (bit_vector)
                        requires
                            b == (y >> 0u64) & 1,
                    ;
                }
            } else if 1 <= kk < 64 {
                lemma_unshl_step(old_orig, y, kk, i, s, b, orig);
            } else {
                lemma_unshl_identity_low(old_orig, y, i, s);
                if kk == 0 {
                    lemma_shift_zero(i);
                }
                assert(bit_x_k == 0);
                lemma_unshl_identity_step(old_orig, y, i, s, b);
            }
        }
        i = i + 1;
    }
    proof {
        lemma_shift_zero(orig);
        lemma_shift_zero(y);
        lemma_shift_zero(orig ^ (orig << kk));
        if 1 <= kk < 64 {
            lemma_unxorshl(orig, y, kk);
            lemma_xorshl_injective(orig, unxorshl(y, kk), kk);
        }
    }
    orig
}

// ---------------------------------------------------------------------------
// Rotations
// ---------------------------------------------------------------------------

/// `x` rotated right by `k` bits (taken modulo 64).
pub open spec fn rotr(x: u64, k: u64) -> u64 {
    let s = k % 64;
    if s == 0 {
        x
    } else {
        (x >> s) | (x << ((64 - s) as u64))
    }
}

/// `x` rotated left by `k` bits (taken modulo 64).
pub open spec fn rotl(x: u64, k: u64) -> u64 {
    let s = k % 64;
    if s == 0 {
        x
    } else {
        (x << s) | (x >> ((64 - s) as u64))
    }
}

/// Rotating left by `k` undoes rotating right by `k`, and the other way round.
pub proof fn lemma_rot_inverse(x: u64, k: u64)
    ensures
        rotl(rotr(x, k), k) == x,
        rotr(rotl(x, k), k) == x,
{
    let s = k % 64;
    if s != 0 {
        let t = (64 - s) as u64;
        assert(((((x >> s) | (x << t)) << s) | (((x >> s) | (x << t)) >> t)) == x) by (bit_vector)
            requires
                1 <= s < 64,
                s + t == 64,
        ;
        assert(((((x << s) | (x >> t)) >> s) | (((x << s) | (x >> t)) << t)) == x) by (bit_vector)
            requires
                1 <= s < 64,
                s + t == 64,
        ;
    }
}

/// Rotates `x` right by `k` bits (modulo 64).
pub fn rotate_right(x: u64, k: u8) -> (r: u64)
    ensures
        r == rotr(x, k as u64),
{
    let s = (k % 64) as u64;
    if s == 0 {
        x
    } else {
        (x >> s) | (x << (64 - s))
    }
}

/// Rotates `x` left by `k` bits (modulo 64).
pub fn rotate_left(x: u64, k: u8) -> (r: u64)
    ensures
        r == rotl(x, k as u64),
{
    let s = (k % 64) as u64;
    if s == 0 {
        x
    } else {
        (x << s) | (x >> (64 - s))
    }
}

// ---------------------------------------------------------------------------
// Multiplicative inverse of an odd number modulo 2^64
// ---------------------------------------------------------------------------

/// The number `v` with `a * v == 1` modulo 2^64 (it exists, and is unique,
/// exactly when `a` is odd).
pub open spec fn odd_inverse(a: u64) -> u64 {
    choose|v: u64| wrapping_mul(a, v) == 1
}

/// One Newton step `v (2 - a v)` towards the inverse of `a` modulo 2^64.
pub open spec fn newton_step(a: u64, v: u64) -> u64 {
    wrapping_mul(v, wrapping_sub(2, wrapping_mul(a, v)))
}

proof fn lemma_mod_pow2_weaken(x: int, e1: nat, e2: nat)
    requires
        e1 <= e2,
    ensures
        (x % pow2(e2) as int) % pow2(e1) as int == x % pow2(e1) as int,
{
    lemma_pow2_pos(e1);
    lemma_pow2_pos((e2 - e1) as nat);
    lemma_pow2_adds(e1, (e2 - e1) as nat);
    lemma_mod_mod(x, pow2(e1) as int, pow2((e2 - e1) as nat) as int);
}

proof fn lemma_newton_square(p: int, e: nat)
    requires
        e >= 1,
        p >= 0,
        p % pow2(e) as int == 1,
    ensures
        (p * (2 - p)) % pow2(2 * e) as int == 1,
{
    let m = pow2(e) as int;
    lemma_pow2_pos(e);
    lemma_pow2_adds(e, e);
    lemma_fundamental_div_mod(p, m);
    let q = p / m;
    assert(p * (2 - p) == (m * m) * (-(q * q)) + 1) by (nonlinear_arith)
        requires
            p == m * q + 1,
    ;
    lemma_pow2_strictly_increases(0, 2 * e);
    lemma2_to64();
    lemma_mod_multiples_vanish(-(q * q), 1, m * m);
    lemma_small_mod(1, (m * m) as nat);
}

/// A Newton step doubles the number of low bits in which `a * v` agrees with 1.
pub proof fn lemma_newton_step(a: u64, v: u64, e: nat)
    requires
        1 <= e <= 64,
        (wrapping_mul(a, v) as int) % pow2(e) as int == 1,
    ensures
        (wrapping_mul(a, newton_step(a, v)) as int) % pow2(if 2 * e < 64 { 2 * e } else { 64 }) as int == 1,
{
    let big: int = 0x1_0000_0000_0000_0000;
    lemma2_to64_rest();
    let p = wrapping_mul(a, v) as int;
    let w = wrapping_sub(2, wrapping_mul(a, v)) as int;
    let v2 = newton_step(a, v);
    assert(w == (2 - p) % big);
    // a * v2 == p * w == p * (2 - p)  (mod 2^64)
    lemma_mul_mod_noop_right(a as int, v as int * w, big);
    lemma_mul_is_associative(a as int, v as int, w);
    lemma_mul_mod_noop_left(a as int * v as int, w, big);
    lemma_mul_mod_noop_right(p, 2 - p, big);
    assert(wrapping_mul(a, v2) as int == (p * (2 - p)) % big);
    let e2: nat = if 2 * e < 64 { 2 * e } else { 64 };
    lemma_mod_pow2_weaken(p * (2 - p), e2, 64);
    lemma_mod_pow2_weaken(p * (2 - p), e2, 2 * e);
    lemma_newton_square(p, e);
    lemma_pow2_strictly_increases(0, e2);
    lemma2_to64();
    lemma_small_mod(1, pow2(e2));
}

/// An odd number is its own inverse in the low three bits.
proof fn lemma_odd_square(a: u64)
    requires
        a % 2 == 1,
    ensures
        (wrapping_mul(a, a) as int) % pow2(3) as int == 1,
{
    lemma2_to64();
    lemma2_to64_rest();
    lemma_mod_pow2_weaken(a as int * a as int, 3, 64);
    lemma_mul_mod_noop_left(a as int, a as int, 8);
    lemma_mul_mod_noop_right(a as int % 8, a as int, 8);
    lemma_mod_mod(a as int, 2, 4);
    let r = a as int % 8;
    assert(r == 1 || r == 3 || r == 5 || r == 7);
    assert((r * r) % 8 == 1);
}

proof fn lemma_inverse_unique(a: u64, v: u64, w: u64)
    requires
        wrapping_mul(a, v) == 1,
        wrapping_mul(a, w) == 1,
    ensures
        v == w,
{
    let big: int = 0x1_0000_0000_0000_0000;
    // v == v * (a * w) == (v * a) * w == w   (mod 2^64)
    assert((a as int * w as int) % big == 1);
    assert((a as int * v as int) % big == 1);
    lemma_mul_mod_noop_right(v as int, a as int * w as int, big);
    assert((v as int * 1) % big == (v as int * (a as int * w as int)) % big);
    lemma_mul_is_associative(v as int, a as int, w as int);
    lemma_mul_mod_noop_left(v as int * a as int, w as int, big);
    assert(v as int * a as int == a as int * v as int) by (nonlinear_arith);
    assert((1 * w as int) % big == ((v as int * a as int) * w as int) % big);
    lemma_small_mod(v as nat, big as nat);
    lemma_small_mod(w as nat, big as nat);
}

/// Five Newton steps from `a` reach the inverse of an odd `a`.
pub proof fn lemma_odd_inverse(a: u64)
    requires
        a % 2 == 1,
    ensures
        wrapping_mul(a, odd_inverse(a)) == 1,
        newton_step(a, newton_step(a, newton_step(a, newton_step(a, newton_step(a, a)))))
            == odd_inverse(a),
{
    lemma_odd_square(a);
    let v1 = newton_step(a, a);
    lemma_newton_step(a, a, 3);
    let v2 = newton_step(a, v1);
    lemma_newton_step(a, v1, 6);
    let v3 = newton_step(a, v2);
    lemma_newton_step(a, v2, 12);
    let v4 = newton_step(a, v3);
    lemma_newton_step(a, v3, 24);
    let v5 = newton_step(a, v4);
    lemma_newton_step(a, v4, 48);
    lemma2_to64_rest();
    lemma_small_mod(wrapping_mul(a, v5) as nat, pow2(64));
    assert(wrapping_mul(a, v5) == 1);
    lemma_inverse_unique(a, v5, odd_inverse(a));
}

/// The inverse of an odd `a` modulo 2^64, by five Newton steps from `a`.
pub fn odd_mul_inverse(a: u64) -> (inv: u64)
    requires
        a % 2 == 1,
    ensures
        inv == odd_inverse(a),
        wrapping_mul(a, inv) == 1,
{
    let mut inv = a;
    let ghost mut steps: Seq<u64> = seq![a];
    for j in 0..5
        invariant
            steps.len() == j + 1,
            steps[0] == a,
            inv == steps[j as int],
            forall|t: int| 1 <= t <= j ==> #[trigger] steps[t] == newton_step(a, steps[t - 1]),
    {
        inv = inv.wrapping_mul(2u64.wrapping_sub(a.wrapping_mul(inv)));
        proof {
            steps = steps.push(inv);
        }
    }
    proof {
        assert(steps[1] == newton_step(a, steps[0]));
        assert(steps[2] == newton_step(a, steps[1]));
        assert(steps[3] == newton_step(a, steps[2]));
        assert(steps[4] == newton_step(a, steps[3]));
        assert(steps[5] == newton_step(a, steps[4]));
        lemma_odd_inverse(a);
    }
    inv
}

} // verus!
