use wirecut::bits::{invert_xor_shl, invert_xor_shr, odd_mul_inverse, rotate_left, rotate_right};

#[test]
fn odd_inverse_is_a_modular_inverse() {
    for a in [1u64, 3, 0x9E3779B97F4A7C15, u64::MAX, 0x8000000000000001] {
        let inv = odd_mul_inverse(a);
        assert_eq!(a.wrapping_mul(inv), 1);
    }
    assert_eq!(odd_mul_inverse(3), 0xAAAAAAAAAAAAAAAB);
}

#[test]
fn rotations_match_std() {
    for k in [0u8, 1, 31, 63, 64, 100, 255] {
        let x = 0x0123456789ABCDEFu64;
        assert_eq!(rotate_right(x, k), x.rotate_right(k as u32));
        assert_eq!(rotate_left(x, k), x.rotate_left(k as u32));
        assert_eq!(rotate_left(rotate_right(x, k), k), x);
    }
}

#[test]
fn xorshift_inverses() {
    for k in 1u8..64 {
        for x in [0u64, 1, u64::MAX, 0xDEADBEEFCAFEBABE] {
            assert_eq!(invert_xor_shr(x ^ (x >> k), k), x);
            assert_eq!(invert_xor_shl(x ^ (x << k), k), x);
            let y = invert_xor_shr(x, k);
            assert_eq!(y ^ (y >> k), x);
            let z = invert_xor_shl(x, k);
            assert_eq!(z ^ (z << k), x);
        }
    }
    assert_eq!(invert_xor_shr(12345, 0), 12345);
    assert_eq!(invert_xor_shl(12345, 64), 12345);
}
