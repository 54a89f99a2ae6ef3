use wirecut::ast::{KernelAST, MicroOp};

#[test]
fn test_bijective_roundtrip_all_edge_cases() {
    let kernel = KernelAST::new(vec![
        MicroOp::KeyXor(0),
        MicroOp::MulOdd(0x9E3779B97F4A7C15),
        MicroOp::XorShr(29),
        MicroOp::KeyXor(1),
        MicroOp::AddConst(0xBF58476D1CE4E5B9),
        MicroOp::Ror(31),
        MicroOp::XorShl(17),
    ]);

    let keys = [0x517CC1B727220A95, 0xBF58476D1CE4E5B9];
    let edge_cases = [
        0u64,
        1u64,
        u64::MAX,
        0x5555555555555555,
        0xAAAAAAAAAAAAAAAA,
        0x0123456789ABCDEF,
        0xFEDCBA9876543210,
    ];

    for &x in &edge_cases {
        let enc = kernel.eval_keyed(x, &keys);
        let dec = kernel.invert_keyed(enc, &keys);
        assert_eq!(dec, x, "Inversion failed on edge case: {:#018X}", x);
    }

    for bit in 0..64 {
        let walking_one = 1u64 << bit;
        let enc = kernel.eval_keyed(walking_one, &keys);
        let dec = kernel.invert_keyed(enc, &keys);
        assert_eq!(dec, walking_one, "Walking one failed at bit {}", bit);
    }
}

#[test]
fn test_hashdos_key_separation() {
    let kernel = KernelAST::new(vec![
        MicroOp::KeyXor(0),
        MicroOp::MulOdd(0x9E3779B97F4A7C15),
        MicroOp::XorShr(31),
        MicroOp::KeyXor(1),
        MicroOp::MulOdd(0xBF58476D1CE4E5B9),
    ]);

    let x = 0xCAFEBABE12345678u64;
    let keys_a = [0x0000000000000001, 0x0000000000000000];
    let keys_b = [0x0000000000000002, 0x0000000000000000];

    let out_a = kernel.eval_keyed(x, &keys_a);
    let out_b = kernel.eval_keyed(x, &keys_b);

    let diff_bits = (out_a ^ out_b).count_ones();
    assert!(diff_bits >= 20, "Insufficient key separation bit diffusion: {}", diff_bits);
}

#[test]
fn test_keyed_bijectivity_full_domain() {
    let ast = KernelAST::new(vec![
        MicroOp::KeyXor(0),
        MicroOp::MulOdd(0x9E3779B97F4A7C15),
        MicroOp::XorShr(17),
        MicroOp::KeyXor(1),
        MicroOp::AddConst(0xBF58476D1CE4E5B9),
        MicroOp::Ror(23),
        MicroOp::XorShl(19),
    ]);

    let keys = [0xDEADBEEFCAFEBABE, 0x0123456789ABCDEF];
    let inputs = [0u64, 1u64, u64::MAX, 0xCAFEBABEDEADBEEF, 0x0123456789ABCDEF];
    for &x in &inputs {
        let y = ast.eval_keyed(x, &keys);
        let inv = ast.invert_keyed(y, &keys);
        assert_eq!(inv, x);
    }
}

#[test]
fn eval_after_invert_gives_back_the_output() {
    let kernel = KernelAST::new(vec![
        MicroOp::XorShl(1),
        MicroOp::MulOdd(2),
        MicroOp::XorShr(63),
        MicroOp::KeyXor(3),
        MicroOp::XorConst(0xFFFF0000FFFF0000),
        MicroOp::Ror(200),
        MicroOp::AddConst(u64::MAX),
    ]);
    let keys = [0x1111111111111111, 0x2222222222222222];
    for y in [0u64, 7, u64::MAX, 0x8000000000000000, 0x0123456789ABCDEF] {
        let x = kernel.invert_keyed(y, &keys);
        assert_eq!(kernel.eval_keyed(x, &keys), y);
    }
}

#[test]
fn single_operations_have_the_documented_effect() {
    let keys = [0xAAAA, 0x5555];
    let x = 0x0123456789ABCDEFu64;
    let one = |op: MicroOp| KernelAST::new(vec![op]).eval_keyed(x, &keys);
    assert_eq!(one(MicroOp::MulOdd(2)), x.wrapping_mul(3));
    assert_eq!(one(MicroOp::AddConst(5)), x + 5);
    assert_eq!(one(MicroOp::XorConst(0xFF)), x ^ 0xFF);
    assert_eq!(one(MicroOp::Ror(8)), x.rotate_right(8));
    assert_eq!(one(MicroOp::Ror(72)), x.rotate_right(8));
    assert_eq!(one(MicroOp::XorShr(4)), x ^ (x >> 4));
    assert_eq!(one(MicroOp::XorShl(4)), x ^ (x << 4));
    assert_eq!(one(MicroOp::KeyXor(0)), x ^ 0xAAAA);
    assert_eq!(one(MicroOp::KeyXor(3)), x ^ 0x5555);
}

#[test]
fn unkeyed_entry_points_use_zero_keys() {
    let kernel = KernelAST::new(vec![MicroOp::KeyXor(0), MicroOp::MulOdd(0x10), MicroOp::KeyXor(1)]);
    let x = 0xDEADBEEF;
    assert_eq!(kernel.eval(x), x.wrapping_mul(0x11));
    assert_eq!(kernel.eval(x), kernel.eval_keyed(x, &[0, 0]));
    assert_eq!(kernel.invert(kernel.eval(x)), x);
}

#[test]
fn each_inverse_undoes_its_operation() {
    let keys = [3, 9];
    let ops = [
        MicroOp::MulOdd(0x9E3779B97F4A7C14),
        MicroOp::AddConst(1),
        MicroOp::XorConst(77),
        MicroOp::Ror(0),
        MicroOp::Ror(63),
        MicroOp::XorShr(1),
        MicroOp::XorShr(32),
        MicroOp::XorShl(1),
        MicroOp::XorShl(63),
        MicroOp::KeyXor(1),
    ];
    for op in ops {
        let kernel = KernelAST::new(vec![op]);
        for x in [0u64, 1, u64::MAX, 0x8000000000000001, 0x5A5A5A5A5A5A5A5A] {
            assert_eq!(kernel.invert_keyed(kernel.eval_keyed(x, &keys), &keys), x, "{:?} on {:#x}", op, x);
            assert_eq!(kernel.eval_keyed(kernel.invert_keyed(x, &keys), &keys), x, "{:?} on {:#x}", op, x);
        }
    }
}

#[test]
fn degenerate_shifts_invert_to_the_identity() {
    let kernel = KernelAST::new(vec![MicroOp::XorShr(0), MicroOp::XorShl(0), MicroOp::XorShr(64), MicroOp::XorShl(200)]);
    for y in [0u64, 1, 0xFFFF, u64::MAX] {
        assert_eq!(kernel.invert(y), y);
    }
}

#[test]
fn type_index_numbers_the_families() {
    assert_eq!(MicroOp::MulOdd(1).type_index(), 0);
    assert_eq!(MicroOp::XorShr(1).type_index(), 1);
    assert_eq!(MicroOp::Ror(1).type_index(), 2);
    assert_eq!(MicroOp::AddConst(1).type_index(), 3);
    assert_eq!(MicroOp::XorConst(1).type_index(), 4);
    assert_eq!(MicroOp::KeyXor(1).type_index(), 5);
    assert_eq!(MicroOp::XorShl(1).type_index(), 6);
}
