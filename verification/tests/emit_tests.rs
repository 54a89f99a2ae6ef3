use wirecut::ast::{KernelAST, MicroOp};
use wirecut::jit::{JITEmitter, Target};

fn mixer() -> KernelAST {
    KernelAST::new(vec![
        MicroOp::MulOdd(0x9E3779B97F4A7C15),
        MicroOp::XorShr(31),
        MicroOp::MulOdd(0xBF58476D1CE4E5B9),
        MicroOp::XorShr(31),
    ])
}

#[test]
fn emit_rust_writes_the_mixer_module() {
    let expected = "#[inline(always)]\npub fn wirecut_mix64(mut x: u64) -> u64 {\n    x = x.wrapping_mul(0x9E3779B97F4A7C15);\n    x ^= x >> 31;\n    x = x.wrapping_mul(0xBF58476D1CE4E5B9);\n    x ^= x >> 31;\n    x\n}\n";
    assert_eq!(mixer().emit_rust(), expected);
}

#[test]
fn emit_c_writes_the_mixer_header() {
    let expected = "#ifndef WIRECUT_KERNEL_H\n#define WIRECUT_KERNEL_H\n\n#include <stdint.h>\n\nstatic inline uint64_t wirecut_mix64(uint64_t x) {\n    x *= UINT64_C(0x9E3779B97F4A7C15);\n    x ^= (x >> 31);\n    x *= UINT64_C(0xBF58476D1CE4E5B9);\n    x ^= (x >> 31);\n    return x;\n}\n\n#endif\n";
    assert_eq!(mixer().emit_c(), expected);
}

#[test]
fn emitted_lines_match_format() {
    let k = KernelAST::new(vec![
        MicroOp::MulOdd(0x10),
        MicroOp::AddConst(0xAB),
        MicroOp::XorConst(0),
        MicroOp::Ror(7),
        MicroOp::XorShl(200),
        MicroOp::KeyXor(1),
    ]);
    let c = k.emit_c();
    assert!(c.contains(&format!("    x *= UINT64_C({:#018X});\n", 0x11u64)));
    assert!(c.contains(&format!("    x += UINT64_C({:#018X});\n", 0xABu64)));
    assert!(c.contains(&format!("    x ^= UINT64_C({:#018X});\n", 0u64)));
    assert!(c.contains(&format!("    x = (x >> {}) | (x << (64 - {}));\n", 7, 7)));
    assert!(c.contains("    x ^= (x << 200);\n"));
    let r = k.emit_rust();
    assert!(r.contains(&format!("    x = x.wrapping_mul({:#018X});\n", 0x11u64)));
    assert!(r.contains(&format!("    x = x.wrapping_add({:#018X});\n", 0xABu64)));
    assert!(r.contains(&format!("    x ^= {:#018X};\n", 0u64)));
    assert!(r.contains("    x = x.rotate_right(7);\n"));
    assert!(r.contains("    x ^= x << 200;\n"));
    assert_eq!(r.lines().count(), 2 + 5 + 2);
}

#[test]
fn jit_x86_64_bytes() {
    let k = KernelAST::new(vec![
        MicroOp::KeyXor(1),
        MicroOp::MulOdd(0x0102030405060708),
        MicroOp::XorShr(23),
        MicroOp::Ror(27),
    ]);
    let code = JITEmitter::emit(&k, Target::X86_64SysV);
    let mut expected = vec![0x48, 0x89, 0xF8, 0x49, 0x89, 0xF2];
    expected.extend_from_slice(&[0x49, 0x33, 0x42, 8]);
    expected.extend_from_slice(&[0x48, 0xBA]);
    expected.extend_from_slice(&0x0102030405060709u64.to_le_bytes());
    expected.extend_from_slice(&[0x48, 0x0F, 0xAF, 0xC2]);
    expected.extend_from_slice(&[0x48, 0x89, 0xC2, 0x48, 0xC1, 0xEA, 23, 0x48, 0x31, 0xD0]);
    expected.extend_from_slice(&[0x48, 0xC1, 0xC8, 27]);
    expected.push(0xC3);
    assert_eq!(code, expected);
    let win = JITEmitter::emit(&k, Target::X86_64Win64);
    assert_eq!(&win[..6], &[0x48, 0x89, 0xC8, 0x49, 0x89, 0xD2]);
    assert_eq!(&win[6..], &code[6..]);
}

#[test]
fn jit_aarch64_bytes() {
    let k = KernelAST::new(vec![MicroOp::XorShl(13), MicroOp::KeyXor(0), MicroOp::AddConst(0x1234_5678_9ABC_DEF0)]);
    let code = JITEmitter::emit(&k, Target::Aarch64);
    let words: Vec<u32> = code.chunks(4).map(|c| u32::from_le_bytes([c[0], c[1], c[2], c[3]])).collect();
    let lsl = 0xD3400000u32 | (((64 - 13) & 63) << 16) | ((63 - 13) << 10) | 2;
    assert_eq!(words[0], lsl);
    assert_eq!(words[1], 0xCA020000);
    assert_eq!(words[2], 0xF9400000 | (1 << 5) | 2);
    assert_eq!(words[3], 0xCA020000);
    assert_eq!(words[4], 0xD2800000 | (0xDEF0 << 5) | 2);
    assert_eq!(words[5], 0xF2A00000 | (0x9ABC << 5) | 2);
    assert_eq!(words[6], 0xF2C00000 | (0x5678 << 5) | 2);
    assert_eq!(words[7], 0xF2E00000 | (0x1234 << 5) | 2);
    assert_eq!(words[8], 0x8B020000);
    assert_eq!(words[9], 0xD65F03C0);
    assert_eq!(words.len(), 10);
}

fn x86_expected(ops: &[MicroOp], win: bool) -> Vec<u8> {
    let mut code = if win {
        vec![0x48, 0x89, 0xC8, 0x49, 0x89, 0xD2]
    } else {
        vec![0x48, 0x89, 0xF8, 0x49, 0x89, 0xF2]
    };
    for op in ops {
        match *op {
            MicroOp::MulOdd(c) => {
                code.extend_from_slice(&[0x48, 0xBA]);
                code.extend_from_slice(&(c | 1).to_le_bytes());
                code.extend_from_slice(&[0x48, 0x0F, 0xAF, 0xC2]);
            }
            MicroOp::AddConst(c) => {
                code.extend_from_slice(&[0x48, 0xBA]);
                code.extend_from_slice(&c.to_le_bytes());
                code.extend_from_slice(&[0x48, 0x01, 0xD0]);
            }
            MicroOp::XorConst(c) => {
                code.extend_from_slice(&[0x48, 0xBA]);
                code.extend_from_slice(&c.to_le_bytes());
                code.extend_from_slice(&[0x48, 0x31, 0xD0]);
            }
            MicroOp::Ror(k) => code.extend_from_slice(&[0x48, 0xC1, 0xC8, k]),
            MicroOp::XorShr(k) => code.extend_from_slice(&[0x48, 0x89, 0xC2, 0x48, 0xC1, 0xEA, k, 0x48, 0x31, 0xD0]),
            MicroOp::XorShl(k) => code.extend_from_slice(&[0x48, 0x89, 0xC2, 0x48, 0xC1, 0xE2, k, 0x48, 0x31, 0xD0]),
            MicroOp::KeyXor(i) => code.extend_from_slice(&[0x49, 0x33, 0x42, (i & 1) * 8]),
        }
    }
    code.push(0xC3);
    code
}

fn a64_expected(ops: &[MicroOp]) -> Vec<u8> {
    let mov = |v: u64| -> [u32; 4] {
        [
            0xD2800000 | (((v & 0xFFFF) as u32) << 5) | 2,
            0xF2A00000 | ((((v >> 16) & 0xFFFF) as u32) << 5) | 2,
            0xF2C00000 | ((((v >> 32) & 0xFFFF) as u32) << 5) | 2,
            0xF2E00000 | ((((v >> 48) & 0xFFFF) as u32) << 5) | 2,
        ]
    };
    let mut words: Vec<u32> = Vec::new();
    for op in ops {
        match *op {
            MicroOp::MulOdd(c) => {
                words.extend_from_slice(&mov(c | 1));
                words.push(0x9B027C00);
            }
            MicroOp::AddConst(c) => {
                words.extend_from_slice(&mov(c));
                words.push(0x8B020000);
            }
            MicroOp::XorConst(c) => {
                words.extend_from_slice(&mov(c));
                words.push(0xCA020000);
            }
            MicroOp::Ror(k) => words.push(0x93C00000 | ((k as u32) << 10)),
            MicroOp::XorShr(k) => {
                words.push(0xD3400000 | ((k as u32) << 16) | (63 << 10) | 2);
                words.push(0xCA020000);
            }
            MicroOp::XorShl(k) => {
                words.push(0xD3400000 | (((64 - k as u32) & 63) << 16) | ((63 - k as u32) << 10) | 2);
                words.push(0xCA020000);
            }
            MicroOp::KeyXor(i) => {
                words.push(0xF9400000 | (((i & 1) as u32) << 10) | (1 << 5) | 2);
                words.push(0xCA020000);
            }
        }
    }
    words.push(0xD65F03C0);
    words.iter().flat_map(|w| w.to_le_bytes()).collect()
}

fn check_all_targets(ops: Vec<MicroOp>) {
    let kernel = KernelAST::new(ops.clone());
    let sysv = JITEmitter::emit(&kernel, Target::X86_64SysV);
    assert_eq!(sysv, x86_expected(&ops, false));
    assert_eq!(JITEmitter::emit(&kernel, Target::X86_64Win64), x86_expected(&ops, true));
    assert_eq!(JITEmitter::emit(&kernel, Target::Aarch64), a64_expected(&ops));
    // Straight-line code: one `ret`, at the end.
    let per_op: usize = ops
        .iter()
        .map(|op| match op {
            MicroOp::MulOdd(_) => 14,
            MicroOp::AddConst(_) | MicroOp::XorConst(_) => 13,
            MicroOp::XorShr(_) | MicroOp::XorShl(_) => 10,
            MicroOp::Ror(_) | MicroOp::KeyXor(_) => 4,
        })
        .sum();
    assert_eq!(sysv.len(), 7 + per_op);
    assert_eq!(sysv.last(), Some(&0xC3));
    let a64 = JITEmitter::emit(&kernel, Target::Aarch64);
    let a64_per_op: usize = ops
        .iter()
        .map(|op| match op {
            MicroOp::MulOdd(_) | MicroOp::AddConst(_) | MicroOp::XorConst(_) => 20,
            MicroOp::Ror(_) => 4,
            MicroOp::XorShr(_) | MicroOp::XorShl(_) | MicroOp::KeyXor(_) => 8,
        })
        .sum();
    assert_eq!(a64.len(), 4 + a64_per_op);
    assert_eq!(a64[a64.len() - 4..], 0xD65F03C0u32.to_le_bytes());
}

#[test]
fn test_jit_matches_ast_evaluation() {
    check_all_targets(vec![
        MicroOp::KeyXor(0),
        MicroOp::MulOdd(0x517CC1B727220A95),
        MicroOp::XorShr(23),
        MicroOp::KeyXor(1),
        MicroOp::AddConst(0x9E3779B97F4A7C15),
        MicroOp::Ror(27),
        MicroOp::XorShl(19),
    ]);
}

#[test]
fn test_jit_native_execution_equivalence() {
    check_all_targets(vec![
        MicroOp::KeyXor(0),
        MicroOp::XorShr(19),
        MicroOp::MulOdd(0x517CC1B727220A95),
        MicroOp::KeyXor(1),
        MicroOp::Ror(31),
        MicroOp::XorShl(13),
    ]);
}
