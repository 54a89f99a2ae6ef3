use wirecut::ast::{KernelAST, MicroOp};
use wirecut::bench::{splitmix64, update_min_latency, window_input, window_inputs};
use wirecut::wirecut_arx::wirecut_arx64;
use wirecut::wirecut_mixer::wirecut_mix64;

#[test]
fn splitmix64_matches_the_reference_output() {
    // First output of SplitMix64 seeded with 0.
    assert_eq!(splitmix64(0x9E3779B97F4A7C15), 0xE220A8397B1DCDAF);
    assert_eq!(splitmix64(0), 0);
}

#[test]
fn splitmix64_is_its_kernel() {
    let kernel = KernelAST::new(vec![
        MicroOp::XorShr(30),
        MicroOp::MulOdd(0xbf58476d1ce4e5b9),
        MicroOp::XorShr(27),
        MicroOp::MulOdd(0x94d049bb133111eb),
        MicroOp::XorShr(31),
    ]);
    for x in [1u64, 42, u64::MAX, 0x0123456789ABCDEF] {
        let y = splitmix64(x);
        assert_eq!(kernel.eval(x), y);
        assert_eq!(kernel.invert(y), x);
    }
}

#[test]
fn wirecut_mix64_is_its_kernel_and_invertible() {
    let kernel = KernelAST::new(vec![
        MicroOp::MulOdd(0x9E3779B97F4A7C15),
        MicroOp::XorShr(31),
        MicroOp::MulOdd(0xBF58476D1CE4E5B9),
        MicroOp::XorShr(31),
    ]);
    for x in [0u64, 1, 0x0123456789ABCDEF, u64::MAX] {
        let y = wirecut_mix64(x);
        assert_eq!(kernel.eval(x), y);
        assert_eq!(kernel.invert(y), x);
    }
    assert_ne!(wirecut_mix64(1), wirecut_mix64(2));
}

#[test]
fn wirecut_arx64_is_its_kernel_and_invertible() {
    let kernel = KernelAST::new(vec![
        MicroOp::XorShr(31),
        MicroOp::XorShl(18),
        MicroOp::XorShl(9),
        MicroOp::XorShl(30),
        MicroOp::XorShr(14),
        MicroOp::XorShr(24),
        MicroOp::Ror(33),
        MicroOp::XorShr(27),
    ]);
    for x in [0u64, 1, 0x0123456789ABCDEF, u64::MAX] {
        let y = wirecut_arx64(x);
        assert_eq!(kernel.eval(x), y);
        assert_eq!(kernel.invert(y), x);
    }
    assert_eq!(wirecut_arx64(0), 0);
}

#[test]
fn benchmark_inputs_wrap() {
    assert_eq!(window_input(0, 0), 1);
    assert_eq!(window_input(1, 2), 3u64.wrapping_mul(6364136223846793005).wrapping_add(1));
    let v = window_inputs(5, 64);
    assert_eq!(v.len(), 64);
    assert_eq!(v[10], window_input(5, 10));
}

#[test]
fn benchmark_keeps_the_smallest_latency() {
    assert_eq!(update_min_latency(u64::MAX, 100, 740, 64), 10);
    assert_eq!(update_min_latency(5, 100, 740, 64), 5);
    assert_eq!(update_min_latency(5, 740, 100, 64), 0);
}
