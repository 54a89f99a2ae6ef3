use wirecut::ast::{KernelAST, MicroOp};
use wirecut::synth::{sample_op, search_step, seed_kernel};
use wirecut::verify::StrictAvalancheVerifier;
use wirecut::gf2::gf2_rank;

fn audit_kernel() -> KernelAST {
    KernelAST::new(vec![
        MicroOp::KeyXor(0),
        MicroOp::MulOdd(0x9E3779B97F4A7C15),
        MicroOp::XorShr(31),
        MicroOp::KeyXor(1),
        MicroOp::MulOdd(0xBF58476D1CE4E5B9),
        MicroOp::XorShr(27),
    ])
}

#[test]
fn test_strict_avalanche_and_differential_bound() {
    let kernel = audit_kernel();
    let trials = 64usize;
    let counts = StrictAvalancheVerifier::measure_sac_counts(&kernel, trials);
    let mut total_bias = 0.0f64;
    for c in &counts {
        let prob = (*c as f64 / trials as f64) * 100.0;
        total_bias += (prob - 50.0).abs();
    }
    let sac_score = (100.0 - (total_bias / 4096.0) * 2.0).max(0.0);
    let diff_prob = StrictAvalancheVerifier::measure_differential_collisions(&kernel, 64) as f64 / 64.0;

    assert!(sac_score > 85.0, "SAC score is too low: {:.2}%", sac_score);
    assert!(diff_prob < 0.25, "Differential collision probability is too high: {:.4}", diff_prob);
}

#[test]
fn birthday_test_counts_repeated_words() {
    let identity = KernelAST::new(vec![]);
    // The identity kernel never leaves the seed: every step after the first repeats.
    assert_eq!(StrictAvalancheVerifier::run_bigcrush_birthday_test(&identity, 10), (9, true));
    assert_eq!(StrictAvalancheVerifier::run_bigcrush_birthday_test(&identity, 40), (39, false));
    assert_eq!(StrictAvalancheVerifier::run_bigcrush_birthday_test(&identity, 0), (0, true));
    let (collisions, pass) = StrictAvalancheVerifier::run_bigcrush_birthday_test(&audit_kernel(), 4096);
    assert!(collisions < 30 && pass);
}

#[test]
fn sac_table_of_identity_is_diagonal() {
    let identity = KernelAST::new(vec![]);
    let counts = StrictAvalancheVerifier::sac_counts(&identity, &[1, 2, 3]);
    assert_eq!(counts.len(), 4096);
    for i in 0..64 {
        for j in 0..64 {
            assert_eq!(counts[64 * i + j], if i == j { 3 } else { 0 });
        }
    }
    let shift = KernelAST::new(vec![MicroOp::XorShl(1)]);
    let counts = StrictAvalancheVerifier::sac_counts(&shift, &[0, u64::MAX]);
    assert_eq!(counts[64 * 5 + 5], 2);
    assert_eq!(counts[64 * 5 + 6], 2);
    assert_eq!(counts[64 * 5 + 7], 0);
}

#[test]
fn differential_collisions_count_the_most_common_difference() {
    let identity = KernelAST::new(vec![]);
    assert_eq!(StrictAvalancheVerifier::max_differential_collisions(&identity, 4, &[1, 2, 3]), 3);
    assert_eq!(StrictAvalancheVerifier::max_differential_collisions(&identity, 4, &[]), 0);
    let mixer = audit_kernel();
    let m = StrictAvalancheVerifier::max_differential_collisions(&mixer, 1, &[1, 1, 2, 3]);
    assert!(m >= 2);
    let r = StrictAvalancheVerifier::measure_differential_collisions(&mixer, 16);
    assert!(r >= 1 && r <= 16);
}

#[test]
fn chi_squared_counts_fill_buckets() {
    let identity = KernelAST::new(vec![]);
    let counts = StrictAvalancheVerifier::chi_squared_counts(&identity, &[0, 1, 0x100000001, 0xFF00000000]);
    assert_eq!(counts.len(), 256);
    assert_eq!(counts[0], 2);
    assert_eq!(counts[1], 1);
    assert_eq!(counts[0xFF], 1);
    assert_eq!(counts.iter().sum::<usize>(), 4);
    let sampled = StrictAvalancheVerifier::sample_chi_squared_counts(&audit_kernel(), 1000);
    assert_eq!(sampled.iter().sum::<usize>(), 1000);
}

#[test]
fn structure_penalty_charges_shape() {
    assert_eq!(StrictAvalancheVerifier::structure_penalty(&audit_kernel()), 50);
    assert_eq!(StrictAvalancheVerifier::structure_penalty(&seed_kernel(0, 0)), 0);
    assert_eq!(StrictAvalancheVerifier::structure_penalty(&KernelAST::new(vec![])), 130);
}

#[test]
fn seed_kernel_keys_the_multipliers() {
    let k = seed_kernel(1, 2);
    assert_eq!(
        k.ops,
        vec![
            MicroOp::MulOdd((0x9E3779B97F4A7C15 ^ 1) | 1),
            MicroOp::XorShr(33),
            MicroOp::MulOdd((0xBF58476D1CE4E5B9 ^ 2) | 1),
            MicroOp::XorShr(33),
        ]
    );
}

#[test]
fn sampled_operations_stay_in_range() {
    let mut shifts = std::collections::HashSet::new();
    for _ in 0..200 {
        match sample_op(1) {
            MicroOp::XorShr(k) => {
                assert!((17..34).contains(&k));
                shifts.insert(k);
            }
            other => panic!("unexpected {:?}", other),
        }
        match sample_op(0) {
            MicroOp::MulOdd(c) => assert_eq!(c % 2, 1),
            other => panic!("unexpected {:?}", other),
        }
        assert!(matches!(sample_op(2), MicroOp::Ror(k) if (7..57).contains(&k)));
        assert!(matches!(sample_op(5), MicroOp::KeyXor(i) if i < 2));
        assert!(matches!(sample_op(9), MicroOp::XorShl(k) if (11..29).contains(&k)));
    }
    assert!(shifts.len() > 1);
}

#[test]
fn gf2_rank_of_simple_matrices() {
    let mut identity = [0u32; 32];
    for i in 0..32 {
        identity[i] = 1u32 << i;
    }
    assert_eq!(gf2_rank(identity), 32);
    assert_eq!(gf2_rank([0u32; 32]), 0);
    let mut dup = [0u32; 32];
    dup[0] = 0b1011;
    dup[1] = 0b0110;
    dup[2] = 0b1101; // xor of the first two
    dup[5] = 0b1011;
    assert_eq!(gf2_rank(dup), 2);
    let mut full_but_one = identity;
    full_but_one[31] = identity[0] ^ identity[7];
    assert_eq!(gf2_rank(full_but_one), 31);
}

#[test]
fn rank_histogram_counts_every_matrix() {
    let ranks = StrictAvalancheVerifier::rank_histogram(&audit_kernel(), 200);
    assert_eq!(ranks.iter().sum::<usize>(), 200);
    let identity = KernelAST::new(vec![]);
    // The identity walk repeats one state: every row pair is the same.
    assert_eq!(StrictAvalancheVerifier::rank_histogram(&identity, 3), [0, 0, 0, 3]);
}

#[test]
fn search_steps_keep_length_and_shape() {
    let seed = seed_kernel(3, 4);
    assert_eq!(seed.ops.len(), 4);
    let replaced = search_step(&seed, 0, 2, MicroOp::Ror(9), 0);
    assert_eq!(replaced.ops[2], MicroOp::Ror(9));
    assert_eq!(replaced.ops[0], seed.ops[0]);
    let swapped = search_step(&seed, 2, 0, MicroOp::Ror(9), 1);
    assert_eq!(swapped.ops, vec![seed.ops[0], seed.ops[2], seed.ops[1], seed.ops[3]]);
    assert!(swapped.shifts_in_range());
    let one = KernelAST::new(vec![MicroOp::XorShr(5)]);
    assert_eq!(search_step(&one, 2, 0, MicroOp::Ror(9), 7).ops, one.ops);
    assert!(!KernelAST::new(vec![MicroOp::XorShl(64)]).shifts_in_range());
}

#[test]
fn search_run_stays_invertible() {
    let keys = [0x1234_5678_9ABC_DEF0u64, 0x0FED_CBA9_8765_4321u64];
    let mut current = seed_kernel(keys[0], keys[1]);
    for t in 0..200usize {
        let m = (t % 3) as u64;
        let r = (t * 7) % 4;
        let s = t % 3;
        let op = sample_op(t % 7);
        current = search_step(&current, m, r, op, s);
        assert_eq!(current.ops.len(), 4);
        assert!(current.shifts_in_range());
        let x = (t as u64).wrapping_mul(0x9E37_79B9_7F4A_7C15);
        assert_eq!(current.invert_keyed(current.eval_keyed(x, &keys), &keys), x);
    }
}
