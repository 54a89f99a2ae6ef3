//! The integer side of the statistical batteries: what each test counts.
//! Turning counts into scores and p-value-like figures is floating-point
//! work and happens outside the library.
use vstd::prelude::*;
use crate::ast::{KernelAST, MicroOp, apply_op, eval_ops, key_of, ops_in_range};
use crate::bits::lemma_bit_basics;
use crate::gf2::{gf2_rank, is_gf2_rank};
use crate::random::{thread_rng, gen_u64, gen_range_u64};

verus! {

broadcast use vstd::std_specs::hash::group_hash_axioms;

/// The statistical test suite.
pub struct StrictAvalancheVerifier;

/// The fixed key pair that every statistical test runs the kernel with.
pub open spec fn audit_keys() -> Seq<u64> {
    seq![0x517CC1B727220A95u64, 0x9E3779B97F4A7C15u64]
}

/// The walk `x_0 = seed`, `x_{n+1} = kernel(x_n)`.
pub open spec fn orbit(ops: Seq<MicroOp>, keys: Seq<u64>, seed: u64, n: nat) -> u64
    decreases n,
{
    if n == 0 {
        seed
    } else {
        eval_ops(ops, keys, orbit(ops, keys, seed, (n - 1) as nat))
    }
}

/// The 32-bit word that the birthday test files `x` under.
pub open spec fn fold32(x: u64) -> u32 {
    (x ^ (x >> 32u64)) as u32
}

/// `fold32` of `x_1, ..., x_count` along the orbit from the birthday seed.
pub open spec fn birthday_words(ops: Seq<MicroOp>, count: nat) -> Seq<u32> {
    Seq::new(count, |i: int| fold32(orbit(ops, audit_keys(), 0xC0FFEE_DEAD_BEEFu64, (i + 1) as nat)))
}

/// How many entries of `s` equal an earlier entry.
pub open spec fn repeats<T>(s: Seq<T>) -> nat
    decreases s.len(),
{
    if s.len() == 0 {
        0
    } else {
        repeats(s.drop_last()) + (if s.drop_last().contains(s.last()) { 1nat } else { 0nat })
    }
}

/// The penalty that the fitness charges for a kernel's shape: 30 unless the
/// last operation is an xorshift, plus 25 per operation away from four.
pub open spec fn structure_penalty_spec(ops: Seq<MicroOp>) -> int {
    let tail: int = if ops.len() > 0 && (ops.last() is XorShr || ops.last() is XorShl) { 0 } else { 30 };
    let off: int = if ops.len() >= 4 { ops.len() - 4 } else { 4 - ops.len() };
    tail + 25 * off
}


/// Matrix number `idx` of the rank test: 32 rows taken from 16 successive
/// states of the walk from the rank seed, low half first.
pub open spec fn rank_matrix(ops: Seq<MicroOp>, idx: nat) -> Seq<u32> {
    Seq::new(
        32,
        |r: int|
            {
                let x = orbit(ops, audit_keys(), 0x0123456789ABCDEFu64, (16 * idx + r / 2 + 1) as nat);
                if r % 2 == 0 {
                    x as u32
                } else {
                    (x >> 32u64) as u32
                }
            },
    )
}

/// The histogram class of a rank: 32, 31, 30, or anything lower.
pub open spec fn rank_class(r: nat) -> int {
    if r == 32 {
        0
    } else if r == 31 {
        1
    } else if r == 30 {
        2
    } else {
        3
    }
}

/// How many of the ranks `rs` fall in class `c`.
pub open spec fn class_count(rs: Seq<nat>, c: int) -> nat
    decreases rs.len(),
{
    if rs.len() == 0 {
        0
    } else {
        class_count(rs.drop_last(), c) + (if rank_class(rs.last()) == c { 1nat } else { 0nat })
    }
}

/// The four counts of the rank histogram are the numbers of ranks equal to
/// 32, to 31, to 30, and below 30.
pub proof fn lemma_class_counts(rs: Seq<nat>)
    ensures
        class_count(rs, 0) == rs.filter(|r: nat| r == 32).len(),
        class_count(rs, 1) == rs.filter(|r: nat| r == 31).len(),
        class_count(rs, 2) == rs.filter(|r: nat| r == 30).len(),
        (forall|i: int| 0 <= i < rs.len() ==> rs[i] <= 32) ==> class_count(rs, 3) == rs.filter(|r: nat| r < 30).len(),
    decreases rs.len(),
{
    reveal(Seq::filter);
    if rs.len() > 0 {
        let init = rs.drop_last();
        if forall|i: int| 0 <= i < rs.len() ==> rs[i] <= 32 {
            assert forall|i: int| 0 <= i < init.len() implies init[i] <= 32 by {
                assert(rs[i] <= 32);
            }
            assert(rs[rs.len() - 1] <= 32);
        }
        lemma_class_counts(init);
    }
}

proof fn lemma_class_count_le(rs: Seq<nat>, c: int)
    ensures
        class_count(rs, c) <= rs.len(),
    decreases rs.len(),
{
    if rs.len() > 0 {
        lemma_class_count_le(rs.drop_last(), c);
    }
}

/// The collision limit under which the birthday test passes.
pub open spec fn birthday_limit() -> nat {
    30
}


/// Whether bit `j` of `x` is set.
pub open spec fn bit_set(x: u64, j: nat) -> bool {
    (x >> (j as u64)) & 1 == 1
}

/// The output difference when input bit `i` of `base` is flipped.
pub open spec fn flip_diff(ops: Seq<MicroOp>, keys: Seq<u64>, base: u64, i: nat) -> u64 {
    eval_ops(ops, keys, base) ^ eval_ops(ops, keys, base ^ (1u64 << (i as u64)))
}

/// Over `bases`, how often flipping input bit `i` flips output bit `j`.
pub open spec fn flip_count(ops: Seq<MicroOp>, keys: Seq<u64>, bases: Seq<u64>, i: nat, j: nat) -> nat
    decreases bases.len(),
{
    if bases.len() == 0 {
        0
    } else {
        flip_count(ops, keys, bases.drop_last(), i, j) + (if bit_set(flip_diff(ops, keys, bases.last(), i), j) {
            1nat
        } else {
            0nat
        })
    }
}

/// Where the avalanche table keeps the count for input bit `i` and output bit `j`.
pub open spec fn sac_index(i: nat, j: nat) -> int {
    (64 * i + j) as int
}

/// The avalanche table of `bases`: entry `64 * i + j` counts the bases for
/// which flipping input bit `i` flips output bit `j`.
pub open spec fn is_sac_table(ops: Seq<MicroOp>, bases: Seq<u64>, counts: Seq<usize>) -> bool {
    &&& counts.len() == 4096
    &&& forall|i: nat, j: nat|
        i < 64 && j < 64 ==> #[trigger] counts[sac_index(i, j)] == flip_count(ops, audit_keys(), bases, i, j)
}

/// How many entries of `s` equal `v`.
pub open spec fn count_of(s: Seq<u64>, v: u64) -> nat
    decreases s.len(),
{
    if s.len() == 0 {
        0
    } else {
        count_of(s.drop_last(), v) + (if s.last() == v { 1nat } else { 0nat })
    }
}

/// The output difference of the input pair `(x, x ^ dx)`.
pub open spec fn diff_word(ops: Seq<MicroOp>, dx: u64, x: u64) -> u64 {
    eval_ops(ops, audit_keys(), x) ^ eval_ops(ops, audit_keys(), x ^ dx)
}

/// The output differences of the pairs `(x, x ^ dx)` for `x` in `xs`.
pub open spec fn diff_words(ops: Seq<MicroOp>, dx: u64, xs: Seq<u64>) -> Seq<u64> {
    Seq::new(xs.len(), |t: int| diff_word(ops, dx, xs[t]))
}

/// The largest `count_of(s, s[t])` over `t < n` (0 for `n == 0`).
pub open spec fn max_count_upto(s: Seq<u64>, n: nat) -> nat
    decreases n,
{
    if n == 0 {
        0
    } else {
        let prev = max_count_upto(s, (n - 1) as nat);
        let c = count_of(s, s[n - 1]);
        if c > prev {
            c
        } else {
            prev
        }
    }
}

/// The largest number of times any one value occurs in `s` (0 for an empty `s`).
pub open spec fn max_multiplicity(s: Seq<u64>) -> nat {
    max_count_upto(s, s.len())
}

/// `dx` has exactly one bit set.
pub open spec fn one_bit(dx: u64) -> bool {
    exists|k: u64| k < 64 && dx == 1u64 << k
}

/// The largest multiplicity of an output difference over the rounds
/// `(dxs[r], xss[r])`.
pub open spec fn max_over_rounds(ops: Seq<MicroOp>, dxs: Seq<u64>, xss: Seq<Seq<u64>>) -> nat
    decreases dxs.len(),
{
    if dxs.len() == 0 || xss.len() == 0 {
        0
    } else {
        let prev = max_over_rounds(ops, dxs.drop_last(), xss.drop_last());
        let m = max_multiplicity(diff_words(ops, dxs.last(), xss.last()));
        if m > prev {
            m
        } else {
            prev
        }
    }
}

/// `m` is the largest number of times any one value occurs in `s` (0 for an empty `s`).
spec fn is_max_multiplicity(s: Seq<u64>, m: nat) -> bool {
    &&& forall|t: int| 0 <= t < s.len() ==> #[trigger] count_of(s, s[t]) <= m
    &&& (s.len() == 0 ==> m == 0)
    &&& (s.len() > 0 ==> exists|t: int| 0 <= t < s.len() && #[trigger] count_of(s, s[t]) == m)
}

/// The chi-squared bucket of an output word: the low byte of its two halves xored.
pub open spec fn chi_bucket(y: u64) -> nat {
    ((y ^ (y >> 32u64)) & 0xFF) as nat
}

/// How many of the inputs `xs` the kernel sends to bucket `b`.
pub open spec fn bucket_count(ops: Seq<MicroOp>, xs: Seq<u64>, b: nat) -> nat
    decreases xs.len(),
{
    if xs.len() == 0 {
        0
    } else {
        bucket_count(ops, xs.drop_last(), b) + (if chi_bucket(eval_ops(ops, audit_keys(), xs.last())) == b {
            1nat
        } else {
            0nat
        })
    }
}

proof fn lemma_flip_count_step(ops: Seq<MicroOp>, keys: Seq<u64>, bases: Seq<u64>, t: int, i: nat, j: nat)
    requires
        0 <= t < bases.len(),
    ensures
        flip_count(ops, keys, bases.take(t + 1), i, j) == flip_count(ops, keys, bases.take(t), i, j) + (if bit_set(
            flip_diff(ops, keys, bases[t], i),
            j,
        ) {
            1nat
        } else {
            0nat
        }),
{
    assert(bases.take(t + 1).drop_last() =~= bases.take(t));
}

proof fn lemma_bucket_count_step(ops: Seq<MicroOp>, xs: Seq<u64>, t: int, b: nat)
    requires
        0 <= t < xs.len(),
    ensures
        bucket_count(ops, xs.take(t + 1), b) == bucket_count(ops, xs.take(t), b) + (if chi_bucket(
            eval_ops(ops, audit_keys(), xs[t]),
        ) == b {
            1nat
        } else {
            0nat
        }),
{
    assert(xs.take(t + 1).drop_last() =~= xs.take(t));
}

proof fn lemma_flip_count_le(ops: Seq<MicroOp>, keys: Seq<u64>, bases: Seq<u64>, i: nat, j: nat)
    ensures
        flip_count(ops, keys, bases, i, j) <= bases.len(),
    decreases bases.len(),
{
    if bases.len() > 0 {
        lemma_flip_count_le(ops, keys, bases.drop_last(), i, j);
    }
}

proof fn lemma_bucket_count_le(ops: Seq<MicroOp>, xs: Seq<u64>, b: nat)
    ensures
        bucket_count(ops, xs, b) <= xs.len(),
    decreases xs.len(),
{
    if xs.len() > 0 {
        lemma_bucket_count_le(ops, xs.drop_last(), b);
    }
}

proof fn lemma_max_count_upto(s: Seq<u64>, n: nat)
    requires
        n <= s.len(),
    ensures
        forall|t: int| 0 <= t < n ==> #[trigger] count_of(s, s[t]) <= max_count_upto(s, n),
        n == 0 ==> max_count_upto(s, n) == 0,
        n > 0 ==> exists|t: int| 0 <= t < n && #[trigger] count_of(s, s[t]) == max_count_upto(s, n),
    decreases n,
{
    if n > 0 {
        lemma_max_count_upto(s, (n - 1) as nat);
        if count_of(s, s[n - 1]) <= max_count_upto(s, (n - 1) as nat) && n > 1 {
            let t = choose|t: int| 0 <= t < n - 1 && #[trigger] count_of(s, s[t]) == max_count_upto(s, (n - 1) as nat);
            assert(count_of(s, s[t]) == max_count_upto(s, n));
        } else {
            assert(count_of(s, s[n - 1]) == max_count_upto(s, n));
        }
    }
}

proof fn lemma_max_multiplicity(s: Seq<u64>, m: nat)
    requires
        is_max_multiplicity(s, m),
    ensures
        m == max_multiplicity(s),
{
    lemma_max_count_upto(s, s.len());
    if s.len() > 0 {
        let t = choose|t: int| 0 <= t < s.len() && #[trigger] count_of(s, s[t]) == m;
        let t2 = choose|t2: int| 0 <= t2 < s.len() && #[trigger] count_of(s, s[t2]) == max_multiplicity(s);
        assert(count_of(s, s[t]) <= max_multiplicity(s));
        assert(count_of(s, s[t2]) <= m);
    }
}

/// `max_multiplicity(s)` is the largest number of times any one value occurs
/// in `s`: no entry occurs more often, and some entry occurs that often.
pub proof fn lemma_max_multiplicity_is_largest(s: Seq<u64>)
    ensures
        forall|t: int| 0 <= t < s.len() ==> #[trigger] count_of(s, s[t]) <= max_multiplicity(s),
        s.len() == 0 ==> max_multiplicity(s) == 0,
        s.len() > 0 ==> exists|t: int| 0 <= t < s.len() && #[trigger] count_of(s, s[t]) == max_multiplicity(s),
{
    lemma_max_count_upto(s, s.len());
}

/// `count_of(s, v)` is the number of positions of `s` holding `v`.
pub proof fn lemma_count_of_positions(s: Seq<u64>, v: u64)
    ensures
        count_of(s, v) == s.filter(|y: u64| y == v).len(),
    decreases s.len(),
{
    reveal(Seq::filter);
    if s.len() > 0 {
        lemma_count_of_positions(s.drop_last(), v);
    }
}

/// A sequence has no repeats exactly when its entries are pairwise distinct.
pub proof fn lemma_repeats_zero<T>(s: Seq<T>)
    ensures
        repeats(s) == 0 <==> forall|i: int, j: int| 0 <= i < j < s.len() ==> s[i] != s[j],
    decreases s.len(),
{
    if s.len() > 0 {
        let init = s.drop_last();
        lemma_repeats_zero(init);
        if repeats(s) == 0 {
            assert forall|i: int, j: int| 0 <= i < j < s.len() implies s[i] != s[j] by {
                if j < s.len() - 1 {
                    assert(init[i] == s[i] && init[j] == s[j]);
                } else if s[i] == s[j] {
                    assert(init[i] == s.last());
                    assert(init.contains(s.last()));
                }
            }
        }
        if forall|i: int, j: int| 0 <= i < j < s.len() ==> s[i] != s[j] {
            assert forall|i: int, j: int| 0 <= i < j < init.len() implies init[i] != init[j] by {
                assert(s[i] != s[j]);
            }
            if init.contains(s.last()) {
                let i = choose|i: int| 0 <= i < init.len() && init[i] == s.last();
                assert(s[i] == s[s.len() - 1]);
            }
        }
    }
}

proof fn lemma_count_of_push(s: Seq<u64>, x: u64, v: u64)
    ensures
        count_of(s.push(x), v) == count_of(s, v) + (if x == v { 1nat } else { 0nat }),
{
    assert(s.push(x).drop_last() =~= s);
}

proof fn lemma_count_of_le(s: Seq<u64>, v: u64)
    ensures
        count_of(s, v) <= s.len(),
    decreases s.len(),
{
    if s.len() > 0 {
        lemma_count_of_le(s.drop_last(), v);
    }
}

proof fn lemma_count_of_pos(s: Seq<u64>, t: int)
    requires
        0 <= t < s.len(),
    ensures
        count_of(s, s[t]) >= 1,
    decreases s.len(),
{
    if t < s.len() - 1 {
        lemma_count_of_pos(s.drop_last(), t);
    }
}

proof fn lemma_count_of_absent(s: Seq<u64>, v: u64)
    requires
        !s.contains(v),
    ensures
        count_of(s, v) == 0,
    decreases s.len(),
{
    if s.len() > 0 {
        assert(!s.drop_last().contains(v)) by {
            if s.drop_last().contains(v) {
                let t = choose|t: int| 0 <= t < s.drop_last().len() && #[trigger] s.drop_last()[t] == v;
                assert(s[t] == v);
            }
        }
        assert(s.last() != v) by {
            assert(s[s.len() - 1] == s.last());
        }
        lemma_count_of_absent(s.drop_last(), v);
    }
}

impl StrictAvalancheVerifier {
    /// Birthday-spacing style test: walks `count` steps of the kernel from a
    /// fixed seed, folds each state to 32 bits and counts the folded words
    /// that were seen before; passes with fewer than 30 such collisions.
    pub fn run_bigcrush_birthday_test(ast: &KernelAST, count: usize) -> (r: (usize, bool))
        requires
            ops_in_range(ast@),
        ensures
            r.0 == repeats(birthday_words(ast@, count as nat)),
            r.1 == (r.0 < birthday_limit()),
    {
        let keys: [u64; 2] = [0x517CC1B727220A95, 0x9E3779B97F4A7C15];
        assert(keys@ =~= audit_keys());
        let mut seen: std::collections::HashSet<u32> = std::collections::HashSet::with_capacity(count);
        let mut collisions: usize = 0;
        let mut x: u64 = 0xC0FFEE_DEAD_BEEF;
        let ghost words = birthday_words(ast@, count as nat);
        for i in 0..count
            invariant
                ops_in_range(ast@),
                keys@ == audit_keys(),
                words == birthday_words(ast@, count as nat),
                x == orbit(ast@, audit_keys(), 0xC0FFEE_DEAD_BEEFu64, i as nat),
                forall|v: u32| seen@.contains(v) <==> words.take(i as int).contains(v),
                collisions == repeats(words.take(i as int)),
                collisions <= i,
        {
            x = ast.eval_keyed(x, &keys);
            let subspace = (x ^ (x >> 32)) as u32;
            assert(subspace == words[i as int]);
            let ghost prefix = words.take(i as int);
            assert(words.take(i + 1).drop_last() =~= prefix);
            assert(words.take(i + 1).last() == subspace);
            if !seen.insert(subspace) {
                collisions += 1;
            }
            let ghost next = words.take(i + 1);
            assert forall|v: u32| seen@.contains(v) <==> next.contains(v) by {
                if next.contains(v) {
                    let j = choose|j: int| 0 <= j < i + 1 && #[trigger] next[j] == v;
                    if j < i {
                        assert(prefix[j] == v);
                    }
                }
                if prefix.contains(v) {
                    let j = choose|j: int| 0 <= j < i && #[trigger] prefix[j] == v;
                    assert(next[j] == v);
                }
                if v == subspace {
                    assert(next[i as int] == v);
                }
            }
        }
        assert(words.take(count as int) =~= words);
        (collisions, collisions < 30)
    }

    /// The shape penalty of a kernel (see `structure_penalty_spec`).
    pub fn structure_penalty(ast: &KernelAST) -> (p: u128)
        ensures
            p == structure_penalty_spec(ast@),
    {
        let n = ast.ops.len();
        let tail: u128 = if n > 0 {
            match ast.ops[n - 1] {
                MicroOp::XorShr(_) | MicroOp::XorShl(_) => 0,
                _ => 30,
            }
        } else {
            30
        };
        let off: u128 = if n >= 4 {
            (n - 4) as u128
        } else {
            (4 - n) as u128
        };
        tail + 25 * off
    }

    /// The rank histogram of the binary-rank test: builds `matrix_count`
    /// 32 x 32 matrices from the kernel's walk and counts those of rank 32,
    /// 31, 30 and below.
    pub fn rank_histogram(ast: &KernelAST, matrix_count: usize) -> (ranks: [usize; 4])
        requires
            ops_in_range(ast@),
        ensures
            exists|rs: Seq<nat>|
                {
                    &&& rs.len() == matrix_count
                    &&& forall|i: int| 0 <= i < matrix_count ==> #[trigger] is_gf2_rank(rank_matrix(ast@, i as nat), rs[i])
                    &&& forall|c: int| 0 <= c < 4 ==> #[trigger] ranks@[c] == class_count(rs, c)
                },
    {
        let keys: [u64; 2] = [0x517CC1B727220A95, 0x9E3779B97F4A7C15];
        assert(keys@ =~= audit_keys());
        let mut x: u64 = 0x0123456789ABCDEF;
        let mut ranks: [usize; 4] = [0, 0, 0, 0];
        let ghost mut rs: Seq<nat> = Seq::empty();
        let mut m: usize = 0;
        while m < matrix_count
            invariant
                m <= matrix_count,
                ops_in_range(ast@),
                keys@ == audit_keys(),
                x == orbit(ast@, audit_keys(), 0x0123456789ABCDEFu64, 16 * m as nat),
                rs.len() == m,
                forall|i: int| 0 <= i < m ==> #[trigger] is_gf2_rank(rank_matrix(ast@, i as nat), rs[i]),
                forall|c: int| 0 <= c < 4 ==> #[trigger] ranks@[c] == class_count(rs, c),
            decreases matrix_count - m,
        {
            let mut mat: [u32; 32] = [0u32; 32];
            let ghost target = rank_matrix(ast@, m as nat);
            let mut r: usize = 0;
            while r < 16
                invariant
                    r <= 16,
                    ops_in_range(ast@),
                    keys@ == audit_keys(),
                    target == rank_matrix(ast@, m as nat),
                    x == orbit(ast@, audit_keys(), 0x0123456789ABCDEFu64, (16 * m + r) as nat),
                    mat@.len() == 32,
                    forall|k: int| 0 <= k < 2 * r ==> #[trigger] mat@[k] == target[k],
                decreases 16 - r,
            {
                x = ast.eval_keyed(x, &keys);
                mat[r * 2] = x as u32;
                mat[r * 2 + 1] = (x >> 32) as u32;
                proof {
                    assert(target[2 * r as int] == x as u32);
                    assert(target[2 * r + 1] == (x >> 32u64) as u32);
                }
                r = r + 1;
            }
            assert(mat@ =~= target);
            let rank = gf2_rank(mat);
            let ghost r0 = rs;
            proof {
                rs = rs.push(rank as nat);
                assert(rs.drop_last() =~= r0);
                lemma_class_count_le(r0, 0);
                lemma_class_count_le(r0, 1);
                lemma_class_count_le(r0, 2);
                lemma_class_count_le(r0, 3);
            }
            if rank == 32 {
                ranks[0] = ranks[0] + 1;
            } else if rank == 31 {
                ranks[1] = ranks[1] + 1;
            } else if rank == 30 {
                ranks[2] = ranks[2] + 1;
            } else {
                ranks[3] = ranks[3] + 1;
            }
            proof {
                assert forall|i: int| 0 <= i < m + 1 implies #[trigger] is_gf2_rank(rank_matrix(ast@, i as nat), rs[i]) by {
                    if i < m {
                        assert(rs[i] == r0[i]);
                    }
                }
            }
            m = m + 1;
        }
        ranks
    }

    /// The avalanche table of the kernel over the given inputs: entry
    /// `64 * i + j` counts the inputs for which flipping input bit `i`
    /// flips output bit `j`.
    pub fn sac_counts(ast: &KernelAST, bases: &[u64]) -> (counts: Vec<usize>)
        requires
            ops_in_range(ast@),
        ensures
            is_sac_table(ast@, bases@, counts@),
    {
        let keys: [u64; 2] = [0x517CC1B727220A95, 0x9E3779B97F4A7C15];
        assert(keys@ =~= audit_keys());
        let mut counts: Vec<usize> = Vec::new();
        let mut c: usize = 0;
        while c < 4096
            invariant
                c <= 4096,
                counts@.len() == c,
                forall|k: int| 0 <= k < c ==> #[trigger] counts@[k] == 0,
            decreases 4096 - c,
        {
            counts.push(0);
            c = c + 1;
        }
        let n = bases.len();
        for t in 0..n
            invariant
                n == bases@.len(),
                ops_in_range(ast@),
                keys@ == audit_keys(),
                counts@.len() == 4096,
                forall|i: nat, j: nat|
                    i < 64 && j < 64 ==> #[trigger] counts@[sac_index(i, j)] == flip_count(
                        ast@,
                        audit_keys(),
                        bases@.take(t as int),
                        i,
                        j,
                    ),
        {
            let base = bases[t];
            let ghost before = bases@.take(t as int);
            let ghost after = bases@.take(t + 1);
            assert(after.drop_last() =~= before);
            assert(after.last() == base);
            let base_out = ast.eval_keyed(base, &keys);
            for in_bit in 0..64u64
                invariant
                    ops_in_range(ast@),
                    keys@ == audit_keys(),
                    before == bases@.take(t as int),
                    after == bases@.take(t + 1),
                    base == bases@[t as int],
                    base_out == eval_ops(ast@, audit_keys(), base),
                    counts@.len() == 4096,
                    t < n,
                    forall|i: nat, j: nat|
                        i < in_bit && j < 64 ==> #[trigger] counts@[sac_index(i, j)] == flip_count(
                            ast@,
                            audit_keys(),
                            after,
                            i,
                            j,
                        ),
                    forall|i: nat, j: nat|
                        in_bit <= i < 64 && j < 64 ==> #[trigger] counts@[sac_index(i, j)] == flip_count(
                            ast@,
                            audit_keys(),
                            before,
                            i,
                            j,
                        ),
                    n == bases@.len(),
            {
                let perturbed = base ^ (1u64 << in_bit);
                let diff = base_out ^ ast.eval_keyed(perturbed, &keys);
                assert(diff == flip_diff(ast@, audit_keys(), base, in_bit as nat));
                for out_bit in 0..64u64
                    invariant
                        counts@.len() == 4096,
                        in_bit < 64,
                        t < n,
                        before == bases@.take(t as int),
                        after == bases@.take(t + 1),
                        base == bases@[t as int],
                        diff == flip_diff(ast@, audit_keys(), base, in_bit as nat),
                        forall|i: nat, j: nat|
                            i < in_bit && j < 64 ==> #[trigger] counts@[sac_index(i, j)] == flip_count(
                                ast@,
                                audit_keys(),
                                after,
                                i,
                                j,
                            ),
                        forall|j: nat|
                            j < out_bit ==> #[trigger] counts@[sac_index(in_bit as nat, j)] == flip_count(
                                ast@,
                                audit_keys(),
                                after,
                                in_bit as nat,
                                j,
                            ),
                        forall|i: nat, j: nat|
                            (in_bit < i < 64 && j < 64) || (i == in_bit && out_bit <= j < 64)
                                ==> #[trigger] counts@[sac_index(i, j)] == flip_count(
                                ast@,
                                audit_keys(),
                                before,
                                i,
                                j,
                            ),
                        n == bases@.len(),
                {
                    let idx = (64 * in_bit + out_bit) as usize;
                    assert(idx as int == sac_index(in_bit as nat, out_bit as nat));
                    assert(counts@[idx as int] == flip_count(ast@, audit_keys(), before, in_bit as nat, out_bit as nat));
                    if (diff >> out_bit) & 1 == 1 {
                        proof {
                            lemma_flip_count_le(ast@, audit_keys(), before, in_bit as nat, out_bit as nat);
                        }
                        counts[idx] = counts[idx] + 1;
                    }
                    proof {
                        lemma_flip_count_step(ast@, audit_keys(), bases@, t as int, in_bit as nat, out_bit as nat);
                    }
                    assert(counts@[sac_index(in_bit as nat, out_bit as nat)] == flip_count(
                        ast@,
                        audit_keys(),
                        after,
                        in_bit as nat,
                        out_bit as nat,
                    ));
                }
            }
        }
        assert(bases@.take(n as int) =~= bases@);
        counts
    }

    /// The avalanche table over `trials` inputs drawn at random.
    pub fn measure_sac_counts(ast: &KernelAST, trials: usize) -> (counts: Vec<usize>)
        requires
            ops_in_range(ast@),
        ensures
            exists|bases: Seq<u64>| bases.len() == trials && #[trigger] is_sac_table(ast@, bases, counts@),
    {
        let mut rng = thread_rng();
        let mut bases: Vec<u64> = Vec::new();
        for t in 0..trials
            invariant
                bases@.len() == t,
        {
            bases.push(gen_u64(&mut rng));
        }
        let counts = Self::sac_counts(ast, bases.as_slice());
        assert(is_sac_table(ast@, bases@, counts@));
        counts
    }

    /// The largest number of inputs in `xs` that share one output
    /// difference for the input difference `dx`.
    pub fn max_differential_collisions(ast: &KernelAST, dx: u64, xs: &[u64]) -> (r: usize)
        requires
            ops_in_range(ast@),
        ensures
            r == max_multiplicity(diff_words(ast@, dx, xs@)),
    {
        let keys: [u64; 2] = [0x517CC1B727220A95, 0x9E3779B97F4A7C15];
        assert(keys@ =~= audit_keys());
        let ghost dys = diff_words(ast@, dx, xs@);
        let n = xs.len();
        let mut diff_map: std::collections::HashMap<u64, usize> = std::collections::HashMap::with_capacity(n);
        let mut max_colliding: usize = 0;
        for t in 0..n
            invariant
                n == xs@.len(),
                ops_in_range(ast@),
                keys@ == audit_keys(),
                dys == diff_words(ast@, dx, xs@),
                forall|v: u64| #[trigger] diff_map@.contains_key(v) <==> dys.take(t as int).contains(v),
                forall|v: u64| #[trigger] diff_map@.contains_key(v) ==> diff_map@[v] == count_of(dys.take(t as int), v),
                max_colliding <= t,
                is_max_multiplicity(dys.take(t as int), max_colliding as nat),
        {
            let x = xs[t];
            let dy = ast.eval_keyed(x, &keys) ^ ast.eval_keyed(x ^ dx, &keys);
            let ghost before = dys.take(t as int);
            let ghost after = dys.take(t + 1);
            assert(dy == dys[t as int]);
            assert(after =~= before.push(dy));
            let count = match diff_map.get(&dy) {
                Some(c) => {
                    proof {
                        lemma_count_of_le(before, dy);
                    }
                    *c + 1
                },
                None => 1,
            };
            proof {
                if !diff_map@.contains_key(dy) {
                    lemma_count_of_absent(before, dy);
                }
                lemma_count_of_push(before, dy, dy);
            }
            assert(count == count_of(after, dy));
            diff_map.insert(dy, count);
            if count > max_colliding {
                max_colliding = count;
            }
            proof {
                assert forall|v: u64| #[trigger] diff_map@.contains_key(v) <==> after.contains(v) by {
                    if after.contains(v) && v != dy {
                        let k = choose|k: int| 0 <= k < after.len() && #[trigger] after[k] == v;
                        assert(before[k] == v);
                    }
                    if before.contains(v) {
                        let k = choose|k: int| 0 <= k < before.len() && #[trigger] before[k] == v;
                        assert(after[k] == v);
                    }
                    if v == dy {
                        assert(after[t as int] == v);
                    }
                }
                assert forall|v: u64| #[trigger] diff_map@.contains_key(v) implies diff_map@[v] == count_of(after, v) by {
                    lemma_count_of_push(before, dy, v);
                }
                assert forall|k: int| 0 <= k < after.len() implies #[trigger] count_of(after, after[k]) <= max_colliding by {
                    lemma_count_of_push(before, dy, after[k]);
                    if k < t {
                        assert(after[k] == before[k]);
                    }
                }
                if count == max_colliding {
                    assert(count_of(after, after[t as int]) == max_colliding);
                } else {
                    let k = choose|k: int| 0 <= k < before.len() && #[trigger] count_of(before, before[k]) == max_colliding;
                    lemma_count_of_push(before, dy, before[k]);
                    assert(after[k] == before[k]);
                    assert(before[k] != dy) by {
                        if before[k] == dy {
                            assert(diff_map@.contains_key(dy));
                        }
                    }
                    assert(count_of(after, after[k]) == max_colliding);
                }
            }
        }
        assert(dys.take(n as int) =~= dys);
        proof {
            lemma_max_multiplicity(dys, max_colliding as nat);
        }
        max_colliding
    }

    /// Differential test: in 64 rounds, picks a random one-bit input
    /// difference and `trials` random inputs, and returns the largest number
    /// of inputs of one round that share one output difference.
    pub fn measure_differential_collisions(ast: &KernelAST, trials: usize) -> (r: usize)
        requires
            ops_in_range(ast@),
        ensures
            exists|dxs: Seq<u64>, xss: Seq<Seq<u64>>|
                {
                    &&& dxs.len() == 64
                    &&& xss.len() == 64
                    &&& forall|k: int| 0 <= k < 64 ==> #[trigger] one_bit(dxs[k]) && xss[k].len() == trials
                    &&& r == max_over_rounds(ast@, dxs, xss)
                },
    {
        let mut rng = thread_rng();
        let mut max_colliding: usize = 0;
        let ghost mut dxs: Seq<u64> = Seq::empty();
        let ghost mut xss: Seq<Seq<u64>> = Seq::empty();
        let mut round: u64 = 0;
        while round < 64
            invariant
                round <= 64,
                ops_in_range(ast@),
                dxs.len() == round,
                xss.len() == round,
                forall|k: int| 0 <= k < round ==> #[trigger] one_bit(dxs[k]) && xss[k].len() == trials,
                max_colliding == max_over_rounds(ast@, dxs, xss),
            decreases 64 - round,
        {
            let shift = gen_range_u64(&mut rng, 0, 64);
            let dx = 1u64 << shift;
            let mut xs: Vec<u64> = Vec::new();
            for t in 0..trials
                invariant
                    xs@.len() == t,
            {
                xs.push(gen_u64(&mut rng));
            }
            let m = Self::max_differential_collisions(ast, dx, xs.as_slice());
            if m > max_colliding {
                max_colliding = m;
            }
            proof {
                let d0 = dxs;
                let x0 = xss;
                dxs = dxs.push(dx);
                xss = xss.push(xs@);
                assert(dxs.drop_last() =~= d0);
                assert(xss.drop_last() =~= x0);
                assert(one_bit(dx));
                assert forall|k: int| 0 <= k < round + 1 implies #[trigger] one_bit(dxs[k]) && xss[k].len() == trials by {
                    if k < round {
                        assert(dxs[k] == d0[k]);
                        assert(xss[k] == x0[k]);
                    } else {
                        assert(dxs[k] == dx);
                        assert(xss[k] == xs@);
                    }
                }
            }
            round = round + 1;
        }
        max_colliding
    }

    /// The chi-squared histogram of the kernel's outputs on `xs`: entry `b`
    /// counts the inputs whose output lands in bucket `b` of 256.
    pub fn chi_squared_counts(ast: &KernelAST, xs: &[u64]) -> (counts: Vec<usize>)
        requires
            ops_in_range(ast@),
        ensures
            counts@.len() == 256,
            forall|b: int| 0 <= b < 256 ==> #[trigger] counts@[b] == bucket_count(ast@, xs@, b as nat),
    {
        let keys: [u64; 2] = [0x517CC1B727220A95, 0x9E3779B97F4A7C15];
        assert(keys@ =~= audit_keys());
        let mut counts: Vec<usize> = Vec::new();
        let mut c: usize = 0;
        while c < 256
            invariant
                c <= 256,
                counts@.len() == c,
                forall|k: int| 0 <= k < c ==> #[trigger] counts@[k] == 0,
            decreases 256 - c,
        {
            counts.push(0);
            c = c + 1;
        }
        let n = xs.len();
        for t in 0..n
            invariant
                n == xs@.len(),
                ops_in_range(ast@),
                keys@ == audit_keys(),
                counts@.len() == 256,
                forall|b: int| 0 <= b < 256 ==> #[trigger] counts@[b] == bucket_count(ast@, xs@.take(t as int), b as nat),
        {
            let y = ast.eval_keyed(xs[t], &keys);
            let folded: u64 = (y ^ (y >> 32)) & 0xFF;
            proof {
                lemma_bit_basics(y ^ (y >> 32u64), 0);
            }
            let b = folded as usize;
            let ghost before = xs@.take(t as int);
            let ghost after = xs@.take(t + 1);
            assert(after.drop_last() =~= before);
            assert(after.last() == xs@[t as int]);
            proof {
                lemma_bucket_count_le(ast@, before, b as nat);
            }
            counts[b] = counts[b] + 1;
            proof {
                assert forall|bb: int| 0 <= bb < 256 implies #[trigger] counts@[bb] == bucket_count(
                    ast@,
                    after,
                    bb as nat,
) by {
                    lemma_bucket_count_step(ast@, xs@, t as int, bb as nat);
                }
            }
        }
        assert(xs@.take(n as int) =~= xs@);
        counts
    }

    /// The chi-squared histogram over `samples` inputs drawn at random.
    pub fn sample_chi_squared_counts(ast: &KernelAST, samples: usize) -> (counts: Vec<usize>)
        requires
            ops_in_range(ast@),
        ensures
            counts@.len() == 256,
            exists|xs: Seq<u64>| xs.len() == samples && forall|b: int| 0 <= b < 256 ==> #[trigger] counts@[b] == bucket_count(ast@, xs, b as nat),
    {
        let mut rng = thread_rng();
        let mut xs: Vec<u64> = Vec::new();
        for t in 0..samples
            invariant
                xs@.len() == t,
        {
            xs.push(gen_u64(&mut rng));
        }
        let counts = Self::chi_squared_counts(ast, xs.as_slice());
        assert(forall|b: int| 0 <= b < 256 ==> #[trigger] counts@[b] == bucket_count(ast@, xs@, b as nat));
        counts
    }
}

// ---------------------------------------------------------------------------
// Laws of the tests
// ---------------------------------------------------------------------------

proof fn lemma_halves(x: u64)
    by (bit_vector)
    ensures
        ((((x >> 32u64) as u32) as u64) << 32u64) | ((x as u32) as u64) == x,
{
}

/// The rows of a rank matrix hold its 16 walk states whole: rows `2r` and
/// `2r + 1` of matrix `idx`, read as the low and the high half of a word, give
/// back state `16 idx + r + 1` of the walk from the rank seed.
pub proof fn lemma_rank_matrix_holds_states(ops: Seq<MicroOp>, idx: nat, r: nat)
    requires
        r < 16,
    ensures
        rank_matrix(ops, idx).len() == 32,
        (((rank_matrix(ops, idx)[2 * r as int + 1] as u64) << 32u64) | (rank_matrix(ops, idx)[2 * r as int] as u64))
            == orbit(ops, audit_keys(), 0x0123456789ABCDEFu64, 16 * idx + r + 1),
{
    let x = orbit(ops, audit_keys(), 0x0123456789ABCDEFu64, 16 * idx + r + 1);
    assert((2 * r + 1) / 2 == r);
    assert((2 * r) / 2 == r);
    lemma_halves(x);
}

proof fn lemma_shift_xor(a: u64, b: u64, k: u64)
    by (bit_vector)
    requires
        k < 64,
    ensures
        (a ^ b) >> k == (a >> k) ^ (b >> k),
        (a ^ b) << k == (a << k) ^ (b << k),
{
}

proof fn lemma_rot_halves_disjoint(x: u64, s: u64)
    by (bit_vector)
    requires
        1 <= s < 64,
    ensures
        (x >> s) | (x << ((64 - s) as u64)) == (x >> s) ^ (x << ((64 - s) as u64)),
{
}

proof fn lemma_xor_algebra(p1: u64, p2: u64, p3: u64, q1: u64, q2: u64, q3: u64)
    by (bit_vector)
    ensures
        (p1 ^ p2 ^ p3) ^ (q1 ^ q2 ^ q3) == (p1 ^ q1) ^ (p2 ^ q2) ^ (p3 ^ q3),
        (p1 ^ p2 ^ p3) ^ q1 == (p1 ^ q1) ^ (p2 ^ q1) ^ (p3 ^ q1),
        p1 ^ p2 ^ 0u64 == p1 ^ p2,
        (p1 ^ p2) ^ p2 == p1,
        p1 ^ (p1 ^ p2 ^ p3) == p2 ^ p3,
        p1 ^ p2 == p2 ^ p1,
{
}

proof fn lemma_shift3(a: u64, b: u64, c: u64, k: u64)
    requires
        k < 64,
    ensures
        (a ^ b ^ c) >> k == (a >> k) ^ (b >> k) ^ (c >> k),
        (a ^ b ^ c) << k == (a << k) ^ (b << k) ^ (c << k),
{
    lemma_shift_xor(a ^ b, c, k);
    lemma_shift_xor(a, b, k);
}

/// The operations that act on the state by xor alone (shifted copies,
/// rotations, constants and keys): every kernel made of them is affine over GF(2).
pub open spec fn xor_linear_op(op: MicroOp) -> bool {
    match op {
        MicroOp::MulOdd(_) => false,
        MicroOp::AddConst(_) => false,
        MicroOp::XorShr(k) => k < 64,
        MicroOp::XorShl(k) => k < 64,
        _ => true,
    }
}

pub open spec fn xor_linear_ops(ops: Seq<MicroOp>) -> bool {
    forall|i: int| 0 <= i < ops.len() ==> #[trigger] xor_linear_op(ops[i])
}

proof fn lemma_apply_affine(op: MicroOp, keys: Seq<u64>, a: u64, b: u64, c: u64)
    requires
        xor_linear_op(op),
    ensures
        apply_op(op, keys, a ^ b ^ c) == apply_op(op, keys, a) ^ apply_op(op, keys, b) ^ apply_op(op, keys, c),
{
    match op {
        MicroOp::XorConst(d) => lemma_xor_algebra(a, b, c, d, 0, 0),
        MicroOp::KeyXor(idx) => lemma_xor_algebra(a, b, c, key_of(keys, idx), 0, 0),
        MicroOp::XorShr(k) => {
            let k = k as u64;
            lemma_shift3(a, b, c, k);
            lemma_xor_algebra(a, b, c, a >> k, b >> k, c >> k);
        },
        MicroOp::XorShl(k) => {
            let k = k as u64;
            lemma_shift3(a, b, c, k);
            lemma_xor_algebra(a, b, c, a << k, b << k, c << k);
        },
        MicroOp::Ror(k) => {
            let s = (k as u64) % 64;
            if s != 0 {
                let t = (64 - s) as u64;
                lemma_shift3(a, b, c, s);
                lemma_shift3(a, b, c, t);
                lemma_rot_halves_disjoint(a ^ b ^ c, s);
                lemma_rot_halves_disjoint(a, s);
                lemma_rot_halves_disjoint(b, s);
                lemma_rot_halves_disjoint(c, s);
                lemma_xor_algebra(a >> s, b >> s, c >> s, a << t, b << t, c << t);
            }
        },
        _ => {},
    }
}

proof fn lemma_eval_affine(ops: Seq<MicroOp>, keys: Seq<u64>, a: u64, b: u64, c: u64)
    requires
        xor_linear_ops(ops),
    ensures
        eval_ops(ops, keys, a ^ b ^ c) == eval_ops(ops, keys, a) ^ eval_ops(ops, keys, b) ^ eval_ops(ops, keys, c),
    decreases ops.len(),
{
    if ops.len() > 0 {
        let init = ops.drop_last();
        assert(xor_linear_op(ops[ops.len() - 1]));
        assert forall|i: int| 0 <= i < init.len() implies #[trigger] xor_linear_op(init[i]) by {
            assert(xor_linear_op(ops[i]));
        }
        lemma_eval_affine(init, keys, a, b, c);
        lemma_apply_affine(
            ops.last(),
            keys,
            eval_ops(init, keys, a),
            eval_ops(init, keys, b),
            eval_ops(init, keys, c),
        );
    }
}

/// The inputs `x` and `x ^ dx` form one pair: both give the same output
/// difference.
pub proof fn lemma_diff_word_pair(ops: Seq<MicroOp>, dx: u64, x: u64)
    ensures
        diff_word(ops, dx, x ^ dx) == diff_word(ops, dx, x),
{
    lemma_xor_algebra(x, dx, 0, 0, 0, 0);
    let p = eval_ops(ops, audit_keys(), x);
    let q = eval_ops(ops, audit_keys(), x ^ dx);
    lemma_xor_algebra(q, p, 0, 0, 0, 0);
}

/// For a kernel made only of xorshifts, rotations and xors with constants or
/// keys, the output difference of `(x, x ^ dx)` is the same for every `x`.
pub proof fn lemma_diff_word_linear(ops: Seq<MicroOp>, dx: u64, x: u64)
    requires
        xor_linear_ops(ops),
    ensures
        diff_word(ops, dx, x) == eval_ops(ops, audit_keys(), dx) ^ eval_ops(ops, audit_keys(), 0),
{
    let keys = audit_keys();
    lemma_xor_algebra(x, dx, 0, 0, 0, 0);
    lemma_eval_affine(ops, keys, x, dx, 0);
    lemma_xor_algebra(eval_ops(ops, keys, x), eval_ops(ops, keys, dx), eval_ops(ops, keys, 0), 0, 0, 0);
}

proof fn lemma_count_of_constant(s: Seq<u64>, v: u64)
    requires
        forall|t: int| 0 <= t < s.len() ==> s[t] == v,
    ensures
        count_of(s, v) == s.len(),
    decreases s.len(),
{
    if s.len() > 0 {
        lemma_count_of_constant(s.drop_last(), v);
    }
}

proof fn lemma_max_count_constant(s: Seq<u64>, v: u64, n: nat)
    requires
        forall|t: int| 0 <= t < s.len() ==> s[t] == v,
        1 <= n <= s.len(),
    ensures
        max_count_upto(s, n) == s.len(),
    decreases n,
{
    lemma_count_of_constant(s, v);
    assert(s[n - 1] == v);
    if n > 1 {
        lemma_max_count_constant(s, v, (n - 1) as nat);
    } else {
        assert(max_count_upto(s, 0) == 0);
    }
    assert(count_of(s, s[n - 1]) == s.len());
}

/// For a kernel made only of xorshifts, rotations and xors with constants or
/// keys, every input shares one output difference: the differential count
/// over a nonempty `xs` is `xs.len()`.
pub proof fn lemma_linear_kernel_collisions(ops: Seq<MicroOp>, dx: u64, xs: Seq<u64>)
    requires
        xor_linear_ops(ops),
        xs.len() > 0,
    ensures
        max_multiplicity(diff_words(ops, dx, xs)) == xs.len(),
{
    let s = diff_words(ops, dx, xs);
    let v = eval_ops(ops, audit_keys(), dx) ^ eval_ops(ops, audit_keys(), 0);
    assert forall|t: int| 0 <= t < s.len() implies s[t] == v by {
        lemma_diff_word_linear(ops, dx, xs[t]);
    }
    lemma_max_count_constant(s, v, s.len());
}

/// The shape penalty looks at the last operation only to ask whether it is an
/// xorshift, in either direction: ending in `XorShr` or in `XorShl` costs the
/// same, ending in anything else costs 30 more, and four operations ending in
/// an xorshift cost nothing.
pub proof fn lemma_structure_penalty_tail(ops: Seq<MicroOp>, k1: u8, k2: u8, op: MicroOp)
    requires
        ops.len() > 0,
        !(op is XorShr || op is XorShl),
    ensures
        structure_penalty_spec(ops.update(ops.len() - 1, MicroOp::XorShr(k1)))
            == structure_penalty_spec(ops.update(ops.len() - 1, MicroOp::XorShl(k2))),
        structure_penalty_spec(ops.update(ops.len() - 1, op))
            == structure_penalty_spec(ops.update(ops.len() - 1, MicroOp::XorShl(k2))) + 30,
        ops.len() == 4 ==> structure_penalty_spec(ops.update(ops.len() - 1, MicroOp::XorShl(k2))) == 0,
        ops.len() == 4 ==> structure_penalty_spec(ops.update(ops.len() - 1, MicroOp::XorShr(k1))) == 0,
{
    let n = ops.len() - 1;
    assert(ops.update(n, MicroOp::XorShr(k1)).last() == MicroOp::XorShr(k1));
    assert(ops.update(n, MicroOp::XorShl(k2)).last() == MicroOp::XorShl(k2));
    assert(ops.update(n, op).last() == op);
}

proof fn lemma_fold_bits(x: u64, y: u64, z: u64)
    by (bit_vector)
    requires
        z == (x << 32u64) | (x >> 32u64),
    ensures
        (z ^ (z >> 32u64)) as u32 == (x ^ (x >> 32u64)) as u32,
        x as u32 == y as u32 && x >> 32u64 != y >> 32u64 ==> (x ^ (x >> 32u64)) as u32 != (y ^ (y >> 32u64)) as u32,
        x >> 32u64 == y >> 32u64 && x as u32 != y as u32 ==> (x ^ (x >> 32u64)) as u32 != (y ^ (y >> 32u64)) as u32,
        ((x ^ y) ^ ((x ^ y) >> 32u64)) as u32 == ((x ^ (x >> 32u64)) as u32) ^ ((y ^ (y >> 32u64)) as u32),
        x < 0x1_0000_0000u64 ==> (x ^ (x >> 32u64)) as u32 == x as u32,
{
}

/// Each operation away from four costs 25: putting one more operation in
/// front of a kernel (its last operation stays) adds 25 from four operations
/// up, and takes 25 off below four.
pub proof fn lemma_structure_penalty_length(ops: Seq<MicroOp>, op: MicroOp)
    requires
        ops.len() > 0,
    ensures
        structure_penalty_spec(seq![op] + ops) == structure_penalty_spec(ops) + (if ops.len() >= 4 { 25int } else { -25int }),
{
    assert((seq![op] + ops).last() == ops.last());
}

/// The birthday test files a state under both of its halves: states that
/// agree in one half and differ in the other never share a word, a state and
/// the one with its halves swapped always do, the word of an xor is the xor
/// of the words, and a state below 2^32 is filed under itself.
pub proof fn lemma_fold32_both_halves(x: u64, y: u64)
    ensures
        fold32((x << 32u64) | (x >> 32u64)) == fold32(x),
        fold32(x ^ y) == fold32(x) ^ fold32(y),
        x < 0x1_0000_0000u64 ==> fold32(x) == x as u32,
        (x as u32 == y as u32 && x >> 32u64 != y >> 32u64) ==> fold32(x) != fold32(y),
        (x >> 32u64 == y >> 32u64 && x as u32 != y as u32) ==> fold32(x) != fold32(y),
{
    lemma_fold_bits(x, y, (x << 32u64) | (x >> 32u64));
}

} // verus!
