//! Rank over GF(2) of a 32 x 32 bit matrix, by Gaussian elimination. The
//! result is characterised by a row-equivalent matrix in echelon form.
use vstd::prelude::*;

verus! {

/// The xor of the rows of `rows` that `sel` selects.
pub open spec fn xor_sel(rows: Seq<u32>, sel: Seq<bool>) -> u32
    decreases rows.len(),
{
    if rows.len() == 0 || sel.len() == 0 {
        0
    } else {
        xor_sel(rows.drop_last(), sel.drop_last()) ^ (if sel.last() { rows.last() } else { 0u32 })
    }
}

/// `v` is an xor of some of the rows.
pub open spec fn in_span(rows: Seq<u32>, v: u32) -> bool {
    exists|sel: Seq<bool>| sel.len() == rows.len() && #[trigger] xor_sel(rows, sel) == v
}

/// Every row of each matrix is an xor of rows of the other.
pub open spec fn same_span(a: Seq<u32>, b: Seq<u32>) -> bool {
    &&& forall|i: int| 0 <= i < a.len() ==> in_span(b, #[trigger] a[i])
    &&& forall|i: int| 0 <= i < b.len() ==> in_span(a, #[trigger] b[i])
}

/// Bits `p` and up of `v` are clear.
pub open spec fn high_zero(v: u32, p: nat) -> bool {
    (v as u64) >> (p as u64) == 0
}

/// The highest set bit of `v` is bit `p`.
pub open spec fn leads_at(v: u32, p: nat) -> bool {
    (v as u64) >> (p as u64) == 1
}

/// `m` is in echelon form with `r` nonzero rows: those come first, and their
/// highest set bits strictly decrease.
pub open spec fn is_echelon(m: Seq<u32>, r: nat) -> bool {
    &&& r <= m.len()
    &&& forall|i: int| r <= i < m.len() ==> #[trigger] m[i] == 0
    &&& exists|piv: Seq<nat>|
        {
            &&& piv.len() == r
            &&& forall|i: int| 0 <= i < r ==> #[trigger] leads_at(m[i], piv[i])
            &&& forall|i: int, j: int| 0 <= i < j < r ==> #[trigger] piv[i] > #[trigger] piv[j]
        }
}

/// `r` is the rank of `rows` over GF(2): some matrix with the same row span is
/// in echelon form with `r` nonzero rows.
pub open spec fn is_gf2_rank(rows: Seq<u32>, r: nat) -> bool {
    exists|m: Seq<u32>| m.len() == rows.len() && #[trigger] same_span(rows, m) && is_echelon(m, r)
}

// ---------------------------------------------------------------------------
// Span lemmas
// ---------------------------------------------------------------------------

proof fn lemma_xor_u32(a: u32, b: u32, x: u32)
    by (bit_vector)
    ensures
        (a ^ x) ^ (b ^ x) == (a ^ b) ^ 0u32,
        (a ^ x) ^ (b ^ 0u32) == (a ^ b) ^ x,
        (a ^ 0u32) ^ (b ^ x) == (a ^ b) ^ x,
        (a ^ 0u32) ^ (b ^ 0u32) == (a ^ b) ^ 0u32,
        a ^ 0u32 == a,
        0u32 ^ a == a,
        (a ^ b) ^ b == a,
{
}

proof fn lemma_xor_sel_xor(rows: Seq<u32>, s1: Seq<bool>, s2: Seq<bool>)
    requires
        s1.len() == rows.len(),
        s2.len() == rows.len(),
    ensures
        xor_sel(rows, s1) ^ xor_sel(rows, s2) == xor_sel(rows, Seq::new(rows.len(), |i: int| s1[i] != s2[i])),
    decreases rows.len(),
{
    let s3 = Seq::new(rows.len(), |i: int| s1[i] != s2[i]);
    if rows.len() > 0 {
        let r = rows.drop_last();
        lemma_xor_sel_xor(r, s1.drop_last(), s2.drop_last());
        assert(s3.drop_last() =~= Seq::new(r.len(), |i: int| s1.drop_last()[i] != s2.drop_last()[i]));
        let a = xor_sel(r, s1.drop_last());
        let b = xor_sel(r, s2.drop_last());
        lemma_xor_u32(a, b, rows.last());
    } else {
        lemma_xor_u32(0, 0, 0);
    }
}

proof fn lemma_xor_sel_single(rows: Seq<u32>, k: int)
    requires
        0 <= k < rows.len(),
    ensures
        xor_sel(rows, Seq::new(rows.len(), |i: int| i == k)) == rows[k],
    decreases rows.len(),
{
    let s = Seq::new(rows.len(), |i: int| i == k);
    let r = rows.drop_last();
    if k < rows.len() - 1 {
        lemma_xor_sel_single(r, k);
        assert(s.drop_last() =~= Seq::new(r.len(), |i: int| i == k));
        lemma_xor_u32(xor_sel(r, s.drop_last()), 0, 0);
    } else {
        lemma_xor_sel_none(r);
        assert(s.drop_last() =~= Seq::new(r.len(), |i: int| false));
        lemma_xor_u32(rows.last(), 0, 0);
    }
}

proof fn lemma_xor_sel_none(rows: Seq<u32>)
    ensures
        xor_sel(rows, Seq::new(rows.len(), |i: int| false)) == 0,
    decreases rows.len(),
{
    if rows.len() > 0 {
        let r = rows.drop_last();
        lemma_xor_sel_none(r);
        assert(Seq::new(rows.len(), |i: int| false).drop_last() =~= Seq::new(r.len(), |i: int| false));
        lemma_xor_u32(0, 0, 0);
    }
}

proof fn lemma_in_span_row(rows: Seq<u32>, k: int)
    requires
        0 <= k < rows.len(),
    ensures
        in_span(rows, rows[k]),
{
    lemma_xor_sel_single(rows, k);
    let s = Seq::new(rows.len(), |i: int| i == k);
    assert(s.len() == rows.len() && xor_sel(rows, s) == rows[k]);
}

proof fn lemma_in_span_xor(rows: Seq<u32>, u: u32, w: u32)
    requires
        in_span(rows, u),
        in_span(rows, w),
    ensures
        in_span(rows, u ^ w),
{
    let s1 = choose|s: Seq<bool>| s.len() == rows.len() && #[trigger] xor_sel(rows, s) == u;
    let s2 = choose|s: Seq<bool>| s.len() == rows.len() && #[trigger] xor_sel(rows, s) == w;
    lemma_xor_sel_xor(rows, s1, s2);
    let s3 = Seq::new(rows.len(), |i: int| s1[i] != s2[i]);
    assert(s3.len() == rows.len() && xor_sel(rows, s3) == u ^ w);
}

proof fn lemma_in_span_zero(rows: Seq<u32>)
    ensures
        in_span(rows, 0),
{
    lemma_xor_sel_none(rows);
    let s = Seq::new(rows.len(), |i: int| false);
    assert(s.len() == rows.len() && xor_sel(rows, s) == 0);
}

/// An xor of rows of `b`, each an xor of rows of `c`, is an xor of rows of `c`.
proof fn lemma_span_compose(b: Seq<u32>, c: Seq<u32>, sel: Seq<bool>)
    requires
        sel.len() == b.len(),
        forall|k: int| 0 <= k < b.len() ==> in_span(c, #[trigger] b[k]),
    ensures
        in_span(c, xor_sel(b, sel)),
    decreases b.len(),
{
    if b.len() == 0 {
        lemma_in_span_zero(c);
    } else {
        let b2 = b.drop_last();
        assert forall|k: int| 0 <= k < b2.len() implies in_span(c, #[trigger] b2[k]) by {
            assert(b2[k] == b[k]);
        }
        lemma_span_compose(b2, c, sel.drop_last());
        assert(in_span(c, b[b.len() - 1]));
        if sel.last() {
            lemma_in_span_xor(c, xor_sel(b2, sel.drop_last()), b.last());
        } else {
            lemma_in_span_zero(c);
            lemma_in_span_xor(c, xor_sel(b2, sel.drop_last()), 0);
        }
    }
}

proof fn lemma_in_span_trans(b: Seq<u32>, c: Seq<u32>, v: u32)
    requires
        in_span(b, v),
        forall|k: int| 0 <= k < b.len() ==> in_span(c, #[trigger] b[k]),
    ensures
        in_span(c, v),
{
    let sel = choose|s: Seq<bool>| s.len() == b.len() && #[trigger] xor_sel(b, s) == v;
    lemma_span_compose(b, c, sel);
}

/// Exchanging two rows keeps the span.
proof fn lemma_span_swap(orig: Seq<u32>, m: Seq<u32>, a: int, b: int)
    requires
        same_span(orig, m),
        0 <= a < m.len(),
        0 <= b < m.len(),
    ensures
        same_span(orig, m.update(a, m[b]).update(b, m[a])),
{
    let m2 = m.update(a, m[b]).update(b, m[a]);
    assert forall|k: int| 0 <= k < m2.len() implies in_span(m, #[trigger] m2[k]) by {
        if k == b {
            lemma_in_span_row(m, a);
        } else if k == a {
            lemma_in_span_row(m, b);
        } else {
            lemma_in_span_row(m, k);
        }
    }
    assert forall|k: int| 0 <= k < m.len() implies in_span(m2, #[trigger] m[k]) by {
        if k == a {
            lemma_in_span_row(m2, b);
        } else if k == b {
            lemma_in_span_row(m2, a);
        } else {
            lemma_in_span_row(m2, k);
        }
    }
    assert forall|i: int| 0 <= i < orig.len() implies in_span(m2, #[trigger] orig[i]) by {
        lemma_in_span_trans(m, m2, orig[i]);
    }
    assert forall|i: int| 0 <= i < m2.len() implies in_span(orig, #[trigger] m2[i]) by {
        assert forall|k: int| 0 <= k < m.len() implies in_span(orig, #[trigger] m[k]) by {}
        lemma_in_span_trans(m, orig, m2[i]);
    }
}

/// Xoring one row into another keeps the span.
proof fn lemma_span_xor_row(orig: Seq<u32>, m: Seq<u32>, i: int, j: int)
    requires
        same_span(orig, m),
        0 <= i < m.len(),
        0 <= j < m.len(),
        i != j,
    ensures
        same_span(orig, m.update(i, m[i] ^ m[j])),
{
    let m2 = m.update(i, m[i] ^ m[j]);
    assert forall|k: int| 0 <= k < m2.len() implies in_span(m, #[trigger] m2[k]) by {
        lemma_in_span_row(m, k);
        if k == i {
            lemma_in_span_row(m, j);
            lemma_in_span_xor(m, m[i], m[j]);
        }
    }
    assert forall|k: int| 0 <= k < m.len() implies in_span(m2, #[trigger] m[k]) by {
        lemma_in_span_row(m2, k);
        if k == i {
            lemma_in_span_row(m2, j);
            lemma_in_span_xor(m2, m2[i], m2[j]);
            lemma_xor_u32(m[i], m[j], 0);
        }
    }
    assert forall|k: int| 0 <= k < orig.len() implies in_span(m2, #[trigger] orig[k]) by {
        lemma_in_span_trans(m, m2, orig[k]);
    }
    assert forall|k: int| 0 <= k < m2.len() implies in_span(orig, #[trigger] m2[k]) by {
        assert forall|t: int| 0 <= t < m.len() implies in_span(orig, #[trigger] m[t]) by {}
        lemma_in_span_trans(m, orig, m2[k]);
    }
}

proof fn lemma_same_span_refl(m: Seq<u32>)
    ensures
        same_span(m, m),
{
    assert forall|k: int| 0 <= k < m.len() implies in_span(m, #[trigger] m[k]) by {
        lemma_in_span_row(m, k);
    }
}

// ---------------------------------------------------------------------------
// Elimination
// ---------------------------------------------------------------------------

proof fn lemma_pivot_bits(v: u32, w: u32, p: u32, q: u32)
    by (bit_vector)
    requires
        p < 32,
    ensures
        ((v as u64) >> ((p + 1) as u64) == 0 && (v & (1u32 << p)) != 0) ==> (v as u64) >> (p as u64) == 1,
        ((v as u64) >> ((p + 1) as u64) == 0 && (v & (1u32 << p)) == 0) ==> (v as u64) >> (p as u64) == 0,
        ((v as u64) >> ((p + 1) as u64) == 0 && (w as u64) >> ((p + 1) as u64) == 0 && (v & (1u32 << p)) != 0
            && (w & (1u32 << p)) != 0) ==> ((v ^ w) as u64) >> (p as u64) == 0,
        (p < q && q < 32 && (v as u64) >> (q as u64) == 1 && (w as u64) >> ((p + 1) as u64) == 0) ==> ((v ^ w) as u64)
            >> (q as u64) == 1,
        (v as u64) >> 32u64 == 0,
        (v as u64) >> 0u64 == 0 ==> v == 0,
        (v as u64) >> (p as u64) == 1 ==> v != 0,
{
}

/// The rank of a 32 x 32 matrix over GF(2), one row per word (column `c`
/// is bit `31 - c`), by Gaussian elimination.
pub fn gf2_rank(rows: [u32; 32]) -> (rank: usize)
    ensures
        rank <= 32,
        is_gf2_rank(rows@, rank as nat),
{
    let mut mat = rows;
    let mut rank: usize = 0;
    let ghost mut piv: Seq<nat> = Seq::empty();
    proof {
        lemma_same_span_refl(rows@);
        assert forall|i: int| 0 <= i < 32 implies high_zero(#[trigger] mat@[i], 32) by {
            lemma_pivot_bits(mat@[i], 0, 0, 0);
        }
    }
    let mut col: u32 = 0;
    while col < 32
        invariant
            col <= 32,
            rank <= col,
            mat@.len() == 32,
            same_span(rows@, mat@),
            piv.len() == rank,
            forall|i: int| 0 <= i < rank ==> #[trigger] leads_at(mat@[i], piv[i]),
            forall|i: int, j: int| 0 <= i < j < rank ==> #[trigger] piv[i] > #[trigger] piv[j],
            forall|i: int| 0 <= i < rank ==> #[trigger] piv[i] >= 32 - col,
            forall|i: int| 0 <= i < rank ==> #[trigger] piv[i] < 32,
            forall|i: int| rank <= i < 32 ==> high_zero(#[trigger] mat@[i], (32 - col) as nat),
        decreases 32 - col,
    {
        let b: u32 = 31 - col;
        let mask = 1u32 << b;
        let mut pivot: usize = 32;
        let mut row: usize = rank;
        while row < 32
            invariant_except_break
                pivot == 32,
            invariant
                rank <= row <= 32,
                mat@.len() == 32,
                forall|r: int| rank <= r < row ==> #[trigger] mat@[r] & mask == 0,
            ensures
                pivot <= 32,
                pivot == 32 ==> forall|r: int| rank <= r < 32 ==> #[trigger] mat@[r] & mask == 0,
                pivot < 32 ==> rank <= pivot && mat@[pivot as int] & mask != 0,
            decreases 32 - row,
        {
            if (mat[row] & mask) != 0 {
                pivot = row;
                break;
            }
            row = row + 1;
        }
        if pivot < 32 {
            let ghost before = mat@;
            let top = mat[pivot];
            let other = mat[rank];
            mat[rank] = top;
            mat[pivot] = other;
            proof {
                lemma_span_swap(rows@, before, rank as int, pivot as int);
                assert(mat@ =~= before.update(rank as int, before[pivot as int]).update(pivot as int, before[rank as int]));
                lemma_pivot_bits(top, 0, b, 0);
                assert(high_zero(top, (b + 1) as nat));
                assert(leads_at(top, b as nat));
                assert forall|i: int| rank < i < 32 implies high_zero(#[trigger] mat@[i], (b + 1) as nat) by {
                    if i == pivot {
                        assert(mat@[i] == before[rank as int]);
                    } else {
                        assert(mat@[i] == before[i]);
                    }
                }
            }
            let mut r: usize = 0;
            while r < 32
                invariant
                    r <= 32,
                    rank < 32,
                    b < 32,
                    mask == 1u32 << b,
                    mat@.len() == 32,
                    same_span(rows@, mat@),
                    mat@[rank as int] == top,
                    leads_at(top, b as nat),
                    high_zero(top, (b + 1) as nat),
                    top & mask != 0,
                    piv.len() == rank,
                    forall|i: int| 0 <= i < rank ==> #[trigger] leads_at(mat@[i], piv[i]),
                    forall|i: int| 0 <= i < rank ==> #[trigger] piv[i] > b,
                    forall|i: int| 0 <= i < rank ==> #[trigger] piv[i] < 32,
                    forall|i: int| rank < i < r ==> high_zero(#[trigger] mat@[i], b as nat),
                    forall|i: int| rank < i < 32 && r <= i ==> high_zero(#[trigger] mat@[i], (b + 1) as nat),
                decreases 32 - r,
            {
                if r != rank && (mat[r] & mask) != 0 {
                    let ghost m0 = mat@;
                    let cur = mat[r];
                    let x = cur ^ top;
                    mat[r] = x;
                    proof {
                        lemma_span_xor_row(rows@, m0, r as int, rank as int);
                        assert(mat@ =~= m0.update(r as int, m0[r as int] ^ m0[rank as int]));
                        if r < rank {
                            let q = piv[r as int] as u32;
                            assert(leads_at(cur, piv[r as int]));
                            lemma_pivot_bits(cur, top, b, q);
                            assert(leads_at(x, piv[r as int]));
                        } else {
                            lemma_pivot_bits(cur, top, b, 0);
                        }
                    }
                } else if r > rank {
                    proof {
                        lemma_pivot_bits(mat@[r as int], 0, b, 0);
                    }
                }
                r = r + 1;
            }
            proof {
                let p0 = piv;
                piv = piv.push(b as nat);
                assert forall|i: int| 0 <= i < rank + 1 implies #[trigger] leads_at(mat@[i], piv[i]) by {
                    if i < rank {
                        assert(piv[i] == p0[i]);
                    }
                }
                assert forall|i: int, j: int| 0 <= i < j < rank + 1 implies #[trigger] piv[i] > #[trigger] piv[j] by {
                    assert(piv[i] == p0[i]);
                    if j < rank {
                        assert(piv[j] == p0[j]);
                    }
                }
            }
            rank = rank + 1;
        } else {
            proof {
                assert forall|i: int| rank <= i < 32 implies high_zero(#[trigger] mat@[i], b as nat) by {
                    assert(mat@[i] & mask == 0);
                    assert(high_zero(mat@[i], (b + 1) as nat));
                    lemma_pivot_bits(mat@[i], 0, b, 0);
                }
            }
        }
        col = col + 1;
    }
    proof {
        assert forall|i: int| rank <= i < 32 implies #[trigger] mat@[i] == 0 by {
            lemma_pivot_bits(mat@[i], 0, 0, 0);
        }
        assert(is_echelon(mat@, rank as nat));
    }
    rank
}

} // verus!
