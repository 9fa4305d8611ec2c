//! The bucket method for one chunk on one device, host side.
//!
//! For one window, every term whose signed digit is `d != 0` lands in bucket
//! `|d| - 1` (negated first when `d < 0`); a suffix running sum then yields
//! `sum of (b+1) * bucket[b]`, which is that window's partial sum. Partials
//! are laid out group-major with the most significant window first, and a
//! Horner loop of `w` doublings per window folds them into the final point.

use vstd::prelude::*;
use vstd::arithmetic::power2::pow2;
use vstd::arithmetic::mul::{lemma_mul_nonnegative, lemma_mul_basics};
use crate::model::{r_mod, lemma_mod_add_l, lemma_mod_add_r, lemma_mod_mul_l};
use crate::sizing::div_ceil_spec;
use crate::curve::{g1a_val, g1p_val, g1_identity, g1_add, g1_add_mixed, g1_double, g1_neg_affine, g1_base_vals,
    g2a_val, g2p_val, g2_identity, g2_add, g2_add_mixed, g2_double, g2_neg_affine, g2_base_vals};

verus! {

/// The sum of a sequence of discrete logarithms.
pub open spec fn ssum(s: Seq<nat>) -> int
    decreases s.len(),
{
    if s.len() == 0 {
        0
    } else {
        s[0] + ssum(s.skip(1))
    }
}

/// The weighted bucket sum `sum of (i+1) * s[i]`: what a window's buckets are
/// worth once each bucket is multiplied by the digit it stands for.
pub open spec fn wsum(s: Seq<nat>) -> int
    decreases s.len(),
{
    if s.len() == 0 {
        0
    } else {
        s[0] + wsum(s.skip(1)) + ssum(s.skip(1))
    }
}

proof fn lemma_ssum_update(s: Seq<nat>, k: int, x: nat)
    requires
        0 <= k < s.len(),
    ensures
        ssum(s.update(k, x)) == ssum(s) + x - s[k],
    decreases k,
{
    if k == 0 {
        assert(s.update(0, x).skip(1) =~= s.skip(1));
    } else {
        assert(s.update(k, x).skip(1) =~= s.skip(1).update(k - 1, x));
        lemma_ssum_update(s.skip(1), k - 1, x);
    }
}

proof fn lemma_wsum_update(s: Seq<nat>, k: int, x: nat)
    requires
        0 <= k < s.len(),
    ensures
        wsum(s.update(k, x)) == wsum(s) + (k + 1) * (x - s[k]),
    decreases k,
{
    if k == 0 {
        assert(s.update(0, x).skip(1) =~= s.skip(1));
        assert(1 * (x - s[0]) == x - s[0]) by (nonlinear_arith);
    } else {
        assert(s.update(k, x).skip(1) =~= s.skip(1).update(k - 1, x));
        lemma_wsum_update(s.skip(1), k - 1, x);
        lemma_ssum_update(s.skip(1), k - 1, x);
        assert(k * (x - s[k]) + (x - s[k]) == (k + 1) * (x - s[k])) by (nonlinear_arith);
    }
}

/// The contribution of terms `[lo, hi)` to window `j`:
/// `sum of ds[t * nw + j] * pv[t]`.
pub open spec fn col_dot(ds: Seq<i32>, pv: Seq<nat>, nw: int, j: int, lo: int, hi: int) -> int
    decreases hi - lo,
{
    if lo >= hi {
        0
    } else {
        ds[lo * nw + j] * pv[lo] + col_dot(ds, pv, nw, j, lo + 1, hi)
    }
}

pub proof fn lemma_col_dot_snoc(ds: Seq<i32>, pv: Seq<nat>, nw: int, j: int, lo: int, hi: int)
    requires
        lo <= hi,
    ensures
        col_dot(ds, pv, nw, j, lo, hi + 1) == col_dot(ds, pv, nw, j, lo, hi) + ds[hi * nw + j] * pv[hi],
    decreases hi - lo,
{
    if lo >= hi {
        assert(col_dot(ds, pv, nw, j, lo, hi) == 0);
        assert(col_dot(ds, pv, nw, j, lo + 1, hi + 1) == 0);
        assert(col_dot(ds, pv, nw, j, lo, hi + 1)
            == ds[lo * nw + j] * pv[lo] + col_dot(ds, pv, nw, j, lo + 1, hi + 1));
    } else {
        lemma_col_dot_snoc(ds, pv, nw, j, lo + 1, hi);
    }
}

/// The discrete logarithms of a vector of projective points.
pub open spec fn point_vals(ps: Seq<blstrs::G1Projective>) -> Seq<nat> {
    ps.map_values(|p: blstrs::G1Projective| g1p_val(p))
}

/// One window's partial sum over terms `[lo, hi)` by the bucket method.
///
/// Digit `d > 0` adds base `t` to bucket `d - 1`; digit `d < 0` adds the
/// negated base to bucket `-d - 1`; the suffix running sums then weight each
/// bucket by the digit it stands for.
pub fn g1_window_partial(
    bases: &[blstrs::G1Affine],
    ds: &Vec<i32>,
    num_windows: usize,
    j: usize,
    lo: usize,
    hi: usize,
    bucket_len: usize,
) -> (r: blstrs::G1Projective)
    requires
        ds@.len() == bases@.len() * num_windows,
        j < num_windows,
        lo <= hi <= bases@.len(),
        1 <= bucket_len,
        bases@.len() * num_windows <= usize::MAX,
        forall|i: int| 0 <= i < ds@.len()
            ==> -(bucket_len as int) <= #[trigger] ds@[i] <= bucket_len as int,
    ensures
        g1p_val(r) == col_dot(ds@, g1_base_vals(bases@), num_windows as int, j as int, lo as int, hi as int)
            % (r_mod() as int),
{
    let m: usize = bases.len();
    let rr: Ghost<int> = Ghost(r_mod() as int);
    let pv: Ghost<Seq<nat>> = Ghost(g1_base_vals(bases@));
    let mut buckets: Vec<blstrs::G1Projective> = Vec::new();
    while buckets.len() < bucket_len
        invariant
            buckets@.len() <= bucket_len,
            forall|i: int| 0 <= i < buckets@.len() ==> g1p_val(#[trigger] buckets@[i]) == 0,
        decreases bucket_len - buckets@.len(),
    {
        buckets.push(g1_identity());
    }
    proof {
        lemma_ssum_wsum_zero(point_vals(buckets@));
        crate::model::lemma_r_mod_pos();
        assert(col_dot(ds@, pv@, num_windows as int, j as int, lo as int, lo as int) == 0);
        assert(0int % rr@ == 0) by (nonlinear_arith)
            requires rr@ > 1;
    }
    let mut t: usize = lo;
    while t < hi
        invariant
            m == bases@.len(),
            ds@.len() == m * num_windows,
            j < num_windows,
            lo <= t <= hi <= m,
            1 <= bucket_len,
            m * num_windows <= usize::MAX,
            buckets@.len() == bucket_len,
            rr@ == r_mod() as int,
            pv@ == g1_base_vals(bases@),
            forall|i: int| 0 <= i < ds@.len()
                ==> -(bucket_len as int) <= #[trigger] ds@[i] <= bucket_len as int,
            wsum(point_vals(buckets@)) % rr@
                == col_dot(ds@, pv@, num_windows as int, j as int, lo as int, t as int) % rr@,
        decreases hi - t,
    {
        proof {
            assert(t * num_windows + j < m * num_windows) by (nonlinear_arith)
                requires t + 1 <= m && j < num_windows && num_windows >= 0 && t >= 0;
            assert(t * num_windows >= 0) by (nonlinear_arith)
                requires t >= 0 && num_windows >= 0;
        }
        let d: i32 = ds[t * num_windows + j];
        let ghost bv = point_vals(buckets@);
        let ghost cdt = col_dot(ds@, pv@, num_windows as int, j as int, lo as int, t as int);
        let ghost av = pv@[t as int] as int;
        proof {
            lemma_col_dot_snoc(ds@, pv@, num_windows as int, j as int, lo as int, t as int);
        }
        if d > 0 {
            let idx: usize = (d - 1) as usize;
            let nb = g1_add_mixed(&buckets[idx], vstd::slice::slice_index_get(bases, t));
            let ghost oldv = bv[idx as int] as int;
            let ghost newv = g1p_val(nb) as int;
            buckets[idx] = nb;
            proof {
                assert(point_vals(buckets@) =~= bv.update(idx as int, g1p_val(nb)));
                lemma_wsum_update(bv, idx as int, g1p_val(nb));
                assert(newv == (oldv + av) % rr@);
                // (idx+1) * (newv - oldv) is congruent to d * av modulo r.
                assert((wsum(bv) + (idx + 1) * (newv - oldv)) % rr@ == (wsum(bv) + (d as int) * av) % rr@) by {
                    lemma_mod_add_r(wsum(bv), (idx + 1) * (newv - oldv));
                    lemma_mod_add_r(wsum(bv), (d as int) * av);
                    lemma_cong_step(oldv, av, idx + 1, rr@);
                    assert((d as int) == idx + 1);
                }
                lemma_mod_add_l(wsum(bv), (d as int) * av);
                lemma_mod_add_l(cdt, (d as int) * av);
            }
        } else if d < 0 {
            let idx: usize = (-(d + 1)) as usize;
            let neg = g1_neg_affine(vstd::slice::slice_index_get(bases, t));
            let nb = g1_add_mixed(&buckets[idx], &neg);
            let ghost oldv = bv[idx as int] as int;
            let ghost newv = g1p_val(nb) as int;
            buckets[idx] = nb;
            proof {
                assert(point_vals(buckets@) =~= bv.update(idx as int, g1p_val(nb)));
                lemma_wsum_update(bv, idx as int, g1p_val(nb));
                let negv = g1a_val(neg) as int;
                assert(negv == (rr@ - (pv@[t as int] as int) % rr@) % rr@);
                assert((wsum(bv) + (idx + 1) * (newv - oldv)) % rr@ == (wsum(bv) + (d as int) * av) % rr@) by {
                    lemma_mod_add_r(wsum(bv), (idx + 1) * (newv - oldv));
                    lemma_mod_add_r(wsum(bv), (d as int) * av);
                    lemma_cong_step_neg(oldv, av, idx + 1, rr@);
                    assert((d as int) == -(idx + 1));
                }
                lemma_mod_add_l(wsum(bv), (d as int) * av);
                lemma_mod_add_l(cdt, (d as int) * av);
            }
        } else {
            proof {
                assert(point_vals(buckets@) =~= bv);
                lemma_mul_basics(av);
                assert((d as int) * av == 0);
            }
        }
        t = t + 1;
    }
    // Suffix running sums: after the loop `total` is worth
    // `sum of (b+1) * bucket[b]` modulo r.
    let ghost bv = point_vals(buckets@);
    let mut running = g1_identity();
    let mut total = g1_identity();
    let mut b: usize = bucket_len;
    proof {
        assert(bv.skip(bucket_len as int) =~= Seq::<nat>::empty());
        crate::model::lemma_r_mod_pos();
        assert(0int % rr@ == 0) by (nonlinear_arith)
            requires rr@ > 1;
    }
    while b > 0
        invariant
            b <= bucket_len,
            buckets@.len() == bucket_len,
            rr@ == r_mod() as int,
            bv == point_vals(buckets@),
            g1p_val(running) == ssum(bv.skip(b as int)) % rr@,
            g1p_val(total) == wsum(bv.skip(b as int)) % rr@,
        decreases b,
    {
        let idx: usize = b - 1;
        let ghost tail = bv.skip(b as int);
        let ghost head = bv.skip(idx as int);
        proof {
            assert(head.skip(1) =~= tail);
            assert(head[0] == bv[idx as int]);
            assert(ssum(head) == bv[idx as int] + ssum(tail));
            assert(wsum(head) == bv[idx as int] + wsum(tail) + ssum(tail));
        }
        let r2 = g1_add(&running, &buckets[idx]);
        proof {
            assert(g1p_val(r2) == (ssum(tail) % rr@ + bv[idx as int]) % rr@);
            lemma_mod_add_l(ssum(tail), bv[idx as int] as int);
        }
        let t2 = g1_add(&total, &r2);
        proof {
            assert(g1p_val(t2) == (wsum(tail) % rr@ + g1p_val(r2) as int) % rr@);
            lemma_mod_add_l(wsum(tail), g1p_val(r2) as int);
            lemma_mod_add_r(wsum(tail), ssum(head));
            assert(g1p_val(t2) == (wsum(tail) + ssum(head)) % rr@);
        }
        running = r2;
        total = t2;
        b = idx;
    }
    proof {
        assert(bv.skip(0) =~= bv);
    }
    total
}

/// A zero bucket vector is worth zero.
proof fn lemma_ssum_wsum_zero(s: Seq<nat>)
    requires
        forall|i: int| 0 <= i < s.len() ==> s[i] == 0,
    ensures
        ssum(s) == 0,
        wsum(s) == 0,
    decreases s.len(),
{
    if s.len() > 0 {
        lemma_ssum_wsum_zero(s.skip(1));
    }
}

/// One bucket update step is congruent to adding `c * av` modulo `r`.
proof fn lemma_cong_step(oldv: int, av: int, c: int, m: int)
    requires
        m > 1,
    ensures
        (c * ((oldv + av) % m - oldv)) % m == (c * av) % m,
{
    let nv = (oldv + av) % m;
    // nv == oldv + av - m * q for the quotient q.
    vstd::arithmetic::div_mod::lemma_fundamental_div_mod(oldv + av, m);
    let q = (oldv + av) / m;
    assert(nv == oldv + av - m * q);
    assert(c * (nv - oldv) == c * av - (c * q) * m) by (nonlinear_arith)
        requires nv == oldv + av - m * q;
    vstd::arithmetic::div_mod::lemma_mod_multiples_vanish(-(c * q), c * av, m);
    assert(c * av + (-(c * q)) * m == c * av - (c * q) * m) by (nonlinear_arith);
}

/// One negated bucket update step is congruent to subtracting `c * av`
/// modulo `r`.
proof fn lemma_cong_step_neg(oldv: int, av: int, c: int, m: int)
    requires
        m > 1,
    ensures
        (c * (((oldv + (m - av % m) % m) % m) - oldv)) % m == ((-c) * av) % m,
{
    let negv = (m - av % m) % m;
    vstd::arithmetic::div_mod::lemma_fundamental_div_mod(av, m);
    let qa = av / m;
    vstd::arithmetic::div_mod::lemma_fundamental_div_mod(m - av % m, m);
    let qn = (m - av % m) / m;
    assert(negv == m - (av - m * qa) - m * qn);
    let nv = (oldv + negv) % m;
    vstd::arithmetic::div_mod::lemma_fundamental_div_mod(oldv + negv, m);
    let q = (oldv + negv) / m;
    assert(nv == oldv + negv - m * q);
    assert(c * (nv - oldv) == (-c) * av + (c * (1 + qa - qn - q)) * m) by (nonlinear_arith)
        requires
            nv == oldv + negv - m * q,
            negv == m - (av - m * qa) - m * qn;
    vstd::arithmetic::div_mod::lemma_mod_multiples_vanish(c * (1 + qa - qn - q), (-c) * av, m);
}

/// The first term of group `g` when `m` terms are cut into groups of `gsz`.
pub open spec fn group_lo(gsz: int, m: int, g: int) -> int {
    if g * gsz < m {
        g * gsz
    } else {
        m
    }
}

/// Whether entry `g * nw + jj` of a partial-value array holds the bucket sum
/// of group `g` for array column `jj` (digit index `nw - 1 - jj`).
pub open spec fn partial_ok(
    pvarr: Seq<nat>,
    ds: Seq<i32>,
    pv: Seq<nat>,
    nw: int,
    gsz: int,
    m: int,
    g: int,
    jj: int,
) -> bool {
    pvarr[g * nw + jj]
        == col_dot(ds, pv, nw, nw - 1 - jj, group_lo(gsz, m, g), group_lo(gsz, m, g + 1))
            % (r_mod() as int)
}

/// The partial array of one chunk: entry `g * num_windows + jj` is the
/// bucket sum of group `g` for the window with array column `jj`; column 0
/// holds the most significant window.
pub fn g1_compute_partials(
    bases: &[blstrs::G1Affine],
    ds: &Vec<i32>,
    num_windows: usize,
    num_groups: usize,
    bucket_len: usize,
) -> (out: Vec<blstrs::G1Projective>)
    requires
        ds@.len() == bases@.len() * num_windows,
        1 <= num_windows,
        1 <= num_groups,
        1 <= bucket_len,
        bases@.len() * num_windows <= usize::MAX,
        num_groups * num_windows <= usize::MAX,
        bases@.len() + num_groups <= usize::MAX,
        forall|i: int| 0 <= i < ds@.len()
            ==> -(bucket_len as int) <= #[trigger] ds@[i] <= bucket_len as int,
    ensures
        out@.len() == num_groups * num_windows,
        forall|g: int, jj: int| 0 <= g < num_groups && 0 <= jj < num_windows
            ==> #[trigger] partial_ok(point_vals(out@), ds@, g1_base_vals(bases@), num_windows as int,
                    div_ceil_spec(bases@.len() as int, num_groups as int), bases@.len() as int, g, jj),
{
    let m: usize = bases.len();
    let gsz: usize = crate::sizing::div_ceil(m, num_groups);
    let ghost pv = g1_base_vals(bases@);
    let ghost gszs = gsz as int;
    proof {
        crate::sizing::lemma_div_ceil_bounds(m as int, num_groups as int);
        assert(gszs * num_groups == num_groups * gszs) by (nonlinear_arith);
        assert(gszs <= m) by (nonlinear_arith)
            requires gszs * num_groups < m + num_groups && num_groups >= 1 && gszs >= 0;
    }
    let mut out: Vec<blstrs::G1Projective> = Vec::new();
    let mut g: usize = 0;
    while g < num_groups
        invariant
            m == bases@.len(),
            ds@.len() == m * num_windows,
            1 <= num_windows,
            1 <= num_groups,
            1 <= bucket_len,
            m * num_windows <= usize::MAX,
            num_groups * num_windows <= usize::MAX,
            m + num_groups <= usize::MAX,
            gszs == gsz,
            gszs == div_ceil_spec(m as int, num_groups as int),
            gszs * num_groups >= m,
            gszs * num_groups < m + num_groups,
            gszs <= m,
            pv == g1_base_vals(bases@),
            g <= num_groups,
            out@.len() == g * num_windows,
            forall|i: int| 0 <= i < ds@.len()
                ==> -(bucket_len as int) <= #[trigger] ds@[i] <= bucket_len as int,
            forall|g2: int, jj: int| 0 <= g2 < g && 0 <= jj < num_windows
                ==> #[trigger] partial_ok(point_vals(out@), ds@, pv, num_windows as int, gszs, m as int, g2, jj),
        decreases num_groups - g,
    {
        proof {
            assert(g * gszs <= num_groups * gszs && (g + 1) * gszs <= num_groups * gszs)
                by (nonlinear_arith)
                requires g + 1 <= num_groups && gszs >= 0;
            assert(g * gszs >= 0 && (g + 1) * gszs >= g * gszs) by (nonlinear_arith)
                requires g >= 0 && gszs >= 0;
            assert(num_groups * gszs == gszs * num_groups) by (nonlinear_arith);
            assert((g + 1) * gszs == g * gszs + gszs) by (nonlinear_arith);
        }
        let start: usize = g * gsz;
        let lo: usize = if start < m { start } else { m };
        let next: usize = start + gsz;
        let hi: usize = if next < m { next } else { m };
        proof {
            assert(lo == group_lo(gszs, m as int, g as int));
            assert((g + 1) * gszs == g * gszs + gszs) by (nonlinear_arith);
            assert(hi == group_lo(gszs, m as int, g + 1));
            assert(lo <= hi);
        }
        let mut jj: usize = 0;
        while jj < num_windows
            invariant
                m == bases@.len(),
                ds@.len() == m * num_windows,
                1 <= num_windows,
                1 <= num_groups,
                1 <= bucket_len,
                m * num_windows <= usize::MAX,
                num_groups * num_windows <= usize::MAX,
                pv == g1_base_vals(bases@),
                g < num_groups,
                jj <= num_windows,
                gszs == gsz,
                lo == group_lo(gszs, m as int, g as int),
                hi == group_lo(gszs, m as int, g + 1),
                lo <= hi <= m,
                out@.len() == g * num_windows + jj,
                forall|i: int| 0 <= i < ds@.len()
                    ==> -(bucket_len as int) <= #[trigger] ds@[i] <= bucket_len as int,
                forall|g2: int, j2: int|
                    (0 <= g2 < g && 0 <= j2 < num_windows) || (g2 == g && 0 <= j2 < jj)
                    ==> #[trigger] partial_ok(point_vals(out@), ds@, pv, num_windows as int, gszs, m as int, g2, j2),
            decreases num_windows - jj,
        {
            let p = g1_window_partial(bases, ds, num_windows, num_windows - 1 - jj, lo, hi, bucket_len);
            let ghost out_before = out@;
            out.push(p);
            proof {
                assert(g * num_windows + jj < num_groups * num_windows) by (nonlinear_arith)
                    requires g + 1 <= num_groups && jj < num_windows && num_windows >= 1 && g >= 0;
                assert(out@[g * num_windows + jj] == p);
                assert(point_vals(out@)[g * num_windows + jj] == g1p_val(p));
                assert(partial_ok(point_vals(out@), ds@, pv, num_windows as int, gszs, m as int, g as int, jj as int));
                assert forall|g2: int, j2: int|
                    (0 <= g2 < g && 0 <= j2 < num_windows) || (g2 == g && 0 <= j2 < jj)
                    implies #[trigger] partial_ok(point_vals(out@), ds@, pv, num_windows as int, gszs, m as int, g2, j2) by {
                    if g2 < g {
                        assert(g2 * num_windows + j2 < g * num_windows + jj) by (nonlinear_arith)
                            requires g2 + 1 <= g && j2 < num_windows && num_windows >= 1 && g2 >= 0 && j2 >= 0 && jj >= 0;
                    } else {
                        assert(g2 * num_windows + j2 < g * num_windows + jj) by (nonlinear_arith)
                            requires g2 == g && j2 < jj;
                    }
                    assert(g2 * num_windows + j2 >= 0) by (nonlinear_arith)
                        requires g2 >= 0 && j2 >= 0 && num_windows >= 0;
                    assert(out@[g2 * num_windows + j2] == out_before[g2 * num_windows + j2]);
                    assert(point_vals(out@)[g2 * num_windows + j2] == point_vals(out_before)[g2 * num_windows + j2]);
                    assert(partial_ok(point_vals(out_before), ds@, pv, num_windows as int, gszs, m as int, g2, j2));
                }
            }
            jj = jj + 1;
        }
        proof {
            assert((g + 1) * num_windows == g * num_windows + num_windows) by (nonlinear_arith);
        }
        g = g + 1;
    }
    out
}

/// The sum of the first `g` group entries of array column `j`.
pub open spec fn col_sum_to(pv: Seq<nat>, nw: int, j: int, g: int) -> int
    decreases g,
{
    if g <= 0 {
        0
    } else {
        col_sum_to(pv, nw, j, g - 1) + pv[(g - 1) * nw + j]
    }
}

/// The Horner accumulator of the reducer after the first `j` columns:
/// `acc(0) = 0`, `acc(j+1) = 2^w * acc(j) + column_sum(j)`.
pub open spec fn reduce_acc(pv: Seq<nat>, w: nat, nw: int, ng: int, j: int) -> int
    decreases j,
{
    if j <= 0 {
        0
    } else {
        pow2(w) * reduce_acc(pv, w, nw, ng, j - 1) + col_sum_to(pv, nw, j - 1, ng)
    }
}

/// Collapses the partial array into one point: for each column, first `w`
/// doublings of the accumulator, then the sum of the column's group entries.
/// Column 0 is the most significant window, so the final accumulator has
/// shifted every column into its place.
pub fn g1_reduce(
    partials: &Vec<blstrs::G1Projective>,
    window_size: usize,
    num_windows: usize,
    num_groups: usize,
) -> (s: blstrs::G1Projective)
    requires
        partials@.len() == num_groups * num_windows,
        1 <= window_size <= 10,
        1 <= num_windows,
        1 <= num_groups,
    ensures
        g1p_val(s) == reduce_acc(point_vals(partials@), window_size as nat, num_windows as int,
            num_groups as int, num_windows as int) % (r_mod() as int),
{
    let ghost pv = point_vals(partials@);
    let ghost rr = r_mod() as int;
    let plen: usize = partials.len();
    proof {
        assert(num_groups * num_windows == plen);
    }
    let w = window_size;
    let mut acc = g1_identity();
    proof {
        crate::model::lemma_r_mod_pos();
        assert(0int % rr == 0) by (nonlinear_arith)
            requires rr > 1;
    }
    let mut j: usize = 0;
    while j < num_windows
        invariant
            partials@.len() == num_groups * num_windows,
            num_groups * num_windows <= usize::MAX,
            1 <= w <= 10,
            1 <= num_windows,
            1 <= num_groups,
            j <= num_windows,
            rr == r_mod() as int,
            rr > 1,
            pv == point_vals(partials@),
            g1p_val(acc) == reduce_acc(pv, w as nat, num_windows as int, num_groups as int, j as int) % rr,
        decreases num_windows - j,
    {
        let ghost aj = reduce_acc(pv, w as nat, num_windows as int, num_groups as int, j as int);
        let mut k: usize = 0;
        proof {
            assert(pow2(0) == 1) by { vstd::arithmetic::power2::lemma2_to64(); }
            assert(1 * aj == aj) by (nonlinear_arith);
            vstd::arithmetic::div_mod::lemma_mod_twice(aj, rr);
            assert((pow2(0) * aj) % rr == (aj % rr) % rr);
        }
        while k < w
            invariant
                1 <= w <= 10,
                k <= w,
                rr == r_mod() as int,
                rr > 1,
                g1p_val(acc) == (pow2(k as nat) * aj) % rr,
            decreases w - k,
        {
            let a2 = g1_double(&acc);
            proof {
                // 2 * ((2^k a) % r) is congruent to 2^(k+1) a.
                lemma_mod_mul_l(pow2(k as nat) * aj, 2);
                vstd::arithmetic::power2::lemma_pow2_adds(k as nat, 1);
                assert(pow2(1) == 2) by { vstd::arithmetic::power2::lemma2_to64(); }
                assert((pow2(k as nat) * aj) * 2 == pow2((k + 1) as nat) * aj) by (nonlinear_arith)
                    requires pow2((k + 1) as nat) == pow2(k as nat) * pow2(1) && pow2(1) == 2;
                assert(2 * (g1p_val(acc) as int) == (g1p_val(acc) as int) * 2);
            }
            acc = a2;
            k = k + 1;
        }
        let ghost shifted = pow2(w as nat) * aj;
        let mut g: usize = 0;
        proof {
            assert(col_sum_to(pv, num_windows as int, j as int, 0) == 0);
        }
        while g < num_groups
            invariant
                partials@.len() == num_groups * num_windows,
                num_groups * num_windows <= usize::MAX,
                1 <= num_windows,
                1 <= num_groups,
                j < num_windows,
                g <= num_groups,
                rr == r_mod() as int,
                rr > 1,
                pv == point_vals(partials@),
                g1p_val(acc) == (shifted + col_sum_to(pv, num_windows as int, j as int, g as int)) % rr,
            decreases num_groups - g,
        {
            proof {
                assert(g * num_windows + j < num_groups * num_windows) by (nonlinear_arith)
                    requires g + 1 <= num_groups && j < num_windows && num_windows >= 1 && g >= 0;
                assert(g * num_windows + j >= 0) by (nonlinear_arith)
                    requires g >= 0 && j >= 0 && num_windows >= 0;
            }
            let a2 = g1_add(&acc, &partials[g * num_windows + j]);
            proof {
                let cs = col_sum_to(pv, num_windows as int, j as int, g as int);
                lemma_mod_add_l(shifted + cs, pv[(g as int) * (num_windows as int) + j as int] as int);
            }
            acc = a2;
            g = g + 1;
        }
        j = j + 1;
    }
    acc
}

pub proof fn lemma_col_dot_split(ds: Seq<i32>, pv: Seq<nat>, nw: int, j: int, lo: int, mid: int, hi: int)
    requires
        lo <= mid <= hi,
    ensures
        col_dot(ds, pv, nw, j, lo, hi) == col_dot(ds, pv, nw, j, lo, mid) + col_dot(ds, pv, nw, j, mid, hi),
    decreases mid - lo,
{
    if lo >= mid {
        assert(col_dot(ds, pv, nw, j, lo, mid) == 0);
    } else {
        lemma_col_dot_split(ds, pv, nw, j, lo + 1, mid, hi);
    }
}

/// The reduced per-group column entries sum, modulo `r`, to the column's
/// contribution over the first `g` groups of terms.
proof fn lemma_partial_cols(
    pvarr: Seq<nat>,
    ds: Seq<i32>,
    pv: Seq<nat>,
    nw: int,
    gsz: int,
    m: int,
    j: int,
    g: int,
)
    requires
        1 <= nw,
        0 <= j < nw,
        0 <= g,
        0 <= gsz,
        0 <= m,
        pvarr.len() >= g * nw,
        forall|g2: int, j2: int| 0 <= g2 < g && 0 <= j2 < nw
            ==> #[trigger] partial_ok(pvarr, ds, pv, nw, gsz, m, g2, j2),
    ensures
        col_sum_to(pvarr, nw, j, g) % (r_mod() as int)
            == col_dot(ds, pv, nw, nw - 1 - j, 0, group_lo(gsz, m, g)) % (r_mod() as int),
    decreases g,
{
    let rr = r_mod() as int;
    crate::model::lemma_r_mod_pos();
    if g == 0 {
        assert(group_lo(gsz, m, 0) == 0) by {
            lemma_mul_basics(gsz);
            if m == 0 {
            }
        }
        assert(col_sum_to(pvarr, nw, j, 0) == 0);
        assert(col_dot(ds, pv, nw, nw - 1 - j, 0, 0) == 0);
    } else {
        assert((g - 1) * nw <= g * nw) by (nonlinear_arith)
            requires nw >= 1 && g >= 1;
        lemma_partial_cols(pvarr, ds, pv, nw, gsz, m, j, g - 1);
        assert(0 <= (g - 1) * nw + j && (g - 1) * nw + j < g * nw) by (nonlinear_arith)
            requires 0 <= j < nw && nw >= 1 && g >= 1;
        let lo = group_lo(gsz, m, g - 1);
        let hi = group_lo(gsz, m, g);
        assert((g - 1) * gsz <= g * gsz) by (nonlinear_arith)
            requires gsz >= 0;
        assert(lo <= hi);
        assert(partial_ok(pvarr, ds, pv, nw, gsz, m, g - 1, j));
        let cs0 = col_sum_to(pvarr, nw, j, g - 1);
        let entry = pvarr[(g - 1) * nw + j] as int;
        let col1 = col_dot(ds, pv, nw, nw - 1 - j, 0, lo);
        let col2 = col_dot(ds, pv, nw, nw - 1 - j, lo, hi);
        assert(entry == col2 % rr);
        assert(col_sum_to(pvarr, nw, j, g) == cs0 + entry);
        lemma_mod_add_r(cs0, col2);
        lemma_mod_add_l(cs0, col2);
        lemma_mod_add_l(col1, col2);
        lemma_col_dot_split(ds, pv, nw, nw - 1 - j, 0, lo, hi);
    }
}

/// The weighted column sums from digit column `k` upward: column `k` has
/// weight one, each higher column one factor `2^w` more.
pub open spec fn tsum(ds: Seq<i32>, pv: Seq<nat>, nw: int, w: nat, m: int, k: int) -> int
    decreases nw - k,
{
    if k >= nw {
        0
    } else {
        col_dot(ds, pv, nw, k, 0, m) + pow2(w) * tsum(ds, pv, nw, w, m, k + 1)
    }
}

/// The Horner accumulator over the first `j` array columns equals, modulo
/// `r`, the weighted column sums over digit columns `nw - j` and up.
proof fn lemma_reduce_to_tsum(
    pvarr: Seq<nat>,
    ds: Seq<i32>,
    pv: Seq<nat>,
    w: nat,
    nw: int,
    ng: int,
    gsz: int,
    m: int,
    j: int,
)
    requires
        1 <= nw,
        1 <= ng,
        0 <= j <= nw,
        0 <= gsz,
        0 <= m,
        gsz * ng >= m,
        pvarr.len() == ng * nw,
        forall|g2: int, j2: int| 0 <= g2 < ng && 0 <= j2 < nw
            ==> #[trigger] partial_ok(pvarr, ds, pv, nw, gsz, m, g2, j2),
    ensures
        reduce_acc(pvarr, w, nw, ng, j) % (r_mod() as int)
            == tsum(ds, pv, nw, w, m, nw - j) % (r_mod() as int),
    decreases j,
{
    let rr = r_mod() as int;
    crate::model::lemma_r_mod_pos();
    if j == 0 {
        assert(reduce_acc(pvarr, w, nw, ng, 0) == 0);
        assert(tsum(ds, pv, nw, w, m, nw) == 0);
    } else {
        lemma_reduce_to_tsum(pvarr, ds, pv, w, nw, ng, gsz, m, j - 1);
        let p = pow2(w) as int;
        let acc0 = reduce_acc(pvarr, w, nw, ng, j - 1);
        let t0 = tsum(ds, pv, nw, w, m, nw - j + 1);
        let cs = col_sum_to(pvarr, nw, j - 1, ng);
        lemma_partial_cols(pvarr, ds, pv, nw, gsz, m, j - 1, ng);
        assert(group_lo(gsz, m, ng) == m) by {
            assert(ng * gsz == gsz * ng) by (nonlinear_arith);
        }
        let cfull = col_dot(ds, pv, nw, nw - j, 0, m);
        assert(cs % rr == cfull % rr);
        assert(reduce_acc(pvarr, w, nw, ng, j) == p * acc0 + cs);
        assert(tsum(ds, pv, nw, w, m, nw - j) == cfull + p * t0);
        // p * acc0 + cs is congruent to p * t0 + cfull modulo r.
        lemma_mod_add_l(p * acc0, cs);
        vstd::arithmetic::div_mod::lemma_mul_mod_noop_right(p, acc0, rr);
        vstd::arithmetic::div_mod::lemma_mul_mod_noop_right(p, t0, rr);
        assert((p * acc0) % rr == (p * (acc0 % rr)) % rr);
        assert((p * (t0 % rr)) % rr == (p * t0) % rr);
        lemma_mod_add_l(p * t0, cs);
        lemma_mod_add_r(p * t0, cs);
        lemma_mod_add_r(p * t0, cfull);
    }
}

/// The value of the first `t` terms, row by row: each term contributes its
/// digit polynomial times its base.
pub open spec fn rows_val(ds: Seq<i32>, pv: Seq<nat>, nw: int, w: nat, t: int) -> int
    decreases t,
{
    if t <= 0 {
        0
    } else {
        rows_val(ds, pv, nw, w, t - 1)
            + crate::scalars::digits_val(ds.subrange((t - 1) * nw, t * nw), w) * pv[t - 1]
    }
}

proof fn lemma_tsum_zero(ds: Seq<i32>, pv: Seq<nat>, nw: int, w: nat, k: int)
    ensures
        tsum(ds, pv, nw, w, 0, k) == 0,
    decreases nw - k,
{
    if k < nw {
        lemma_tsum_zero(ds, pv, nw, w, k + 1);
        assert(col_dot(ds, pv, nw, k, 0, 0) == 0);
        lemma_mul_basics(pow2(w) as int);
    }
}

/// Adding one term extends every weighted column sum by that term's digit
/// polynomial (from digit `k` upward) times its base.
proof fn lemma_tsum_extend(ds: Seq<i32>, pv: Seq<nat>, nw: int, w: nat, m: int, k: int)
    requires
        1 <= m,
        1 <= nw,
        0 <= k <= nw,
        ds.len() >= m * nw,
    ensures
        tsum(ds, pv, nw, w, m, k) == tsum(ds, pv, nw, w, m - 1, k)
            + crate::scalars::digits_val(ds.subrange((m - 1) * nw + k, m * nw), w) * pv[m - 1],
    decreases nw - k,
{
    lemma_mul_nonnegative(m - 1, nw);
    assert((m - 1) * nw + nw == m * nw) by (nonlinear_arith);
    assert((m - 1) * nw + k <= m * nw) by (nonlinear_arith)
        requires k <= nw;
    let pvm = pv[m - 1] as int;
    if k == nw {
        assert(ds.subrange((m - 1) * nw + nw, m * nw) =~= Seq::<i32>::empty()) by {
            assert((m - 1) * nw + nw == m * nw) by (nonlinear_arith);
        }
        assert(crate::scalars::digits_val(Seq::<i32>::empty(), w) == 0);
        lemma_mul_basics(pvm);
        assert(0 * pvm == 0) by (nonlinear_arith);
    } else {
        lemma_tsum_extend(ds, pv, nw, w, m, k + 1);
        lemma_col_dot_snoc(ds, pv, nw, k, 0, m - 1);
        let p = pow2(w) as int;
        let d0 = ds[(m - 1) * nw + k] as int;
        let sub = ds.subrange((m - 1) * nw + k, m * nw);
        let d1 = crate::scalars::digits_val(ds.subrange((m - 1) * nw + k + 1, m * nw), w);
        assert(sub.len() == m * nw - ((m - 1) * nw + k));
        assert(sub.len() >= 1) by {
            assert((m - 1) * nw + k < m * nw) by (nonlinear_arith)
                requires k < nw && m >= 1;
        }
        assert(sub[0] == d0);
        assert(sub.skip(1) =~= ds.subrange((m - 1) * nw + k + 1, m * nw));
        assert(crate::scalars::digits_val(sub, w) == d0 + p * d1);
        let t1old = tsum(ds, pv, nw, w, m - 1, k + 1);
        assert(tsum(ds, pv, nw, w, m, k)
            == col_dot(ds, pv, nw, k, 0, m - 1) + d0 * pvm + p * (t1old + d1 * pvm));
        assert(p * (t1old + d1 * pvm) == p * t1old + (p * d1) * pvm) by (nonlinear_arith);
        assert(d0 * pvm + (p * d1) * pvm == (d0 + p * d1) * pvm) by (nonlinear_arith);
    }
}

proof fn lemma_tsum_rows(ds: Seq<i32>, pv: Seq<nat>, nw: int, w: nat, m: int)
    requires
        1 <= nw,
        0 <= m,
        ds.len() >= m * nw,
    ensures
        tsum(ds, pv, nw, w, m, 0) == rows_val(ds, pv, nw, w, m),
    decreases m,
{
    if m == 0 {
        lemma_tsum_zero(ds, pv, nw, w, 0);
    } else {
        assert((m - 1) * nw <= m * nw) by (nonlinear_arith)
            requires nw >= 1 && m >= 1;
        lemma_tsum_rows(ds, pv, nw, w, m - 1);
        lemma_tsum_extend(ds, pv, nw, w, m, 0);
    }
}

proof fn lemma_dot_snoc(ps: Seq<nat>, es: Seq<nat>, p: nat, e: nat)
    requires
        ps.len() == es.len(),
    ensures
        crate::model::dot(ps.push(p), es.push(e)) == crate::model::dot(ps, es) + p * e,
{
    let ps1 = seq![p];
    let es1 = seq![e];
    assert(ps.push(p) =~= ps + ps1);
    assert(es.push(e) =~= es + es1);
    crate::model::lemma_dot_concat(ps, es, ps1, es1);
    assert(ps1.skip(1) =~= Seq::<nat>::empty());
    assert(es1.skip(1) =~= Seq::<nat>::empty());
    assert(crate::model::dot(ps1, es1) == p * e + crate::model::dot(ps1.skip(1), es1.skip(1)));
    assert(crate::model::dot(ps1.skip(1), es1.skip(1)) == 0);
}

proof fn lemma_rows_dot(ds: Seq<i32>, pv: Seq<nat>, evals: Seq<nat>, nw: int, w: nat, t: int)
    requires
        1 <= nw,
        0 <= t,
        pv.len() >= t,
        evals.len() >= t,
        forall|tt: int| 0 <= tt < t
            ==> crate::scalars::digits_val(#[trigger] ds.subrange(tt * nw, (tt + 1) * nw), w)
                == evals[tt],
    ensures
        rows_val(ds, pv, nw, w, t) == crate::model::dot(pv.take(t), evals.take(t)),
    decreases t,
{
    if t == 0 {
        assert(pv.take(0) =~= Seq::<nat>::empty());
        assert(evals.take(0) =~= Seq::<nat>::empty());
        assert(crate::model::dot(Seq::<nat>::empty(), Seq::<nat>::empty()) == 0);
    } else {
        lemma_rows_dot(ds, pv, evals, nw, w, t - 1);
        assert(pv.take(t) =~= pv.take(t - 1).push(pv[t - 1]));
        assert(evals.take(t) =~= evals.take(t - 1).push(evals[t - 1]));
        lemma_dot_snoc(pv.take(t - 1), evals.take(t - 1), pv[t - 1], evals[t - 1]);
        assert(crate::model::dot(pv.take(t), evals.take(t))
            == crate::model::dot(pv.take(t - 1), evals.take(t - 1)) + pv[t - 1] * evals[t - 1]);
        assert(crate::scalars::digits_val(ds.subrange((t - 1) * nw, t * nw), w) == evals[t - 1]);
        assert(crate::scalars::digits_val(ds.subrange((t - 1) * nw, t * nw), w) * pv[t - 1]
            == pv[t - 1] * evals[t - 1]) by (nonlinear_arith)
            requires crate::scalars::digits_val(ds.subrange((t - 1) * nw, t * nw), w) == evals[t - 1];
    }
}

/// The end-to-end chunk theorem: with correct digits and correct per-group
/// partials, the reducer's Horner value is the chunk's weighted base sum,
/// modulo `r`.
pub proof fn lemma_pipeline_value(
    pvarr: Seq<nat>,
    ds: Seq<i32>,
    pv: Seq<nat>,
    evals: Seq<nat>,
    w: nat,
    nw: int,
    ng: int,
    gsz: int,
    m: int,
)
    requires
        1 <= nw,
        1 <= ng,
        0 <= gsz,
        0 <= m,
        gsz * ng >= m,
        pv.len() == m,
        evals.len() == m,
        pvarr.len() == ng * nw,
        ds.len() >= m * nw,
        forall|g2: int, j2: int| 0 <= g2 < ng && 0 <= j2 < nw
            ==> #[trigger] partial_ok(pvarr, ds, pv, nw, gsz, m, g2, j2),
        forall|tt: int| 0 <= tt < m
            ==> crate::scalars::digits_val(#[trigger] ds.subrange(tt * nw, (tt + 1) * nw), w)
                == evals[tt],
    ensures
        reduce_acc(pvarr, w, nw, ng, nw) % (r_mod() as int)
            == crate::model::dot(pv, evals) % (r_mod() as int),
{
    lemma_reduce_to_tsum(pvarr, ds, pv, w, nw, ng, gsz, m, nw);
    lemma_tsum_rows(ds, pv, nw, w, m);
    lemma_rows_dot(ds, pv, evals, nw, w, m);
    assert(pv.take(m as int) =~= pv);
    assert(evals.take(m as int) =~= evals);
}


/// The discrete logarithms of a vector of projective G2 points.
pub open spec fn point_vals_g2(ps: Seq<blstrs::G2Projective>) -> Seq<nat> {
    ps.map_values(|p: blstrs::G2Projective| g2p_val(p))
}

/// One window's partial sum over terms `[lo, hi)` by the bucket method.
///
/// Digit `d > 0` adds base `t` to bucket `d - 1`; digit `d < 0` adds the
/// negated base to bucket `-d - 1`; the suffix running sums then weight each
/// bucket by the digit it stands for.
pub fn g2_window_partial(
    bases: &[blstrs::G2Affine],
    ds: &Vec<i32>,
    num_windows: usize,
    j: usize,
    lo: usize,
    hi: usize,
    bucket_len: usize,
) -> (r: blstrs::G2Projective)
    requires
        ds@.len() == bases@.len() * num_windows,
        j < num_windows,
        lo <= hi <= bases@.len(),
        1 <= bucket_len,
        bases@.len() * num_windows <= usize::MAX,
        forall|i: int| 0 <= i < ds@.len()
            ==> -(bucket_len as int) <= #[trigger] ds@[i] <= bucket_len as int,
    ensures
        g2p_val(r) == col_dot(ds@, g2_base_vals(bases@), num_windows as int, j as int, lo as int, hi as int)
            % (r_mod() as int),
{
    let m: usize = bases.len();
    let rr: Ghost<int> = Ghost(r_mod() as int);
    let pv: Ghost<Seq<nat>> = Ghost(g2_base_vals(bases@));
    let mut buckets: Vec<blstrs::G2Projective> = Vec::new();
    while buckets.len() < bucket_len
        invariant
            buckets@.len() <= bucket_len,
            forall|i: int| 0 <= i < buckets@.len() ==> g2p_val(#[trigger] buckets@[i]) == 0,
        decreases bucket_len - buckets@.len(),
    {
        buckets.push(g2_identity());
    }
    proof {
        lemma_ssum_wsum_zero(point_vals_g2(buckets@));
        crate::model::lemma_r_mod_pos();
        assert(col_dot(ds@, pv@, num_windows as int, j as int, lo as int, lo as int) == 0);
        assert(0int % rr@ == 0) by (nonlinear_arith)
            requires rr@ > 1;
    }
    let mut t: usize = lo;
    while t < hi
        invariant
            m == bases@.len(),
            ds@.len() == m * num_windows,
            j < num_windows,
            lo <= t <= hi <= m,
            1 <= bucket_len,
            m * num_windows <= usize::MAX,
            buckets@.len() == bucket_len,
            rr@ == r_mod() as int,
            pv@ == g2_base_vals(bases@),
            forall|i: int| 0 <= i < ds@.len()
                ==> -(bucket_len as int) <= #[trigger] ds@[i] <= bucket_len as int,
            wsum(point_vals_g2(buckets@)) % rr@
                == col_dot(ds@, pv@, num_windows as int, j as int, lo as int, t as int) % rr@,
        decreases hi - t,
    {
        proof {
            assert(t * num_windows + j < m * num_windows) by (nonlinear_arith)
                requires t + 1 <= m && j < num_windows && num_windows >= 0 && t >= 0;
            assert(t * num_windows >= 0) by (nonlinear_arith)
                requires t >= 0 && num_windows >= 0;
        }
        let d: i32 = ds[t * num_windows + j];
        let ghost bv = point_vals_g2(buckets@);
        let ghost cdt = col_dot(ds@, pv@, num_windows as int, j as int, lo as int, t as int);
        let ghost av = pv@[t as int] as int;
        proof {
            lemma_col_dot_snoc(ds@, pv@, num_windows as int, j as int, lo as int, t as int);
        }
        if d > 0 {
            let idx: usize = (d - 1) as usize;
            let nb = g2_add_mixed(&buckets[idx], vstd::slice::slice_index_get(bases, t));
            let ghost oldv = bv[idx as int] as int;
            let ghost newv = g2p_val(nb) as int;
            buckets[idx] = nb;
            proof {
                assert(point_vals_g2(buckets@) =~= bv.update(idx as int, g2p_val(nb)));
                lemma_wsum_update(bv, idx as int, g2p_val(nb));
                assert(newv == (oldv + av) % rr@);
                // (idx+1) * (newv - oldv) is congruent to d * av modulo r.
                assert((wsum(bv) + (idx + 1) * (newv - oldv)) % rr@ == (wsum(bv) + (d as int) * av) % rr@) by {
                    lemma_mod_add_r(wsum(bv), (idx + 1) * (newv - oldv));
                    lemma_mod_add_r(wsum(bv), (d as int) * av);
                    lemma_cong_step(oldv, av, idx + 1, rr@);
                    assert((d as int) == idx + 1);
                }
                lemma_mod_add_l(wsum(bv), (d as int) * av);
                lemma_mod_add_l(cdt, (d as int) * av);
            }
        } else if d < 0 {
            let idx: usize = (-(d + 1)) as usize;
            let neg = g2_neg_affine(vstd::slice::slice_index_get(bases, t));
            let nb = g2_add_mixed(&buckets[idx], &neg);
            let ghost oldv = bv[idx as int] as int;
            let ghost newv = g2p_val(nb) as int;
            buckets[idx] = nb;
            proof {
                assert(point_vals_g2(buckets@) =~= bv.update(idx as int, g2p_val(nb)));
                lemma_wsum_update(bv, idx as int, g2p_val(nb));
                let negv = g2a_val(neg) as int;
                assert(negv == (rr@ - (pv@[t as int] as int) % rr@) % rr@);
                assert((wsum(bv) + (idx + 1) * (newv - oldv)) % rr@ == (wsum(bv) + (d as int) * av) % rr@) by {
                    lemma_mod_add_r(wsum(bv), (idx + 1) * (newv - oldv));
                    lemma_mod_add_r(wsum(bv), (d as int) * av);
                    lemma_cong_step_neg(oldv, av, idx + 1, rr@);
                    assert((d as int) == -(idx + 1));
                }
                lemma_mod_add_l(wsum(bv), (d as int) * av);
                lemma_mod_add_l(cdt, (d as int) * av);
            }
        } else {
            proof {
                assert(point_vals_g2(buckets@) =~= bv);
                lemma_mul_basics(av);
                assert((d as int) * av == 0);
            }
        }
        t = t + 1;
    }
    // Suffix running sums: after the loop `total` is worth
    // `sum of (b+1) * bucket[b]` modulo r.
    let ghost bv = point_vals_g2(buckets@);
    let mut running = g2_identity();
    let mut total = g2_identity();
    let mut b: usize = bucket_len;
    proof {
        assert(bv.skip(bucket_len as int) =~= Seq::<nat>::empty());
        crate::model::lemma_r_mod_pos();
        assert(0int % rr@ == 0) by (nonlinear_arith)
            requires rr@ > 1;
    }
    while b > 0
        invariant
            b <= bucket_len,
            buckets@.len() == bucket_len,
            rr@ == r_mod() as int,
            bv == point_vals_g2(buckets@),
            g2p_val(running) == ssum(bv.skip(b as int)) % rr@,
            g2p_val(total) == wsum(bv.skip(b as int)) % rr@,
        decreases b,
    {
        let idx: usize = b - 1;
        let ghost tail = bv.skip(b as int);
        let ghost head = bv.skip(idx as int);
        proof {
            assert(head.skip(1) =~= tail);
            assert(head[0] == bv[idx as int]);
            assert(ssum(head) == bv[idx as int] + ssum(tail));
            assert(wsum(head) == bv[idx as int] + wsum(tail) + ssum(tail));
        }
        let r2 = g2_add(&running, &buckets[idx]);
        proof {
            assert(g2p_val(r2) == (ssum(tail) % rr@ + bv[idx as int]) % rr@);
            lemma_mod_add_l(ssum(tail), bv[idx as int] as int);
        }
        let t2 = g2_add(&total, &r2);
        proof {
            assert(g2p_val(t2) == (wsum(tail) % rr@ + g2p_val(r2) as int) % rr@);
            lemma_mod_add_l(wsum(tail), g2p_val(r2) as int);
            lemma_mod_add_r(wsum(tail), ssum(head));
            assert(g2p_val(t2) == (wsum(tail) + ssum(head)) % rr@);
        }
        running = r2;
        total = t2;
        b = idx;
    }
    proof {
        assert(bv.skip(0) =~= bv);
    }
    total
}

/// The partial array of one chunk: entry `g * num_windows + jj` is the
/// bucket sum of group `g` for the window with array column `jj`; column 0
/// holds the most significant window.
pub fn g2_compute_partials(
    bases: &[blstrs::G2Affine],
    ds: &Vec<i32>,
    num_windows: usize,
    num_groups: usize,
    bucket_len: usize,
) -> (out: Vec<blstrs::G2Projective>)
    requires
        ds@.len() == bases@.len() * num_windows,
        1 <= num_windows,
        1 <= num_groups,
        1 <= bucket_len,
        bases@.len() * num_windows <= usize::MAX,
        num_groups * num_windows <= usize::MAX,
        bases@.len() + num_groups <= usize::MAX,
        forall|i: int| 0 <= i < ds@.len()
            ==> -(bucket_len as int) <= #[trigger] ds@[i] <= bucket_len as int,
    ensures
        out@.len() == num_groups * num_windows,
        forall|g: int, jj: int| 0 <= g < num_groups && 0 <= jj < num_windows
            ==> #[trigger] partial_ok(point_vals_g2(out@), ds@, g2_base_vals(bases@), num_windows as int,
                    div_ceil_spec(bases@.len() as int, num_groups as int), bases@.len() as int, g, jj),
{
    let m: usize = bases.len();
    let gsz: usize = crate::sizing::div_ceil(m, num_groups);
    let ghost pv = g2_base_vals(bases@);
    let ghost gszs = gsz as int;
    proof {
        crate::sizing::lemma_div_ceil_bounds(m as int, num_groups as int);
        assert(gszs * num_groups == num_groups * gszs) by (nonlinear_arith);
        assert(gszs <= m) by (nonlinear_arith)
            requires gszs * num_groups < m + num_groups && num_groups >= 1 && gszs >= 0;
    }
    let mut out: Vec<blstrs::G2Projective> = Vec::new();
    let mut g: usize = 0;
    while g < num_groups
        invariant
            m == bases@.len(),
            ds@.len() == m * num_windows,
            1 <= num_windows,
            1 <= num_groups,
            1 <= bucket_len,
            m * num_windows <= usize::MAX,
            num_groups * num_windows <= usize::MAX,
            m + num_groups <= usize::MAX,
            gszs == gsz,
            gszs == div_ceil_spec(m as int, num_groups as int),
            gszs * num_groups >= m,
            gszs * num_groups < m + num_groups,
            gszs <= m,
            pv == g2_base_vals(bases@),
            g <= num_groups,
            out@.len() == g * num_windows,
            forall|i: int| 0 <= i < ds@.len()
                ==> -(bucket_len as int) <= #[trigger] ds@[i] <= bucket_len as int,
            forall|g2: int, jj: int| 0 <= g2 < g && 0 <= jj < num_windows
                ==> #[trigger] partial_ok(point_vals_g2(out@), ds@, pv, num_windows as int, gszs, m as int, g2, jj),
        decreases num_groups - g,
    {
        proof {
            assert(g * gszs <= num_groups * gszs && (g + 1) * gszs <= num_groups * gszs)
                by (nonlinear_arith)
                requires g + 1 <= num_groups && gszs >= 0;
            assert(g * gszs >= 0 && (g + 1) * gszs >= g * gszs) by (nonlinear_arith)
                requires g >= 0 && gszs >= 0;
            assert(num_groups * gszs == gszs * num_groups) by (nonlinear_arith);
            assert((g + 1) * gszs == g * gszs + gszs) by (nonlinear_arith);
        }
        let start: usize = g * gsz;
        let lo: usize = if start < m { start } else { m };
        let next: usize = start + gsz;
        let hi: usize = if next < m { next } else { m };
        proof {
            assert(lo == group_lo(gszs, m as int, g as int));
            assert((g + 1) * gszs == g * gszs + gszs) by (nonlinear_arith);
            assert(hi == group_lo(gszs, m as int, g + 1));
            assert(lo <= hi);
        }
        let mut jj: usize = 0;
        while jj < num_windows
            invariant
                m == bases@.len(),
                ds@.len() == m * num_windows,
                1 <= num_windows,
                1 <= num_groups,
                1 <= bucket_len,
                m * num_windows <= usize::MAX,
                num_groups * num_windows <= usize::MAX,
                pv == g2_base_vals(bases@),
                g < num_groups,
                jj <= num_windows,
                gszs == gsz,
                lo == group_lo(gszs, m as int, g as int),
                hi == group_lo(gszs, m as int, g + 1),
                lo <= hi <= m,
                out@.len() == g * num_windows + jj,
                forall|i: int| 0 <= i < ds@.len()
                    ==> -(bucket_len as int) <= #[trigger] ds@[i] <= bucket_len as int,
                forall|g2: int, j2: int|
                    (0 <= g2 < g && 0 <= j2 < num_windows) || (g2 == g && 0 <= j2 < jj)
                    ==> #[trigger] partial_ok(point_vals_g2(out@), ds@, pv, num_windows as int, gszs, m as int, g2, j2),
            decreases num_windows - jj,
        {
            let p = g2_window_partial(bases, ds, num_windows, num_windows - 1 - jj, lo, hi, bucket_len);
            let ghost out_before = out@;
            out.push(p);
            proof {
                assert(g * num_windows + jj < num_groups * num_windows) by (nonlinear_arith)
                    requires g + 1 <= num_groups && jj < num_windows && num_windows >= 1 && g >= 0;
                assert(out@[g * num_windows + jj] == p);
                assert(point_vals_g2(out@)[g * num_windows + jj] == g2p_val(p));
                assert(partial_ok(point_vals_g2(out@), ds@, pv, num_windows as int, gszs, m as int, g as int, jj as int));
                assert forall|g2: int, j2: int|
                    (0 <= g2 < g && 0 <= j2 < num_windows) || (g2 == g && 0 <= j2 < jj)
                    implies #[trigger] partial_ok(point_vals_g2(out@), ds@, pv, num_windows as int, gszs, m as int, g2, j2) by {
                    if g2 < g {
                        assert(g2 * num_windows + j2 < g * num_windows + jj) by (nonlinear_arith)
                            requires g2 + 1 <= g && j2 < num_windows && num_windows >= 1 && g2 >= 0 && j2 >= 0 && jj >= 0;
                    } else {
                        assert(g2 * num_windows + j2 < g * num_windows + jj) by (nonlinear_arith)
                            requires g2 == g && j2 < jj;
                    }
                    assert(g2 * num_windows + j2 >= 0) by (nonlinear_arith)
                        requires g2 >= 0 && j2 >= 0 && num_windows >= 0;
                    assert(out@[g2 * num_windows + j2] == out_before[g2 * num_windows + j2]);
                    assert(point_vals_g2(out@)[g2 * num_windows + j2] == point_vals_g2(out_before)[g2 * num_windows + j2]);
                    assert(partial_ok(point_vals_g2(out_before), ds@, pv, num_windows as int, gszs, m as int, g2, j2));
                }
            }
            jj = jj + 1;
        }
        proof {
            assert((g + 1) * num_windows == g * num_windows + num_windows) by (nonlinear_arith);
        }
        g = g + 1;
    }
    out
}

/// Collapses the partial array into one point: for each column, first `w`
/// doublings of the accumulator, then the sum of the column's group entries.
/// Column 0 is the most significant window, so the final accumulator has
/// shifted every column into its place.
pub fn g2_reduce(
    partials: &Vec<blstrs::G2Projective>,
    window_size: usize,
    num_windows: usize,
    num_groups: usize,
) -> (s: blstrs::G2Projective)
    requires
        partials@.len() == num_groups * num_windows,
        1 <= window_size <= 10,
        1 <= num_windows,
        1 <= num_groups,
    ensures
        g2p_val(s) == reduce_acc(point_vals_g2(partials@), window_size as nat, num_windows as int,
            num_groups as int, num_windows as int) % (r_mod() as int),
{
    let ghost pv = point_vals_g2(partials@);
    let ghost rr = r_mod() as int;
    let plen: usize = partials.len();
    proof {
        assert(num_groups * num_windows == plen);
    }
    let w = window_size;
    let mut acc = g2_identity();
    proof {
        crate::model::lemma_r_mod_pos();
        assert(0int % rr == 0) by (nonlinear_arith)
            requires rr > 1;
    }
    let mut j: usize = 0;
    while j < num_windows
        invariant
            partials@.len() == num_groups * num_windows,
            num_groups * num_windows <= usize::MAX,
            1 <= w <= 10,
            1 <= num_windows,
            1 <= num_groups,
            j <= num_windows,
            rr == r_mod() as int,
            rr > 1,
            pv == point_vals_g2(partials@),
            g2p_val(acc) == reduce_acc(pv, w as nat, num_windows as int, num_groups as int, j as int) % rr,
        decreases num_windows - j,
    {
        let ghost aj = reduce_acc(pv, w as nat, num_windows as int, num_groups as int, j as int);
        let mut k: usize = 0;
        proof {
            assert(pow2(0) == 1) by { vstd::arithmetic::power2::lemma2_to64(); }
            assert(1 * aj == aj) by (nonlinear_arith);
            vstd::arithmetic::div_mod::lemma_mod_twice(aj, rr);
            assert((pow2(0) * aj) % rr == (aj % rr) % rr);
        }
        while k < w
            invariant
                1 <= w <= 10,
                k <= w,
                rr == r_mod() as int,
                rr > 1,
                g2p_val(acc) == (pow2(k as nat) * aj) % rr,
            decreases w - k,
        {
            let a2 = g2_double(&acc);
            proof {
                // 2 * ((2^k a) % r) is congruent to 2^(k+1) a.
                lemma_mod_mul_l(pow2(k as nat) * aj, 2);
                vstd::arithmetic::power2::lemma_pow2_adds(k as nat, 1);
                assert(pow2(1) == 2) by { vstd::arithmetic::power2::lemma2_to64(); }
                assert((pow2(k as nat) * aj) * 2 == pow2((k + 1) as nat) * aj) by (nonlinear_arith)
                    requires pow2((k + 1) as nat) == pow2(k as nat) * pow2(1) && pow2(1) == 2;
                assert(2 * (g2p_val(acc) as int) == (g2p_val(acc) as int) * 2);
            }
            acc = a2;
            k = k + 1;
        }
        let ghost shifted = pow2(w as nat) * aj;
        let mut g: usize = 0;
        proof {
            assert(col_sum_to(pv, num_windows as int, j as int, 0) == 0);
        }
        while g < num_groups
            invariant
                partials@.len() == num_groups * num_windows,
                num_groups * num_windows <= usize::MAX,
                1 <= num_windows,
                1 <= num_groups,
                j < num_windows,
                g <= num_groups,
                rr == r_mod() as int,
                rr > 1,
                pv == point_vals_g2(partials@),
                g2p_val(acc) == (shifted + col_sum_to(pv, num_windows as int, j as int, g as int)) % rr,
            decreases num_groups - g,
        {
            proof {
                assert(g * num_windows + j < num_groups * num_windows) by (nonlinear_arith)
                    requires g + 1 <= num_groups && j < num_windows && num_windows >= 1 && g >= 0;
                assert(g * num_windows + j >= 0) by (nonlinear_arith)
                    requires g >= 0 && j >= 0 && num_windows >= 0;
            }
            let a2 = g2_add(&acc, &partials[g * num_windows + j]);
            proof {
                let cs = col_sum_to(pv, num_windows as int, j as int, g as int);
                lemma_mod_add_l(shifted + cs, pv[(g as int) * (num_windows as int) + j as int] as int);
            }
            acc = a2;
            g = g + 1;
        }
        j = j + 1;
    }
    acc
}


} // verus!
