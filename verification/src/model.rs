//! The mathematical model of the engine.
//!
//! Both target groups of BLS12-381 are cyclic of prime order `r`, so a group
//! element is determined by its discrete logarithm with respect to the fixed
//! generator. Contracts speak of points through that logarithm, a natural
//! number below `r`, and a multi-scalar multiplication is the weighted sum of
//! the logarithms of its bases modulo `r`.

use vstd::prelude::*;
use vstd::calc;
use vstd::arithmetic::div_mod::{lemma_add_mod_noop, lemma_mod_twice, lemma_mul_mod_noop_left};

verus! {

/// The order `r` of the scalar field (and of the groups G1 and G2) of
/// BLS12-381.
pub open spec fn r_mod() -> nat {
    0x73eda753299d7d483339d80809a1d80553bda402fffe5bfeffffffff00000001nat
}

pub proof fn lemma_r_mod_pos()
    ensures
        r_mod() > 1,
{
}

/// Weighted sum of a vector of base-point logarithms `ps` by a vector of
/// scalar values `es`: `sum over i of es[i] * ps[i]`.
pub open spec fn dot(ps: Seq<nat>, es: Seq<nat>) -> int
    decreases ps.len(),
{
    if ps.len() == 0 || es.len() == 0 {
        0
    } else {
        ps[0] * es[0] + dot(ps.skip(1), es.skip(1))
    }
}

/// What a multi-scalar multiplication is worth in the model: the discrete
/// logarithm of `sum over i of es[i] * P_i`, that is `dot(ps, es) mod r`.
pub open spec fn msm_value(ps: Seq<nat>, es: Seq<nat>) -> int {
    dot(ps, es) % (r_mod() as int)
}

/// Folding a left operand into a sum modulo `r` may be done before or after
/// reduction.
pub proof fn lemma_mod_add_l(a: int, b: int)
    ensures
        ((a % (r_mod() as int)) + b) % (r_mod() as int) == (a + b) % (r_mod() as int),
{
    let m = r_mod() as int;
    lemma_mod_twice(a, m);
    lemma_add_mod_noop(a % m, b, m);
    lemma_add_mod_noop(a, b, m);
}

/// Folding a right operand into a sum modulo `r` may be done before or after
/// reduction.
pub proof fn lemma_mod_add_r(a: int, b: int)
    ensures
        (a + (b % (r_mod() as int))) % (r_mod() as int) == (a + b) % (r_mod() as int),
{
    lemma_mod_add_l(b, a);
}

/// Reducing a factor modulo `r` does not change a product modulo `r`.
pub proof fn lemma_mod_mul_l(a: int, b: int)
    ensures
        ((a % (r_mod() as int)) * b) % (r_mod() as int) == (a * b) % (r_mod() as int),
{
    lemma_mul_mod_noop_left(a, b, r_mod() as int);
}


/// A dot product splits at any concatenation point: the contribution of a
/// shard is independent of the rest of the input.
pub proof fn lemma_dot_concat(ps1: Seq<nat>, es1: Seq<nat>, ps2: Seq<nat>, es2: Seq<nat>)
    requires
        ps1.len() == es1.len(),
    ensures
        dot(ps1 + ps2, es1 + es2) == dot(ps1, es1) + dot(ps2, es2),
    decreases ps1.len(),
{
    if ps1.len() == 0 {
        assert(ps1 + ps2 =~= ps2);
        assert(es1 + es2 =~= es2);
    } else {
        assert((ps1 + ps2).skip(1) =~= ps1.skip(1) + ps2);
        assert((es1 + es2).skip(1) =~= es1.skip(1) + es2);
        lemma_dot_concat(ps1.skip(1), es1.skip(1), ps2, es2);
    }
}

/// Sharding invariance: the result of an MSM over a concatenation of two
/// shards is the modular sum of the two shard results. Together with
/// permutation invariance this covers every partition of the input into
/// disjoint index sets.
pub proof fn lemma_msm_sharding(ps1: Seq<nat>, es1: Seq<nat>, ps2: Seq<nat>, es2: Seq<nat>)
    requires
        ps1.len() == es1.len(),
    ensures
        msm_value(ps1 + ps2, es1 + es2)
            == (msm_value(ps1, es1) + msm_value(ps2, es2)) % (r_mod() as int),
{
    lemma_dot_concat(ps1, es1, ps2, es2);
    lemma_mod_add_l(dot(ps1, es1), dot(ps2, es2) % (r_mod() as int));
    lemma_mod_add_r(dot(ps1, es1), dot(ps2, es2));
}

/// Element-wise sum modulo `r` of two exponent vectors.
pub open spec fn add_exps(a: Seq<nat>, b: Seq<nat>) -> Seq<nat> {
    Seq::new(a.len(), |i: int| ((((a[i] + b[i]) as int) % (r_mod() as int)) as nat))
}

proof fn lemma_dot_add_exps(ps: Seq<nat>, a: Seq<nat>, b: Seq<nat>)
    requires
        ps.len() == a.len(),
        a.len() == b.len(),
    ensures
        dot(ps, add_exps(a, b)) % (r_mod() as int)
            == (dot(ps, a) + dot(ps, b)) % (r_mod() as int),
    decreases ps.len(),
{
    let m = r_mod() as int;
    if ps.len() == 0 {
    } else {
        assert(add_exps(a, b).skip(1) =~= add_exps(a.skip(1), b.skip(1)));
        lemma_dot_add_exps(ps.skip(1), a.skip(1), b.skip(1));
        let p0 = ps[0] as int;
        let a0 = a[0] as int;
        let b0 = b[0] as int;
        let h = p0 * ((a0 + b0) % m);
        let t = dot(ps.skip(1), add_exps(a.skip(1), b.skip(1)));
        let ta = dot(ps.skip(1), a.skip(1));
        let tb = dot(ps.skip(1), b.skip(1));
        assert(add_exps(a, b)[0] == ((a0 + b0) % m) as nat);
        assert(dot(ps, add_exps(a, b)) == h + t);
        // Reduce the head: p0 * ((a0 + b0) % r) is congruent to
        // p0 * (a0 + b0) modulo r.
        assert(h % m == (p0 * (a0 + b0)) % m) by {
            lemma_mod_mul_l(a0 + b0, p0);
            assert(h == ((a0 + b0) % m) * p0) by (nonlinear_arith)
                requires h == p0 * ((a0 + b0) % m);
            assert(p0 * (a0 + b0) == (a0 + b0) * p0) by (nonlinear_arith);
        }
        calc! {
            (==)
            (h + t) % m; {
                lemma_mod_add_l(h, t);
                lemma_mod_add_l(p0 * (a0 + b0), t);
            }
            (p0 * (a0 + b0) + t) % m; {
                assert(p0 * (a0 + b0) == p0 * a0 + p0 * b0) by (nonlinear_arith);
            }
            (p0 * a0 + p0 * b0 + t) % m; {
                lemma_mod_add_r(p0 * a0 + p0 * b0, t);
                lemma_mod_add_r(p0 * a0 + p0 * b0, ta + tb);
            }
            (p0 * a0 + p0 * b0 + (ta + tb)) % m;
        }
        assert(dot(ps, a) == p0 * a0 + ta);
        assert(dot(ps, b) == p0 * b0 + tb);
    }
}

/// Linearity: over the same bases, the sum of two MSM results equals the MSM
/// of the element-wise (mod `r`) sum of the exponent vectors.
pub proof fn lemma_msm_linearity(ps: Seq<nat>, a: Seq<nat>, b: Seq<nat>)
    requires
        ps.len() == a.len(),
        a.len() == b.len(),
    ensures
        msm_value(ps, add_exps(a, b))
            == (msm_value(ps, a) + msm_value(ps, b)) % (r_mod() as int),
{
    lemma_dot_add_exps(ps, a, b);
    lemma_mod_add_l(dot(ps, a), dot(ps, b) % (r_mod() as int));
    lemma_mod_add_r(dot(ps, a), dot(ps, b));
}

/// Zero-scalar absorption: an all-zero exponent vector yields the identity.
pub proof fn lemma_msm_zero_scalars(ps: Seq<nat>, es: Seq<nat>)
    requires
        forall|i: int| 0 <= i < es.len() ==> es[i] == 0,
    ensures
        msm_value(ps, es) == 0,
    decreases ps.len(),
{
    if ps.len() == 0 || es.len() == 0 {
    } else {
        lemma_msm_zero_scalars(ps.skip(1), es.skip(1));
        assert(ps[0] * es[0] == 0) by (nonlinear_arith)
            requires es[0] == 0;
    }
}

/// Identity absorption: bases that are all the identity yield the identity,
/// whatever the exponents.
pub proof fn lemma_msm_identity_bases(ps: Seq<nat>, es: Seq<nat>)
    requires
        forall|i: int| 0 <= i < ps.len() ==> ps[i] == 0,
    ensures
        msm_value(ps, es) == 0,
    decreases ps.len(),
{
    if ps.len() == 0 || es.len() == 0 {
    } else {
        lemma_msm_identity_bases(ps.skip(1), es.skip(1));
        assert(ps[0] * es[0] == 0) by (nonlinear_arith)
            requires ps[0] == 0;
    }
}

/// The bases and exponents as one sequence of pairs, so that reordering both
/// vectors together is a permutation of the pairs.
pub open spec fn paired(ps: Seq<nat>, es: Seq<nat>) -> Seq<(nat, nat)> {
    Seq::new(ps.len(), |i: int| (ps[i], es[i]))
}

/// The dot product over pairs.
pub open spec fn pdot(s: Seq<(nat, nat)>) -> int
    decreases s.len(),
{
    if s.len() == 0 {
        0
    } else {
        s[0].0 * s[0].1 + pdot(s.skip(1))
    }
}

proof fn lemma_pdot_paired(ps: Seq<nat>, es: Seq<nat>)
    requires
        ps.len() == es.len(),
    ensures
        pdot(paired(ps, es)) == dot(ps, es),
    decreases ps.len(),
{
    if ps.len() == 0 {
    } else {
        assert(paired(ps, es).skip(1) =~= paired(ps.skip(1), es.skip(1)));
        lemma_pdot_paired(ps.skip(1), es.skip(1));
    }
}

proof fn lemma_pdot_remove(s: Seq<(nat, nat)>, j: int)
    requires
        0 <= j < s.len(),
    ensures
        pdot(s.remove(j)) == pdot(s) - s[j].0 * s[j].1,
    decreases j,
{
    if j == 0 {
        assert(s.remove(0) =~= s.skip(1));
    } else {
        assert(s.remove(j).skip(1) =~= s.skip(1).remove(j - 1));
        lemma_pdot_remove(s.skip(1), j - 1);
    }
}

proof fn lemma_pdot_permutation(s1: Seq<(nat, nat)>, s2: Seq<(nat, nat)>)
    requires
        s1.to_multiset() == s2.to_multiset(),
    ensures
        pdot(s1) == pdot(s2),
    decreases s1.len(),
{
    s1.to_multiset_ensures();
    s2.to_multiset_ensures();
    if s1.len() == 0 {
        assert(s2.len() == 0);
    } else {
        let x = s1[0];
        assert(s1.contains(x));
        assert(s2.to_multiset().count(x) > 0);
        assert(s2.contains(x));
        let j = choose|j: int| 0 <= j < s2.len() && s2[j] == x;
        assert(s1.remove(0).to_multiset() =~= s1.to_multiset().remove(x));
        assert(s2.remove(j).to_multiset() =~= s2.to_multiset().remove(x));
        lemma_pdot_permutation(s1.remove(0), s2.remove(j));
        lemma_pdot_remove(s1, 0);
        lemma_pdot_remove(s2, j);
    }
}

/// Permutation invariance: reordering the terms, bases and exponents moving
/// together, leaves the MSM result unchanged.
pub proof fn lemma_msm_permutation(ps1: Seq<nat>, es1: Seq<nat>, ps2: Seq<nat>, es2: Seq<nat>)
    requires
        ps1.len() == es1.len(),
        ps2.len() == es2.len(),
        paired(ps1, es1).to_multiset() == paired(ps2, es2).to_multiset(),
    ensures
        msm_value(ps1, es1) == msm_value(ps2, es2),
{
    lemma_pdot_paired(ps1, es1);
    lemma_pdot_paired(ps2, es2);
    lemma_pdot_permutation(paired(ps1, es1), paired(ps2, es2));
}

} // verus!
