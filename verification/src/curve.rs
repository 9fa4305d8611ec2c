//! The trusted boundary to the curve library.
//!
//! The engine never looks inside a point: group elements of BLS12-381 are
//! opaque values of `blstrs`, combined only through the operations below.
//! Each point is modeled by its discrete logarithm with respect to the fixed
//! group generator, an uninterpreted natural number; the group laws of the
//! cyclic group of order `r` are assumed of the `blstrs` operations, and
//! nothing else.

use vstd::prelude::*;
use group::Group;
use crate::model::r_mod;
use crate::sizing::CurveSizes;

verus! {

#[verifier::external_type_specification]
#[verifier::external_body]
pub struct ExG1Affine(blstrs::G1Affine);

#[verifier::external_type_specification]
#[verifier::external_body]
pub struct ExG1Projective(blstrs::G1Projective);

#[verifier::external_type_specification]
#[verifier::external_body]
pub struct ExG2Affine(blstrs::G2Affine);

#[verifier::external_type_specification]
#[verifier::external_body]
pub struct ExG2Projective(blstrs::G2Projective);

/// The discrete logarithm of an affine G1 point.
pub uninterp spec fn g1a_val(a: blstrs::G1Affine) -> nat;

/// The discrete logarithm of a projective G1 point.
pub uninterp spec fn g1p_val(p: blstrs::G1Projective) -> nat;

/// The discrete logarithm of an affine G2 point.
pub uninterp spec fn g2a_val(a: blstrs::G2Affine) -> nat;

/// The discrete logarithm of a projective G2 point.
pub uninterp spec fn g2p_val(p: blstrs::G2Projective) -> nat;

/// Relies on `group::Group::identity` for `blstrs::G1Projective`: the
/// identity element, whose discrete logarithm is zero.
#[verifier::external_body]
pub(crate) fn g1_identity() -> (r: blstrs::G1Projective)
    ensures
        g1p_val(r) == 0,
{
    blstrs::G1Projective::identity()
}

/// Relies on `group::Group::double` for `blstrs::G1Projective`: doubling a
/// point doubles its discrete logarithm modulo the group order.
#[verifier::external_body]
pub(crate) fn g1_double(p: &blstrs::G1Projective) -> (r: blstrs::G1Projective)
    ensures
        g1p_val(r) == (2 * g1p_val(*p)) % r_mod(),
{
    p.double()
}

/// Relies on `Add<&G1Projective> for &G1Projective` of `blstrs`: projective
/// addition adds discrete logarithms modulo the group order.
#[verifier::external_body]
pub(crate) fn g1_add(p: &blstrs::G1Projective, q: &blstrs::G1Projective) -> (r: blstrs::G1Projective)
    ensures
        g1p_val(r) == (g1p_val(*p) + g1p_val(*q)) % r_mod(),
{
    p + q
}

/// Relies on `Add<&G1Affine> for &G1Projective` of `blstrs`: mixed addition
/// adds discrete logarithms modulo the group order.
#[verifier::external_body]
pub(crate) fn g1_add_mixed(p: &blstrs::G1Projective, a: &blstrs::G1Affine) -> (r: blstrs::G1Projective)
    ensures
        g1p_val(r) == (g1p_val(*p) + g1a_val(*a)) % r_mod(),
{
    p + a
}

/// Relies on `Neg for &G1Affine` of `blstrs`: negation sends a discrete
/// logarithm to its additive inverse modulo the group order.
#[verifier::external_body]
pub(crate) fn g1_neg_affine(a: &blstrs::G1Affine) -> (r: blstrs::G1Affine)
    ensures
        g1a_val(r) == ((r_mod() - g1a_val(*a) % r_mod()) as nat) % r_mod(),
{
    -a
}

/// Relies on `group::Group::identity` for `blstrs::G2Projective`: the
/// identity element, whose discrete logarithm is zero.
#[verifier::external_body]
pub(crate) fn g2_identity() -> (r: blstrs::G2Projective)
    ensures
        g2p_val(r) == 0,
{
    blstrs::G2Projective::identity()
}

/// Relies on `group::Group::double` for `blstrs::G2Projective`: doubling a
/// point doubles its discrete logarithm modulo the group order.
#[verifier::external_body]
pub(crate) fn g2_double(p: &blstrs::G2Projective) -> (r: blstrs::G2Projective)
    ensures
        g2p_val(r) == (2 * g2p_val(*p)) % r_mod(),
{
    p.double()
}

/// Relies on `Add<&G2Projective> for &G2Projective` of `blstrs`: projective
/// addition adds discrete logarithms modulo the group order.
#[verifier::external_body]
pub(crate) fn g2_add(p: &blstrs::G2Projective, q: &blstrs::G2Projective) -> (r: blstrs::G2Projective)
    ensures
        g2p_val(r) == (g2p_val(*p) + g2p_val(*q)) % r_mod(),
{
    p + q
}

/// Relies on `Add<&G2Affine> for &G2Projective` of `blstrs`: mixed addition
/// adds discrete logarithms modulo the group order.
#[verifier::external_body]
pub(crate) fn g2_add_mixed(p: &blstrs::G2Projective, a: &blstrs::G2Affine) -> (r: blstrs::G2Projective)
    ensures
        g2p_val(r) == (g2p_val(*p) + g2a_val(*a)) % r_mod(),
{
    p + a
}

/// Relies on `Neg for &G2Affine` of `blstrs`: negation sends a discrete
/// logarithm to its additive inverse modulo the group order.
#[verifier::external_body]
pub(crate) fn g2_neg_affine(a: &blstrs::G2Affine) -> (r: blstrs::G2Affine)
    ensures
        g2a_val(r) == ((r_mod() - g2a_val(*a) % r_mod()) as nat) % r_mod(),
{
    -a
}

/// The buffer footprint of G1: a 96-byte affine point, a 144-byte projective
/// point, and a 32-byte scalar representation.
pub fn g1_sizes() -> (r: CurveSizes)
    ensures
        r.affine_bytes == 96 && r.projective_bytes == 144 && r.exp_bytes == 32,
        r.wf(),
{
    CurveSizes { affine_bytes: 96, projective_bytes: 144, exp_bytes: 32 }
}

/// The buffer footprint of G2: a 192-byte affine point, a 288-byte projective
/// point, and a 32-byte scalar representation.
pub fn g2_sizes() -> (r: CurveSizes)
    ensures
        r.affine_bytes == 192 && r.projective_bytes == 288 && r.exp_bytes == 32,
        r.wf(),
{
    CurveSizes { affine_bytes: 192, projective_bytes: 288, exp_bytes: 32 }
}

/// The discrete logarithms of a vector of affine G1 bases.
pub open spec fn g1_base_vals(bases: Seq<blstrs::G1Affine>) -> Seq<nat> {
    bases.map_values(|a: blstrs::G1Affine| g1a_val(a))
}

/// The discrete logarithms of a vector of affine G2 bases.
pub open spec fn g2_base_vals(bases: Seq<blstrs::G2Affine>) -> Seq<nat> {
    bases.map_values(|a: blstrs::G2Affine| g2a_val(a))
}

} // verus!
