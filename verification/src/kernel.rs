//! The per-device MSM kernel: sizing at creation, the window plan of one
//! chunk, and the chunk computation itself.

use vstd::prelude::*;
use vstd::arithmetic::power2::{pow2, lemma_pow2_strictly_increases};
use core::sync::atomic::{AtomicBool, Ordering};
use std::sync::Arc;
use crate::model::msm_value;
use crate::sizing::{DeviceProfile, CurveSizes, div_ceil, div_ceil_spec, lemma_div_ceil_bounds,
    work_units, work_units_spec, calc_chunk_size, chunk_size_spec};
use crate::scalars::{ScalarBytes, exp_vals, all_digits, small_pow2};
use crate::curve::{g1a_val, g1p_val, g1_base_vals, g2a_val, g2p_val, g2_base_vals};
use crate::pippenger::{g1_compute_partials, g1_reduce, g2_compute_partials, g2_reduce, lemma_pipeline_value};
use crate::{MAX_WINDOW_SIZE, LOCAL_WORK_SIZE, SCALAR_BITS};

verus! {

/// What can go wrong: the caller's abort hook fired at a safe point, no
/// usable device was found, or a device could not be sized or driven.
#[derive(Debug, Clone, PartialEq, Eq, Structural)]
pub enum EcError {
    Aborted,
    NoDevices,
    DeviceFailure,
}

/// A shared abort hook, safe to trip from another thread: the engine samples
/// it before starting each sub-chunk and gives up with `EcError::Aborted`
/// once it reads true.
pub struct AbortFlag {
    inner: Arc<AtomicBool>,
}

impl AbortFlag {
    /// A fresh, untripped flag.
    pub fn new() -> (r: AbortFlag) {
        AbortFlag { inner: Arc::new(AtomicBool::new(false)) }
    }

    /// Trips the flag; every kernel holding a handle will stop at its next
    /// safe point.
    pub fn set(&self) {
        self.inner.store(true, Ordering::SeqCst);
    }

    /// Samples the flag. The result depends on what other threads have done,
    /// so nothing is promised of it.
    pub fn is_set(&self) -> bool {
        self.inner.load(Ordering::SeqCst)
    }

    /// Relies on `std::sync::Arc::clone`: another handle to the same flag.
    #[verifier::external_body]
    pub fn duplicate(&self) -> (r: AbortFlag) {
        AbortFlag { inner: Arc::clone(&self.inner) }
    }
}

/// The window plan of one chunk: how the 256 scalar bits are cut and how the
/// device's work units are spread over groups and windows.
pub struct WindowPlan {
    pub window_size: usize,
    pub num_windows: usize,
    pub num_groups: usize,
    pub bucket_len: usize,
    pub global_work_size: usize,
    pub row_nums: usize,
}

/// The ceiling of the base-two logarithm.
pub open spec fn clog2(n: int) -> nat
    decreases n,
{
    if n <= 1 {
        0
    } else {
        1 + clog2(div_ceil_spec(n, 2))
    }
}

/// Computes the ceiling of the base-two logarithm.
pub fn ceil_log2(x: usize) -> (r: usize)
    ensures
        r == clog2(x as int),
        r <= x,
    decreases x,
{
    if x <= 1 {
        0
    } else {
        proof {
            lemma_div_ceil_bounds(x as int, 2);
            assert(div_ceil_spec(x as int, 2) < x) by {
                assert(div_ceil_spec(x as int, 2) * 2 < x + 2);
                assert(div_ceil_spec(x as int, 2) <= x - 1) by (nonlinear_arith)
                    requires div_ceil_spec(x as int, 2) * 2 < x + 2 && x >= 2;
            }
        }
        let h = ceil_log2(div_ceil(x, 2));
        1 + h
    }
}

/// The window size for a chunk of `num_terms` terms on `wu` work units.
pub open spec fn window_size_spec(num_terms: int, wu: int) -> int {
    let raw = clog2(div_ceil_spec(num_terms, wu)) + 2;
    if raw < MAX_WINDOW_SIZE {
        raw as int
    } else {
        MAX_WINDOW_SIZE as int
    }
}

/// Multiexp kernel for a single device.
///
/// `n` is the number of terms whose buffers fit in device memory in one
/// execution, `work_units` the number of device threads the work is split
/// into. The optional abort flag is sampled at each safe point.
pub struct SingleMultiexpKernel {
    pub n: usize,
    pub work_units: usize,
    pub maybe_abort: Option<AbortFlag>,
}

impl SingleMultiexpKernel {
    pub open spec fn wf(&self) -> bool {
        &&& self.n >= 1
        &&& 128 <= self.work_units
        &&& self.work_units as int <= 0x1000_0000
    }

    pub open spec fn spec_chunk_size(&self) -> int {
        self.n as int
    }

    pub open spec fn has_abort(&self) -> bool {
        self.maybe_abort is Some
    }

    /// The number of terms this kernel accepts in one call.
    pub fn chunk_size(&self) -> (r: usize)
        ensures
            r == self.spec_chunk_size(),
    {
        self.n
    }

    /// Sizes a kernel for one device: derives the work units from the
    /// compute units and the chunk size from the memory budget. A device
    /// whose memory cannot hold the bucket and result buffers plus at least
    /// one term is refused.
    pub fn create(device: &DeviceProfile, sizes: &CurveSizes, maybe_abort: Option<AbortFlag>)
        -> (r: Result<SingleMultiexpKernel, EcError>)
        requires
            device.wf(),
            sizes.wf(),
        ensures
            match r {
                Ok(k) => {
                    &&& k.wf()
                    &&& k.work_units as int == work_units_spec(device.compute_units, device.compute_capability)
                    &&& k.spec_chunk_size() == chunk_size_spec(device.memory as int, k.work_units as int, *sizes)
                    &&& (k.has_abort() <==> maybe_abort is Some)
                },
                Err(e) => e == EcError::DeviceFailure,
            },
            (chunk_size_spec(device.memory as int,
                work_units_spec(device.compute_units, device.compute_capability), *sizes) >= 1
                && chunk_size_spec(device.memory as int,
                    work_units_spec(device.compute_units, device.compute_capability), *sizes)
                    <= usize::MAX)
                ==> r is Ok,
    {
        let wu = work_units(device.compute_units, device.compute_capability);
        proof {
            assert(wu >= 128) by {
                assert(LOCAL_WORK_SIZE * (device.compute_units as int) >= 128) by (nonlinear_arith)
                    requires device.compute_units >= 1 && LOCAL_WORK_SIZE == 128;
                assert(2 * LOCAL_WORK_SIZE * (device.compute_units as int) >= 128) by (nonlinear_arith)
                    requires device.compute_units >= 1 && LOCAL_WORK_SIZE == 128;
            }
        }
        match calc_chunk_size(device.memory, wu, sizes) {
            Some(chunk) => Ok(SingleMultiexpKernel { n: chunk, work_units: wu, maybe_abort }),
            None => Err(EcError::DeviceFailure),
        }
    }

    /// The window plan for a chunk of `num_terms` terms.
    ///
    /// The window size shrinks with the chunk so that more windows, and so
    /// more parallel work units, are in play; `window_size * num_windows`
    /// always covers the 256 scalar bits, and the signed-digit buckets need
    /// only half of the `2^window_size` range.
    pub fn plan(&self, num_terms: usize) -> (p: WindowPlan)
        requires
            self.wf(),
        ensures
            p.window_size == window_size_spec(num_terms as int, self.work_units as int),
            2 <= p.window_size <= MAX_WINDOW_SIZE,
            p.num_windows == div_ceil_spec(SCALAR_BITS as int, p.window_size as int),
            1 <= p.num_windows <= 128,
            p.window_size * p.num_windows >= SCALAR_BITS,
            p.num_groups == self.work_units as int / p.num_windows as int,
            1 <= p.num_groups,
            p.num_groups * p.num_windows <= self.work_units,
            p.bucket_len == pow2((p.window_size - 1) as nat),
            1 <= p.bucket_len <= 512,
            p.global_work_size == div_ceil_spec(p.num_windows * p.num_groups, LOCAL_WORK_SIZE as int),
            1 <= p.global_work_size,
            p.row_nums == div_ceil_spec(num_terms as int, p.global_work_size * LOCAL_WORK_SIZE),
    {
        let per_unit = div_ceil(num_terms, self.work_units);
        let lg = ceil_log2(per_unit);
        let window_size = if lg < MAX_WINDOW_SIZE - 2 { lg + 2 } else { MAX_WINDOW_SIZE };
        let num_windows = div_ceil(SCALAR_BITS, window_size);
        proof {
            lemma_div_ceil_bounds(SCALAR_BITS as int, window_size as int);
            assert(num_windows >= 128 ==> num_windows * window_size >= 256) by (nonlinear_arith)
                requires window_size >= 2;
            assert(num_windows <= 128) by {
                assert(div_ceil_spec(256, window_size as int) * window_size >= 256);
                if num_windows > 128 {
                    assert(num_windows * window_size < 256 + window_size);
                    assert(false) by (nonlinear_arith)
                        requires
                            num_windows * window_size < 256 + window_size,
                            num_windows >= 129,
                            window_size >= 2;
                }
            }
        }
        let num_groups = self.work_units / num_windows;
        proof {
            vstd::arithmetic::div_mod::lemma_fundamental_div_mod(self.work_units as int, num_windows as int);
            assert(num_groups >= 1) by (nonlinear_arith)
                requires
                    self.work_units as int == (num_windows as int) * (num_groups as int)
                        + (self.work_units as int) % (num_windows as int),
                    0 <= (self.work_units as int) % (num_windows as int) < num_windows,
                    num_windows <= 128,
                    self.work_units >= 128;
            assert(num_groups * num_windows <= self.work_units) by (nonlinear_arith)
                requires
                    self.work_units as int == (num_windows as int) * (num_groups as int)
                        + (self.work_units as int) % (num_windows as int),
                    0 <= (self.work_units as int) % (num_windows as int);
        }
        let bucket_len_wide: u64 = small_pow2(window_size - 1);
        proof {
            assert(pow2((window_size - 1) as nat) <= 512) by {
                if ((window_size - 1) as nat) < 9 {
                    lemma_pow2_strictly_increases((window_size - 1) as nat, 9);
                }
                assert(pow2(9) == 512) by { vstd::arithmetic::power2::lemma2_to64(); }
            }
        }
        let bucket_len: usize = bucket_len_wide as usize;
        let global_work_size = div_ceil(num_windows * num_groups, LOCAL_WORK_SIZE);
        proof {
            lemma_div_ceil_bounds((num_windows * num_groups) as int, LOCAL_WORK_SIZE as int);
            assert(num_windows * num_groups >= 1) by (nonlinear_arith)
                requires num_windows >= 1 && num_groups >= 1;
            assert(global_work_size * LOCAL_WORK_SIZE <= 0x1000_0000 + 128) by (nonlinear_arith)
                requires
                    global_work_size * LOCAL_WORK_SIZE < num_windows * num_groups + LOCAL_WORK_SIZE,
                    num_windows * num_groups <= 0x1000_0000,
                    LOCAL_WORK_SIZE == 128;
            assert(num_windows * num_groups <= 0x1000_0000) by (nonlinear_arith)
                requires
                    num_groups * num_windows <= self.work_units,
                    self.work_units as int <= 0x1000_0000;
        }
        let row_nums = div_ceil(num_terms, global_work_size * LOCAL_WORK_SIZE);
        WindowPlan { window_size, num_windows, num_groups, bucket_len, global_work_size, row_nums }
    }

    /// Calculates the window size for the given number of terms: a smaller
    /// chunk gets a smaller window, down to 2 bits, and no window exceeds
    /// `MAX_WINDOW_SIZE`.
    pub fn calc_window_size(&self, num_terms: usize) -> (r: usize)
        requires
            self.wf(),
        ensures
            r == window_size_spec(num_terms as int, self.work_units as int),
    {
        let p = self.plan(num_terms);
        p.window_size
    }

    /// Runs the multi-scalar multiplication of one chunk.
    ///
    /// If an abort flag is installed and already tripped, the call fails
    /// with `EcError::Aborted` before any work; otherwise the result is
    /// exactly `sum of exps[i] * bases[i]` in the group: its discrete
    /// logarithm is the weighted sum of the bases' logarithms modulo `r`.
    pub fn multiexp(&self, bases: &[blstrs::G1Affine], exps: &[ScalarBytes])
        -> (r: Result<blstrs::G1Projective, EcError>)
        requires
            self.wf(),
            bases@.len() == exps@.len(),
            bases@.len() <= self.spec_chunk_size(),
            bases@.len() * 128 <= usize::MAX - 0x1000_0000,
            forall|t: int| 0 <= t < exps@.len() ==> (#[trigger] exps@[t]).wf(),
        ensures
            match r {
                Ok(p) => g1p_val(p) as int == msm_value(g1_base_vals(bases@), exp_vals(exps@)),
                Err(e) => e == EcError::Aborted && self.has_abort(),
            },
            !self.has_abort() ==> r is Ok,
    {
        match &self.maybe_abort {
            Some(flag) => {
                if flag.is_set() {
                    return Err(EcError::Aborted);
                }
            },
            None => {},
        }
        let m: usize = bases.len();
        let plan = self.plan(m);
        proof {
            assert(m * plan.num_windows <= m * 128) by (nonlinear_arith)
                requires plan.num_windows <= 128 && m >= 0;
        }
        let ds = all_digits(exps, plan.window_size, plan.num_windows);
        proof {
            assert(plan.num_groups * plan.num_windows <= usize::MAX);
            assert(m + plan.num_groups <= usize::MAX) by (nonlinear_arith)
                requires
                    m * 128 <= usize::MAX - 0x1000_0000,
                    plan.num_groups <= 0x1000_0000,
                    m >= 0;
        }
        let partials = g1_compute_partials(bases, &ds, plan.num_windows, plan.num_groups, plan.bucket_len);
        let acc = g1_reduce(&partials, plan.window_size, plan.num_windows, plan.num_groups);
        proof {
            let nw = plan.num_windows as int;
            let ng = plan.num_groups as int;
            let w = plan.window_size as nat;
            let gsz = div_ceil_spec(m as int, ng);
            let pv = g1_base_vals(bases@);
            let ev = exp_vals(exps@);
            lemma_div_ceil_bounds(m as int, ng);
            assert(ev.len() == m && pv.len() == m);
            assert forall|tt: int| 0 <= tt < m
                implies crate::scalars::digits_val(#[trigger] ds@.subrange(tt * nw, (tt + 1) * nw), w)
                    == ev[tt] by {
                assert(crate::scalars::digits_val(ds@.subrange(tt * nw, (tt + 1) * nw), w)
                    == exp_vals(exps@)[tt]);
            }
            lemma_pipeline_value(crate::pippenger::point_vals(partials@), ds@, pv, ev, w, nw, ng, gsz, m as int);
        }
        Ok(acc)
    }
    /// Runs the multi-scalar multiplication of one chunk in G2.
    ///
    /// If an abort flag is installed and already tripped, the call fails
    /// with `EcError::Aborted` before any work; otherwise the result is
    /// exactly `sum of exps[i] * bases[i]` in the group: its discrete
    /// logarithm is the weighted sum of the bases' logarithms modulo `r`.
    pub fn multiexp_g2(&self, bases: &[blstrs::G2Affine], exps: &[ScalarBytes])
        -> (r: Result<blstrs::G2Projective, EcError>)
        requires
            self.wf(),
            bases@.len() == exps@.len(),
            bases@.len() <= self.spec_chunk_size(),
            bases@.len() * 128 <= usize::MAX - 0x1000_0000,
            forall|t: int| 0 <= t < exps@.len() ==> (#[trigger] exps@[t]).wf(),
        ensures
            match r {
                Ok(p) => g2p_val(p) as int == msm_value(g2_base_vals(bases@), exp_vals(exps@)),
                Err(e) => e == EcError::Aborted && self.has_abort(),
            },
            !self.has_abort() ==> r is Ok,
    {
        match &self.maybe_abort {
            Some(flag) => {
                if flag.is_set() {
                    return Err(EcError::Aborted);
                }
            },
            None => {},
        }
        let m: usize = bases.len();
        let plan = self.plan(m);
        proof {
            assert(m * plan.num_windows <= m * 128) by (nonlinear_arith)
                requires plan.num_windows <= 128 && m >= 0;
        }
        let ds = all_digits(exps, plan.window_size, plan.num_windows);
        proof {
            assert(plan.num_groups * plan.num_windows <= usize::MAX);
            assert(m + plan.num_groups <= usize::MAX) by (nonlinear_arith)
                requires
                    m * 128 <= usize::MAX - 0x1000_0000,
                    plan.num_groups <= 0x1000_0000,
                    m >= 0;
        }
        let partials = g2_compute_partials(bases, &ds, plan.num_windows, plan.num_groups, plan.bucket_len);
        let acc = g2_reduce(&partials, plan.window_size, plan.num_windows, plan.num_groups);
        proof {
            let nw = plan.num_windows as int;
            let ng = plan.num_groups as int;
            let w = plan.window_size as nat;
            let gsz = div_ceil_spec(m as int, ng);
            let pv = g2_base_vals(bases@);
            let ev = exp_vals(exps@);
            lemma_div_ceil_bounds(m as int, ng);
            assert(ev.len() == m && pv.len() == m);
            assert forall|tt: int| 0 <= tt < m
                implies crate::scalars::digits_val(#[trigger] ds@.subrange(tt * nw, (tt + 1) * nw), w)
                    == ev[tt] by {
                assert(crate::scalars::digits_val(ds@.subrange(tt * nw, (tt + 1) * nw), w)
                    == exp_vals(exps@)[tt]);
            }
            lemma_pipeline_value(crate::pippenger::point_vals_g2(partials@), ds@, pv, ev, w, nw, ng, gsz, m as int);
        }
        Ok(acc)
    }
}

/// Zero-scalar absorption at the kernel contract: when every exponent
/// encodes zero, the MSM value is zero, so a `multiexp` call without an
/// abort hook returns `Ok` of the identity point.
pub proof fn lemma_multiexp_zero_scalars_g1(bases: Seq<blstrs::G1Affine>, exps: Seq<ScalarBytes>)
    requires
        forall|t: int| 0 <= t < exps.len() ==> (#[trigger] exps[t]).val() == 0,
    ensures
        msm_value(g1_base_vals(bases), exp_vals(exps)) == 0,
{
    assert forall|t: int| 0 <= t < exp_vals(exps).len() implies #[trigger] exp_vals(exps)[t] == 0 by {
        assert(exp_vals(exps)[t] == exps[t].val());
    }
    crate::model::lemma_msm_zero_scalars(g1_base_vals(bases), exp_vals(exps));
}

/// Zero-scalar absorption for G2, as above.
pub proof fn lemma_multiexp_zero_scalars_g2(bases: Seq<blstrs::G2Affine>, exps: Seq<ScalarBytes>)
    requires
        forall|t: int| 0 <= t < exps.len() ==> (#[trigger] exps[t]).val() == 0,
    ensures
        msm_value(g2_base_vals(bases), exp_vals(exps)) == 0,
{
    assert forall|t: int| 0 <= t < exp_vals(exps).len() implies #[trigger] exp_vals(exps)[t] == 0 by {
        assert(exp_vals(exps)[t] == exps[t].val());
    }
    crate::model::lemma_msm_zero_scalars(g2_base_vals(bases), exp_vals(exps));
}

/// Identity-base absorption at the kernel contract: when every base is the
/// identity (discrete logarithm zero), the MSM value is zero, so a
/// `multiexp` call without an abort hook returns `Ok` of the identity
/// point, whatever the exponents.
pub proof fn lemma_multiexp_identity_bases_g1(bases: Seq<blstrs::G1Affine>, exps: Seq<ScalarBytes>)
    requires
        forall|t: int| 0 <= t < bases.len() ==> #[trigger] g1a_val(bases[t]) == 0,
    ensures
        msm_value(g1_base_vals(bases), exp_vals(exps)) == 0,
{
    assert forall|t: int| 0 <= t < g1_base_vals(bases).len()
        implies #[trigger] g1_base_vals(bases)[t] == 0 by {
        assert(g1_base_vals(bases)[t] == g1a_val(bases[t]));
    }
    crate::model::lemma_msm_identity_bases(g1_base_vals(bases), exp_vals(exps));
}

/// Identity-base absorption for G2, as above.
pub proof fn lemma_multiexp_identity_bases_g2(bases: Seq<blstrs::G2Affine>, exps: Seq<ScalarBytes>)
    requires
        forall|t: int| 0 <= t < bases.len() ==> #[trigger] g2a_val(bases[t]) == 0,
    ensures
        msm_value(g2_base_vals(bases), exp_vals(exps)) == 0,
{
    assert forall|t: int| 0 <= t < g2_base_vals(bases).len()
        implies #[trigger] g2_base_vals(bases)[t] == 0 by {
        assert(g2_base_vals(bases)[t] == g2a_val(bases[t]));
    }
    crate::model::lemma_msm_identity_bases(g2_base_vals(bases), exp_vals(exps));
}

} // verus!
