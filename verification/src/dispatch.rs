//! The multi-device dispatcher: shards the input over the per-device
//! kernels, chunks each shard to its kernel's capacity, and sums the
//! per-device accumulators in device order.
//!
//! Here the shards are driven in device order on the host; a caller that
//! runs them on OS threads obtains the same sums, since each device's
//! accumulator depends only on its own shard.

use vstd::prelude::*;
use crate::model::{msm_value, lemma_msm_sharding, r_mod};
use crate::sizing::{DeviceProfile, CurveSizes, div_ceil, div_ceil_spec, lemma_div_ceil_bounds,
    work_units_spec, chunk_size_spec};
use crate::scalars::{ScalarBytes, exp_vals};
use crate::curve::{g1p_val, g1_base_vals, g1_identity, g1_add, g2p_val, g2_base_vals, g2_identity, g2_add};
use crate::kernel::{SingleMultiexpKernel, AbortFlag, EcError};
use crate::pippenger::group_lo;

verus! {

/// Whether a device can be sized at all for the given curve footprint.
pub open spec fn device_usable(device: DeviceProfile, sizes: CurveSizes) -> bool {
    let n = chunk_size_spec(device.memory as int,
        work_units_spec(device.compute_units, device.compute_capability), sizes);
    1 <= n <= usize::MAX
}

/// Whether a kernel carries exactly the sizing that one device's
/// properties dictate: the device's work units, and the chunk size its
/// memory budget allows.
pub open spec fn kernel_matches(k: SingleMultiexpKernel, d: DeviceProfile, sizes: CurveSizes) -> bool {
    &&& k.work_units as int == work_units_spec(d.compute_units, d.compute_capability)
    &&& k.n as int == chunk_size_spec(d.memory as int,
            work_units_spec(d.compute_units, d.compute_capability), sizes)
}

/// The usable devices among the first `i`, in their given order.
pub open spec fn usable_prefix(devices: Seq<DeviceProfile>, sizes: CurveSizes, i: int) -> Seq<DeviceProfile>
    decreases i,
{
    if i <= 0 {
        Seq::empty()
    } else if device_usable(devices[i - 1], sizes) {
        usable_prefix(devices, sizes, i - 1).push(devices[i - 1])
    } else {
        usable_prefix(devices, sizes, i - 1)
    }
}

/// The usable devices, in their given order: creation keeps exactly these,
/// one sized kernel each.
pub open spec fn usable_devices(devices: Seq<DeviceProfile>, sizes: CurveSizes) -> Seq<DeviceProfile> {
    usable_prefix(devices, sizes, devices.len() as int)
}

/// A struct that contains one multiexp kernel per usable device.
pub struct MultiexpKernel {
    pub kernels: Vec<SingleMultiexpKernel>,
}

impl MultiexpKernel {
    pub open spec fn wf(&self) -> bool {
        &&& self.kernels@.len() >= 1
        &&& forall|i: int| 0 <= i < self.kernels@.len() ==> (#[trigger] self.kernels@[i]).wf()
    }

    /// No kernel carries an abort hook, so no call of this dispatcher fails.
    pub open spec fn no_abort(&self) -> bool {
        forall|i: int| 0 <= i < self.kernels@.len() ==> !(#[trigger] self.kernels@[i]).has_abort()
    }

    /// Create new kernels, one for each given device; a device that cannot
    /// be sized is dropped. Fails with `NoDevices` when none remains.
    pub fn create(devices: &Vec<DeviceProfile>, sizes: &CurveSizes)
        -> (r: Result<MultiexpKernel, EcError>)
        requires
            forall|i: int| 0 <= i < devices@.len() ==> (#[trigger] devices@[i]).wf(),
            sizes.wf(),
        ensures
            match r {
                Ok(k) => {
                    &&& k.wf()
                    &&& k.no_abort()
                    &&& k.kernels@.len() == usable_devices(devices@, *sizes).len()
                    &&& forall|j: int| 0 <= j < k.kernels@.len()
                        ==> kernel_matches(#[trigger] k.kernels@[j], usable_devices(devices@, *sizes)[j], *sizes)
                },
                Err(e) => e == EcError::NoDevices,
            },
            (exists|i: int| 0 <= i < devices@.len() && device_usable(#[trigger] devices@[i], *sizes))
                <==> r is Ok,
    {
        Self::create_optional_abort(devices, sizes, None)
    }

    /// Create new kernels, one for each given device, with an early abort
    /// hook that every kernel samples at its safe points.
    pub fn create_with_abort(devices: &Vec<DeviceProfile>, sizes: &CurveSizes, maybe_abort: AbortFlag)
        -> (r: Result<MultiexpKernel, EcError>)
        requires
            forall|i: int| 0 <= i < devices@.len() ==> (#[trigger] devices@[i]).wf(),
            sizes.wf(),
        ensures
            match r {
                Ok(k) => {
                    &&& k.wf()
                    &&& k.kernels@.len() == usable_devices(devices@, *sizes).len()
                    &&& forall|j: int| 0 <= j < k.kernels@.len()
                        ==> kernel_matches(#[trigger] k.kernels@[j], usable_devices(devices@, *sizes)[j], *sizes)
                    &&& forall|j: int| 0 <= j < k.kernels@.len()
                        ==> (#[trigger] k.kernels@[j]).has_abort()
                },
                Err(e) => e == EcError::NoDevices,
            },
            (exists|i: int| 0 <= i < devices@.len() && device_usable(#[trigger] devices@[i], *sizes))
                <==> r is Ok,
    {
        Self::create_optional_abort(devices, sizes, Some(maybe_abort))
    }

    fn create_optional_abort(
        devices: &Vec<DeviceProfile>,
        sizes: &CurveSizes,
        maybe_abort: Option<AbortFlag>,
    ) -> (r: Result<MultiexpKernel, EcError>)
        requires
            forall|i: int| 0 <= i < devices@.len() ==> (#[trigger] devices@[i]).wf(),
            sizes.wf(),
        ensures
            match r {
                Ok(k) => {
                    &&& k.wf()
                    &&& k.kernels@.len() == usable_devices(devices@, *sizes).len()
                    &&& forall|j: int| 0 <= j < k.kernels@.len()
                        ==> kernel_matches(#[trigger] k.kernels@[j], usable_devices(devices@, *sizes)[j], *sizes)
                    &&& forall|j: int| 0 <= j < k.kernels@.len()
                        ==> ((#[trigger] k.kernels@[j]).has_abort() <==> maybe_abort is Some)
                },
                Err(e) => e == EcError::NoDevices,
            },
            (exists|i: int| 0 <= i < devices@.len() && device_usable(#[trigger] devices@[i], *sizes))
                <==> r is Ok,
    {
        let mut kernels: Vec<SingleMultiexpKernel> = Vec::new();
        let mut i: usize = 0;
        while i < devices.len()
            invariant
                i <= devices@.len(),
                sizes.wf(),
                forall|ii: int| 0 <= ii < devices@.len() ==> (#[trigger] devices@[ii]).wf(),
                forall|k: int| 0 <= k < kernels@.len() ==> (#[trigger] kernels@[k]).wf(),
                forall|k: int| 0 <= k < kernels@.len()
                    ==> ((#[trigger] kernels@[k]).has_abort() <==> maybe_abort is Some),
                kernels@.len() == usable_prefix(devices@, *sizes, i as int).len(),
                forall|j: int| 0 <= j < kernels@.len()
                    ==> kernel_matches(#[trigger] kernels@[j], usable_prefix(devices@, *sizes, i as int)[j], *sizes),
                (exists|ii: int| 0 <= ii < i && device_usable(#[trigger] devices@[ii], *sizes))
                    <==> kernels@.len() >= 1,
            decreases devices@.len() - i,
        {
            let hook: Option<AbortFlag> = match &maybe_abort {
                Some(f) => Some(f.duplicate()),
                None => None,
            };
            let ghost prefix = usable_prefix(devices@, *sizes, i as int);
            let ghost kernels_before = kernels@;
            match SingleMultiexpKernel::create(&devices[i], sizes, hook) {
                Ok(k) => {
                    proof {
                        assert(device_usable(devices@[i as int], *sizes));
                        assert(kernel_matches(k, devices@[i as int], *sizes));
                        assert(usable_prefix(devices@, *sizes, i + 1) =~= prefix.push(devices@[i as int]));
                    }
                    kernels.push(k);
                    proof {
                        assert forall|j: int| 0 <= j < kernels@.len()
                            implies kernel_matches(#[trigger] kernels@[j],
                                usable_prefix(devices@, *sizes, i + 1)[j], *sizes) by {
                            if j < kernels_before.len() {
                                assert(kernels@[j] == kernels_before[j]);
                                assert(usable_prefix(devices@, *sizes, i + 1)[j] == prefix[j]);
                            }
                        }
                    }
                },
                Err(_) => {
                    proof {
                        assert(!device_usable(devices@[i as int], *sizes));
                        assert(usable_prefix(devices@, *sizes, i + 1) =~= prefix);
                    }
                },
            }
            i = i + 1;
        }
        if kernels.len() == 0 {
            return Err(EcError::NoDevices);
        }
        Ok(MultiexpKernel { kernels })
    }

    /// Returns the number of kernels (one per device).
    pub fn num_kernels(&self) -> (r: usize)
        ensures
            r == self.kernels@.len(),
    {
        self.kernels.len()
    }

    /// Runs every device's shard and returns the per-device accumulators in
    /// device order: device `d` computes exactly the MSM of its contiguous
    /// shard of `ceil(n / num_devices)` terms, sub-chunked to its capacity.
    /// The first error (an abort) stops the dispatch and is returned.
    pub fn parallel_multiexp(&self, bases: &[blstrs::G1Affine], exps: &[ScalarBytes])
        -> (r: Result<Vec<blstrs::G1Projective>, EcError>)
        requires
            self.wf(),
            bases@.len() == exps@.len(),
            bases@.len() * 128 <= usize::MAX - 0x1000_0000,
            bases@.len() + self.kernels@.len() <= usize::MAX,
            forall|t: int| 0 <= t < exps@.len() ==> (#[trigger] exps@[t]).wf(),
        ensures
            match r {
                Ok(v) => {
                    &&& v@.len() == self.kernels@.len()
                    &&& forall|d: int| 0 <= d < v@.len()
                        ==> g1p_val(#[trigger] v@[d]) as int == msm_value(
                            g1_base_vals(bases@).subrange(
                                group_lo(div_ceil_spec(bases@.len() as int, self.kernels@.len() as int), bases@.len() as int, d),
                                group_lo(div_ceil_spec(bases@.len() as int, self.kernels@.len() as int), bases@.len() as int, d + 1)),
                            exp_vals(exps@).subrange(
                                group_lo(div_ceil_spec(bases@.len() as int, self.kernels@.len() as int), bases@.len() as int, d),
                                group_lo(div_ceil_spec(bases@.len() as int, self.kernels@.len() as int), bases@.len() as int, d + 1)))
                },
                Err(e) => e == EcError::Aborted && !self.no_abort(),
            },
            self.no_abort() ==> r is Ok,
    {
        let m: usize = bases.len();
        let nk: usize = self.kernels.len();
        let chunk_size: usize = div_ceil(m, nk);
        let ghost csz = chunk_size as int;
        let ghost pv = g1_base_vals(bases@);
        let ghost ev = exp_vals(exps@);
        proof {
            lemma_div_ceil_bounds(m as int, nk as int);
            assert(csz <= m) by (nonlinear_arith)
                requires csz * nk < m + nk && nk >= 1 && csz >= 0;
        }
        let mut results: Vec<blstrs::G1Projective> = Vec::new();
        let mut d: usize = 0;
        while d < nk
            invariant
                self.wf(),
                m == bases@.len(),
                m == exps@.len(),
                nk == self.kernels@.len(),
                m * 128 <= usize::MAX - 0x1000_0000,
                m + nk <= usize::MAX,
                csz == chunk_size,
                csz == div_ceil_spec(m as int, nk as int),
                csz * nk >= m,
                csz * nk < m + nk,
                csz <= m,
                pv == g1_base_vals(bases@),
                ev == exp_vals(exps@),
                d <= nk,
                results@.len() == d,
                forall|t: int| 0 <= t < exps@.len() ==> (#[trigger] exps@[t]).wf(),
                forall|dd: int| 0 <= dd < d
                    ==> g1p_val(#[trigger] results@[dd]) as int == msm_value(
                        pv.subrange(group_lo(csz, m as int, dd), group_lo(csz, m as int, dd + 1)),
                        ev.subrange(group_lo(csz, m as int, dd), group_lo(csz, m as int, dd + 1))),
            decreases nk - d,
        {
            proof {
                assert(d * csz >= 0 && d * csz <= nk * csz && (d + 1) * csz <= nk * csz)
                    by (nonlinear_arith)
                    requires d >= 0 && d + 1 <= nk && csz >= 0;
                assert(nk * csz == csz * nk) by (nonlinear_arith);
                assert((d + 1) * csz == d * csz + csz) by (nonlinear_arith);
            }
            let start: usize = d * chunk_size;
            let lo: usize = if start < m { start } else { m };
            let next: usize = start + chunk_size;
            let hi: usize = if next < m { next } else { m };
            proof {
                assert(lo == group_lo(csz, m as int, d as int));
                assert(hi == group_lo(csz, m as int, d + 1));
                assert(lo <= hi <= m);
            }
            let kern = &self.kernels[d];
            let mut acc = g1_identity();
            let mut pos: usize = lo;
            proof {
                assert(pv.subrange(lo as int, lo as int) =~= Seq::<nat>::empty());
                assert(ev.subrange(lo as int, lo as int) =~= Seq::<nat>::empty());
                crate::model::lemma_r_mod_pos();
                assert(msm_value(Seq::<nat>::empty(), Seq::<nat>::empty()) == 0) by {
                    assert(crate::model::dot(Seq::<nat>::empty(), Seq::<nat>::empty()) == 0);
                    assert(0int % (r_mod() as int) == 0) by (nonlinear_arith)
                        requires r_mod() as int > 1;
                }
            }
            while pos < hi
                invariant
                    self.wf(),
                    m == bases@.len(),
                    m == exps@.len(),
                    nk == self.kernels@.len(),
                    m * 128 <= usize::MAX - 0x1000_0000,
                    d < nk,
                    kern == self.kernels@[d as int],
                    kern.wf(),
                    lo <= pos <= hi <= m,
                    pv == g1_base_vals(bases@),
                    ev == exp_vals(exps@),
                    forall|t: int| 0 <= t < exps@.len() ==> (#[trigger] exps@[t]).wf(),
                    g1p_val(acc) as int == msm_value(
                        pv.subrange(lo as int, pos as int), ev.subrange(lo as int, pos as int)),
                decreases hi - pos,
            {
                let remaining: usize = hi - pos;
                let step: usize = kern.chunk_size();
                let end: usize = if remaining > step { pos + step } else { hi };
                let bs = vstd::slice::slice_subrange(bases, pos, end);
                let es = vstd::slice::slice_subrange(exps, pos, end);
                proof {
                    assert(g1_base_vals(bs@) =~= pv.subrange(pos as int, end as int));
                    assert(exp_vals(es@) =~= ev.subrange(pos as int, end as int));
                    assert(bs@.len() * 128 <= m * 128) by (nonlinear_arith)
                        requires bs@.len() <= m;
                }
                match kern.multiexp(bs, es) {
                    Ok(p) => {
                        let a2 = g1_add(&acc, &p);
                        proof {
                            lemma_msm_sharding(
                                pv.subrange(lo as int, pos as int),
                                ev.subrange(lo as int, pos as int),
                                pv.subrange(pos as int, end as int),
                                ev.subrange(pos as int, end as int),
                            );
                            assert(pv.subrange(lo as int, pos as int) + pv.subrange(pos as int, end as int)
                                =~= pv.subrange(lo as int, end as int));
                            assert(ev.subrange(lo as int, pos as int) + ev.subrange(pos as int, end as int)
                                =~= ev.subrange(lo as int, end as int));
                        }
                        acc = a2;
                        pos = end;
                    },
                    Err(e) => {
                        proof {
                            assert(self.kernels@[d as int].has_abort());
                        }
                        return Err(e);
                    },
                }
            }
            let ghost results_before = results@;
            results.push(acc);
            proof {
                assert forall|dd: int| 0 <= dd < d + 1
                    implies g1p_val(#[trigger] results@[dd]) as int == msm_value(
                        pv.subrange(group_lo(csz, m as int, dd), group_lo(csz, m as int, dd + 1)),
                        ev.subrange(group_lo(csz, m as int, dd), group_lo(csz, m as int, dd + 1))) by {
                    if dd < d {
                        assert(results@[dd] == results_before[dd]);
                    }
                }
            }
            d = d + 1;
        }
        Ok(results)
    }

    /// Calculate multiexp: the MSM of `bases[skip .. skip + exps.len()]`
    /// against `exps`, sharded over all kernels and summed in device order.
    ///
    /// This is the main entry point. The result does not depend on the
    /// number of devices or on their chunk capacities.
    pub fn multiexp(&self, bases: &Vec<blstrs::G1Affine>, exps: &Vec<ScalarBytes>, skip: usize)
        -> (r: Result<blstrs::G1Projective, EcError>)
        requires
            self.wf(),
            skip + exps@.len() <= bases@.len(),
            exps@.len() * 128 <= usize::MAX - 0x1000_0000,
            exps@.len() + self.kernels@.len() <= usize::MAX,
            forall|t: int| 0 <= t < exps@.len() ==> (#[trigger] exps@[t]).wf(),
        ensures
            match r {
                Ok(p) => g1p_val(p) as int == msm_value(
                    g1_base_vals(bases@.subrange(skip as int, skip + exps@.len())),
                    exp_vals(exps@)),
                Err(e) => e == EcError::Aborted && !self.no_abort(),
            },
            self.no_abort() ==> r is Ok,
    {
        let total: usize = bases.len();
        let count: usize = exps.len();
        proof {
            assert(skip + count <= total);
        }
        let eff = vstd::slice::slice_subrange(bases.as_slice(), skip, skip + count);
        let ghost pv = g1_base_vals(eff@);
        let ghost ev = exp_vals(exps@);
        let accs = match self.parallel_multiexp(eff, exps.as_slice()) {
            Ok(v) => v,
            Err(e) => {
                return Err(e);
            },
        };
        let m: usize = exps.len();
        let nk: usize = self.kernels.len();
        let ghost csz = div_ceil_spec(m as int, nk as int);
        proof {
            lemma_div_ceil_bounds(m as int, nk as int);
            assert(pv.subrange(0, 0) =~= Seq::<nat>::empty());
            assert(ev.subrange(0, 0) =~= Seq::<nat>::empty());
            crate::model::lemma_r_mod_pos();
            assert(msm_value(Seq::<nat>::empty(), Seq::<nat>::empty()) == 0) by {
                assert(crate::model::dot(Seq::<nat>::empty(), Seq::<nat>::empty()) == 0);
                assert(0int % (r_mod() as int) == 0) by (nonlinear_arith)
                    requires r_mod() as int > 1;
            }
            assert(group_lo(csz, m as int, 0) == 0) by {
                vstd::arithmetic::mul::lemma_mul_basics(csz);
            }
        }
        let mut acc = g1_identity();
        let mut d: usize = 0;
        while d < nk
            invariant
                nk == self.kernels@.len(),
                nk >= 1,
                m == exps@.len(),
                accs@.len() == nk,
                d <= nk,
                csz == div_ceil_spec(m as int, nk as int),
                csz * nk >= m,
                csz >= 0,
                pv == g1_base_vals(eff@),
                ev == exp_vals(exps@),
                pv.len() == m,
                ev.len() == m,
                forall|dd: int| 0 <= dd < nk
                    ==> g1p_val(#[trigger] accs@[dd]) as int == msm_value(
                        pv.subrange(group_lo(csz, m as int, dd), group_lo(csz, m as int, dd + 1)),
                        ev.subrange(group_lo(csz, m as int, dd), group_lo(csz, m as int, dd + 1))),
                g1p_val(acc) as int == msm_value(
                    pv.subrange(0, group_lo(csz, m as int, d as int)),
                    ev.subrange(0, group_lo(csz, m as int, d as int))),
            decreases nk - d,
        {
            let ghost lo = group_lo(csz, m as int, d as int);
            let ghost hi = group_lo(csz, m as int, d + 1);
            proof {
                assert(d * csz >= 0 && (d + 1) * csz >= d * csz) by (nonlinear_arith)
                    requires d >= 0 && csz >= 0;
                assert(0 <= lo <= hi <= m);
            }
            let a2 = g1_add(&acc, &accs[d]);
            proof {
                lemma_msm_sharding(
                    pv.subrange(0, lo),
                    ev.subrange(0, lo),
                    pv.subrange(lo, hi),
                    ev.subrange(lo, hi),
                );
                assert(pv.subrange(0, lo) + pv.subrange(lo, hi) =~= pv.subrange(0, hi));
                assert(ev.subrange(0, lo) + ev.subrange(lo, hi) =~= ev.subrange(0, hi));
            }
            acc = a2;
            d = d + 1;
        }
        proof {
            assert(group_lo(csz, m as int, nk as int) == m) by {
                assert(nk * csz == csz * nk) by (nonlinear_arith);
            }
            assert(pv.subrange(0, m as int) =~= pv);
            assert(ev.subrange(0, m as int) =~= ev);
            assert(eff@ == bases@.subrange(skip as int, skip + exps@.len()));
        }
        Ok(acc)
    }
    /// Runs every device's G2 shard and returns the per-device accumulators in
    /// device order: device `d` computes exactly the MSM of its contiguous
    /// shard of `ceil(n / num_devices)` terms, sub-chunked to its capacity.
    /// The first error (an abort) stops the dispatch and is returned.
    pub fn parallel_multiexp_g2(&self, bases: &[blstrs::G2Affine], exps: &[ScalarBytes])
        -> (r: Result<Vec<blstrs::G2Projective>, EcError>)
        requires
            self.wf(),
            bases@.len() == exps@.len(),
            bases@.len() * 128 <= usize::MAX - 0x1000_0000,
            bases@.len() + self.kernels@.len() <= usize::MAX,
            forall|t: int| 0 <= t < exps@.len() ==> (#[trigger] exps@[t]).wf(),
        ensures
            match r {
                Ok(v) => {
                    &&& v@.len() == self.kernels@.len()
                    &&& forall|d: int| 0 <= d < v@.len()
                        ==> g2p_val(#[trigger] v@[d]) as int == msm_value(
                            g2_base_vals(bases@).subrange(
                                group_lo(div_ceil_spec(bases@.len() as int, self.kernels@.len() as int), bases@.len() as int, d),
                                group_lo(div_ceil_spec(bases@.len() as int, self.kernels@.len() as int), bases@.len() as int, d + 1)),
                            exp_vals(exps@).subrange(
                                group_lo(div_ceil_spec(bases@.len() as int, self.kernels@.len() as int), bases@.len() as int, d),
                                group_lo(div_ceil_spec(bases@.len() as int, self.kernels@.len() as int), bases@.len() as int, d + 1)))
                },
                Err(e) => e == EcError::Aborted && !self.no_abort(),
            },
            self.no_abort() ==> r is Ok,
    {
        let m: usize = bases.len();
        let nk: usize = self.kernels.len();
        let chunk_size: usize = div_ceil(m, nk);
        let ghost csz = chunk_size as int;
        let ghost pv = g2_base_vals(bases@);
        let ghost ev = exp_vals(exps@);
        proof {
            lemma_div_ceil_bounds(m as int, nk as int);
            assert(csz <= m) by (nonlinear_arith)
                requires csz * nk < m + nk && nk >= 1 && csz >= 0;
        }
        let mut results: Vec<blstrs::G2Projective> = Vec::new();
        let mut d: usize = 0;
        while d < nk
            invariant
                self.wf(),
                m == bases@.len(),
                m == exps@.len(),
                nk == self.kernels@.len(),
                m * 128 <= usize::MAX - 0x1000_0000,
                m + nk <= usize::MAX,
                csz == chunk_size,
                csz == div_ceil_spec(m as int, nk as int),
                csz * nk >= m,
                csz * nk < m + nk,
                csz <= m,
                pv == g2_base_vals(bases@),
                ev == exp_vals(exps@),
                d <= nk,
                results@.len() == d,
                forall|t: int| 0 <= t < exps@.len() ==> (#[trigger] exps@[t]).wf(),
                forall|dd: int| 0 <= dd < d
                    ==> g2p_val(#[trigger] results@[dd]) as int == msm_value(
                        pv.subrange(group_lo(csz, m as int, dd), group_lo(csz, m as int, dd + 1)),
                        ev.subrange(group_lo(csz, m as int, dd), group_lo(csz, m as int, dd + 1))),
            decreases nk - d,
        {
            proof {
                assert(d * csz >= 0 && d * csz <= nk * csz && (d + 1) * csz <= nk * csz)
                    by (nonlinear_arith)
                    requires d >= 0 && d + 1 <= nk && csz >= 0;
                assert(nk * csz == csz * nk) by (nonlinear_arith);
                assert((d + 1) * csz == d * csz + csz) by (nonlinear_arith);
            }
            let start: usize = d * chunk_size;
            let lo: usize = if start < m { start } else { m };
            let next: usize = start + chunk_size;
            let hi: usize = if next < m { next } else { m };
            proof {
                assert(lo == group_lo(csz, m as int, d as int));
                assert(hi == group_lo(csz, m as int, d + 1));
                assert(lo <= hi <= m);
            }
            let kern = &self.kernels[d];
            let mut acc = g2_identity();
            let mut pos: usize = lo;
            proof {
                assert(pv.subrange(lo as int, lo as int) =~= Seq::<nat>::empty());
                assert(ev.subrange(lo as int, lo as int) =~= Seq::<nat>::empty());
                crate::model::lemma_r_mod_pos();
                assert(msm_value(Seq::<nat>::empty(), Seq::<nat>::empty()) == 0) by {
                    assert(crate::model::dot(Seq::<nat>::empty(), Seq::<nat>::empty()) == 0);
                    assert(0int % (r_mod() as int) == 0) by (nonlinear_arith)
                        requires r_mod() as int > 1;
                }
            }
            while pos < hi
                invariant
                    self.wf(),
                    m == bases@.len(),
                    m == exps@.len(),
                    nk == self.kernels@.len(),
                    m * 128 <= usize::MAX - 0x1000_0000,
                    d < nk,
                    kern == self.kernels@[d as int],
                    kern.wf(),
                    lo <= pos <= hi <= m,
                    pv == g2_base_vals(bases@),
                    ev == exp_vals(exps@),
                    forall|t: int| 0 <= t < exps@.len() ==> (#[trigger] exps@[t]).wf(),
                    g2p_val(acc) as int == msm_value(
                        pv.subrange(lo as int, pos as int), ev.subrange(lo as int, pos as int)),
                decreases hi - pos,
            {
                let remaining: usize = hi - pos;
                let step: usize = kern.chunk_size();
                let end: usize = if remaining > step { pos + step } else { hi };
                let bs = vstd::slice::slice_subrange(bases, pos, end);
                let es = vstd::slice::slice_subrange(exps, pos, end);
                proof {
                    assert(g2_base_vals(bs@) =~= pv.subrange(pos as int, end as int));
                    assert(exp_vals(es@) =~= ev.subrange(pos as int, end as int));
                    assert(bs@.len() * 128 <= m * 128) by (nonlinear_arith)
                        requires bs@.len() <= m;
                }
                match kern.multiexp_g2(bs, es) {
                    Ok(p) => {
                        let a2 = g2_add(&acc, &p);
                        proof {
                            lemma_msm_sharding(
                                pv.subrange(lo as int, pos as int),
                                ev.subrange(lo as int, pos as int),
                                pv.subrange(pos as int, end as int),
                                ev.subrange(pos as int, end as int),
                            );
                            assert(pv.subrange(lo as int, pos as int) + pv.subrange(pos as int, end as int)
                                =~= pv.subrange(lo as int, end as int));
                            assert(ev.subrange(lo as int, pos as int) + ev.subrange(pos as int, end as int)
                                =~= ev.subrange(lo as int, end as int));
                        }
                        acc = a2;
                        pos = end;
                    },
                    Err(e) => {
                        proof {
                            assert(self.kernels@[d as int].has_abort());
                        }
                        return Err(e);
                    },
                }
            }
            let ghost results_before = results@;
            results.push(acc);
            proof {
                assert forall|dd: int| 0 <= dd < d + 1
                    implies g2p_val(#[trigger] results@[dd]) as int == msm_value(
                        pv.subrange(group_lo(csz, m as int, dd), group_lo(csz, m as int, dd + 1)),
                        ev.subrange(group_lo(csz, m as int, dd), group_lo(csz, m as int, dd + 1))) by {
                    if dd < d {
                        assert(results@[dd] == results_before[dd]);
                    }
                }
            }
            d = d + 1;
        }
        Ok(results)
    }

    /// Calculate multiexp in G2: the MSM of `bases[skip .. skip + exps.len()]`
    /// against `exps`, sharded over all kernels and summed in device order.
    ///
    /// This is the main entry point. The result does not depend on the
    /// number of devices or on their chunk capacities.
    pub fn multiexp_g2(&self, bases: &Vec<blstrs::G2Affine>, exps: &Vec<ScalarBytes>, skip: usize)
        -> (r: Result<blstrs::G2Projective, EcError>)
        requires
            self.wf(),
            skip + exps@.len() <= bases@.len(),
            exps@.len() * 128 <= usize::MAX - 0x1000_0000,
            exps@.len() + self.kernels@.len() <= usize::MAX,
            forall|t: int| 0 <= t < exps@.len() ==> (#[trigger] exps@[t]).wf(),
        ensures
            match r {
                Ok(p) => g2p_val(p) as int == msm_value(
                    g2_base_vals(bases@.subrange(skip as int, skip + exps@.len())),
                    exp_vals(exps@)),
                Err(e) => e == EcError::Aborted && !self.no_abort(),
            },
            self.no_abort() ==> r is Ok,
    {
        let total: usize = bases.len();
        let count: usize = exps.len();
        proof {
            assert(skip + count <= total);
        }
        let eff = vstd::slice::slice_subrange(bases.as_slice(), skip, skip + count);
        let ghost pv = g2_base_vals(eff@);
        let ghost ev = exp_vals(exps@);
        let accs = match self.parallel_multiexp_g2(eff, exps.as_slice()) {
            Ok(v) => v,
            Err(e) => {
                return Err(e);
            },
        };
        let m: usize = exps.len();
        let nk: usize = self.kernels.len();
        let ghost csz = div_ceil_spec(m as int, nk as int);
        proof {
            lemma_div_ceil_bounds(m as int, nk as int);
            assert(pv.subrange(0, 0) =~= Seq::<nat>::empty());
            assert(ev.subrange(0, 0) =~= Seq::<nat>::empty());
            crate::model::lemma_r_mod_pos();
            assert(msm_value(Seq::<nat>::empty(), Seq::<nat>::empty()) == 0) by {
                assert(crate::model::dot(Seq::<nat>::empty(), Seq::<nat>::empty()) == 0);
                assert(0int % (r_mod() as int) == 0) by (nonlinear_arith)
                    requires r_mod() as int > 1;
            }
            assert(group_lo(csz, m as int, 0) == 0) by {
                vstd::arithmetic::mul::lemma_mul_basics(csz);
            }
        }
        let mut acc = g2_identity();
        let mut d: usize = 0;
        while d < nk
            invariant
                nk == self.kernels@.len(),
                nk >= 1,
                m == exps@.len(),
                accs@.len() == nk,
                d <= nk,
                csz == div_ceil_spec(m as int, nk as int),
                csz * nk >= m,
                csz >= 0,
                pv == g2_base_vals(eff@),
                ev == exp_vals(exps@),
                pv.len() == m,
                ev.len() == m,
                forall|dd: int| 0 <= dd < nk
                    ==> g2p_val(#[trigger] accs@[dd]) as int == msm_value(
                        pv.subrange(group_lo(csz, m as int, dd), group_lo(csz, m as int, dd + 1)),
                        ev.subrange(group_lo(csz, m as int, dd), group_lo(csz, m as int, dd + 1))),
                g2p_val(acc) as int == msm_value(
                    pv.subrange(0, group_lo(csz, m as int, d as int)),
                    ev.subrange(0, group_lo(csz, m as int, d as int))),
            decreases nk - d,
        {
            let ghost lo = group_lo(csz, m as int, d as int);
            let ghost hi = group_lo(csz, m as int, d + 1);
            proof {
                assert(d * csz >= 0 && (d + 1) * csz >= d * csz) by (nonlinear_arith)
                    requires d >= 0 && csz >= 0;
                assert(0 <= lo <= hi <= m);
            }
            let a2 = g2_add(&acc, &accs[d]);
            proof {
                lemma_msm_sharding(
                    pv.subrange(0, lo),
                    ev.subrange(0, lo),
                    pv.subrange(lo, hi),
                    ev.subrange(lo, hi),
                );
                assert(pv.subrange(0, lo) + pv.subrange(lo, hi) =~= pv.subrange(0, hi));
                assert(ev.subrange(0, lo) + ev.subrange(lo, hi) =~= ev.subrange(0, hi));
            }
            acc = a2;
            d = d + 1;
        }
        proof {
            assert(group_lo(csz, m as int, nk as int) == m) by {
                assert(nk * csz == csz * nk) by (nonlinear_arith);
            }
            assert(pv.subrange(0, m as int) =~= pv);
            assert(ev.subrange(0, m as int) =~= ev);
            assert(eff@ == bases@.subrange(skip as int, skip + exps@.len()));
        }
        Ok(acc)
    }
}

} // verus!
