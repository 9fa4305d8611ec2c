//! Device sizing: from the properties of one GPU derive the number of work
//! units and the largest chunk of terms whose buffers fit in device memory.

use vstd::prelude::*;
use vstd::arithmetic::div_mod::lemma_fundamental_div_mod;
use crate::{AMPERE, LOCAL_WORK_SIZE};

verus! {

/// The properties of one device that the sizer reads: total memory in bytes,
/// number of compute units, and the optional compute capability
/// `(major, minor)`.
pub struct DeviceProfile {
    pub memory: u64,
    pub compute_units: u32,
    pub compute_capability: Option<(u32, u32)>,
}

impl DeviceProfile {
    /// A usable device reports at least one compute unit; the bound above is
    /// a machine limit so that work-unit arithmetic stays in range.
    pub open spec fn wf(&self) -> bool {
        1 <= self.compute_units <= 0x0010_0000
    }
}

/// `ceil(a / b)` on naturals.
pub open spec fn div_ceil_spec(a: int, b: int) -> int {
    if a % b == 0 {
        a / b
    } else {
        a / b + 1
    }
}

/// The two bounds that characterise the ceiling of a quotient:
/// `b * ceil(a/b)` reaches `a`, and exceeds it by less than `b`.
pub proof fn lemma_div_ceil_bounds(a: int, b: int)
    requires
        a >= 0,
        b > 0,
    ensures
        div_ceil_spec(a, b) * b >= a,
        div_ceil_spec(a, b) * b < a + b,
        div_ceil_spec(a, b) >= 0,
        a > 0 ==> div_ceil_spec(a, b) >= 1,
{
    lemma_fundamental_div_mod(a, b);
    assert(a == b * (a / b) + a % b);
    assert(div_ceil_spec(a, b) * b == b * div_ceil_spec(a, b)) by (nonlinear_arith);
    assert((a / b + 1) * b == b * (a / b) + b) by (nonlinear_arith);
}

/// Divide and round up.
pub fn div_ceil(a: usize, b: usize) -> (r: usize)
    requires
        b > 0,
    ensures
        r == div_ceil_spec(a as int, b as int),
{
    if a % b == 0 {
        a / b
    } else {
        proof {
            if b == 1 {
                assert(a as int % 1int == 0) by (nonlinear_arith);
            }
            if a == 0 {
                assert(0int % (b as int) == 0) by (nonlinear_arith)
                    requires b >= 1;
            }
            assert((a as int) / (b as int) < a) by (nonlinear_arith)
                requires a >= 1 && b >= 2;
        }
        a / b + 1
    }
}

/// The number of work units for a device: `LOCAL_WORK_SIZE` per compute unit,
/// doubled on the Ampere architecture.
pub open spec fn work_units_spec(compute_units: u32, compute_capability: Option<(u32, u32)>) -> int {
    match compute_capability {
        Some((major, _)) => if major == AMPERE {
            2 * LOCAL_WORK_SIZE * compute_units
        } else {
            LOCAL_WORK_SIZE * compute_units
        },
        None => LOCAL_WORK_SIZE * compute_units,
    }
}

/// The number of units the work is split into; one unit becomes one GPU thread.
///
/// On devices of the Ampere architecture twice the number of work units is
/// used, which was measured to be faster there.
pub fn work_units(compute_units: u32, compute_capabilities: Option<(u32, u32)>) -> (r: usize)
    requires
        compute_units <= 0x0010_0000,
    ensures
        r == work_units_spec(compute_units, compute_capabilities),
        r as int <= 0x1000_0000,
{
    proof {
        assert(2 * (LOCAL_WORK_SIZE as int) * (compute_units as int) <= 0x1000_0000) by (nonlinear_arith)
            requires compute_units as int <= 0x0010_0000 && LOCAL_WORK_SIZE == 128;
    }
    match compute_capabilities {
        Some((major, _minor)) => {
            if major == AMPERE {
                2 * LOCAL_WORK_SIZE * (compute_units as usize)
            } else {
                LOCAL_WORK_SIZE * (compute_units as usize)
            }
        },
        None => LOCAL_WORK_SIZE * (compute_units as usize),
    }
}

/// Memory budget: all of device memory except a 20 percent safety margin,
/// `floor(4 * mem / 5)`.
pub open spec fn memory_budget_spec(mem: int) -> int {
    4 * mem / 5
}

/// Computes `floor(4 * mem / 5)` without intermediate overflow.
pub fn memory_budget(mem: u64) -> (r: u64)
    ensures
        r == memory_budget_spec(mem as int),
        r <= mem,
{
    let q: u64 = mem / 5;
    let rem: u64 = mem % 5;
    proof {
        lemma_fundamental_div_mod(mem as int, 5);
        assert(4 * (mem as int) == 5 * (4 * (q as int)) + 4 * (rem as int)) by (nonlinear_arith)
            requires (mem as int) == 5 * (q as int) + (rem as int);
        assert((5 * (4 * (q as int)) + 4 * (rem as int)) / 5 == 4 * (q as int) + 4 * (rem as int) / 5)
            by (nonlinear_arith)
            requires 0 <= 4 * (rem as int) < 20;
        assert(4 * (q as int) + 4 * (rem as int) / 5 <= mem) by (nonlinear_arith)
            requires (mem as int) == 5 * (q as int) + (rem as int) && 0 <= (rem as int) < 5 && (q as int) >= 0;
    }
    q * 4 + (rem * 4) / 5
}

/// The buffer sizes, in bytes, of one curve: the affine point, the projective
/// point, and the canonical scalar representation.
pub struct CurveSizes {
    pub affine_bytes: usize,
    pub projective_bytes: usize,
    pub exp_bytes: usize,
}

impl CurveSizes {
    pub open spec fn wf(&self) -> bool {
        &&& 1 <= self.affine_bytes <= 1024
        &&& 1 <= self.projective_bytes <= 1024
        &&& 1 <= self.exp_bytes <= 1024
    }
}

/// The chunk size derived from a memory budget: what is left after the bucket
/// and result buffers, divided by the footprint of one term. The bucket
/// buffer is sized for the worst case of `2^MAX_WINDOW_SIZE = 1024` buckets
/// per work unit.
pub open spec fn chunk_size_spec(mem: int, work_units: int, sizes: CurveSizes) -> int {
    (memory_budget_spec(mem) - work_units * 1024 * sizes.projective_bytes - work_units * sizes.projective_bytes)
        / (sizes.affine_bytes + sizes.exp_bytes)
}

/// Calculates the maximum number of terms that can be put onto the GPU memory.
///
/// Returns `None` when the budget does not cover the bucket and result
/// buffers plus at least one term, or when the chunk size does not fit in
/// `usize`.
pub fn calc_chunk_size(mem: u64, work_units: usize, sizes: &CurveSizes) -> (r: Option<usize>)
    requires
        work_units as int <= 0x1000_0000,
        sizes.wf(),
    ensures
        match r {
            Some(n) => n == chunk_size_spec(mem as int, work_units as int, *sizes) && n >= 1,
            None => chunk_size_spec(mem as int, work_units as int, *sizes) < 1
                || chunk_size_spec(mem as int, work_units as int, *sizes) > usize::MAX,
        },
{
    let max_memory: u64 = memory_budget(mem);
    // The number of buckets needed for one work unit, in the worst case
    // `2^MAX_WINDOW_SIZE`.
    let max_buckets_per_work_unit: u64 = 1024;
    proof {
        assert((work_units as int) * 1024 * (sizes.projective_bytes as int) <= 0x1000_0000 * 1024 * 1024)
            by (nonlinear_arith)
            requires 0 <= (work_units as int) <= 0x1000_0000 && 0 <= sizes.projective_bytes <= 1024;
        assert((work_units as int) * (sizes.projective_bytes as int) <= 0x1000_0000 * 1024)
            by (nonlinear_arith)
            requires 0 <= (work_units as int) <= 0x1000_0000 && 0 <= sizes.projective_bytes <= 1024;
    }
    let buckets_size: u64 = (work_units as u64) * max_buckets_per_work_unit * (sizes.projective_bytes as u64);
    let results_size: u64 = (work_units as u64) * (sizes.projective_bytes as u64);
    let term_size: u64 = (sizes.affine_bytes as u64) + (sizes.exp_bytes as u64);
    if max_memory <= buckets_size + results_size {
        proof {
            assert(chunk_size_spec(mem as int, work_units as int, *sizes) < 1) by (nonlinear_arith)
                requires
                    memory_budget_spec(mem as int) <= work_units as int * 1024 * sizes.projective_bytes
                        + work_units as int * sizes.projective_bytes,
                    memory_budget_spec(mem as int) >= 0,
                    chunk_size_spec(mem as int, work_units as int, *sizes)
                        == (memory_budget_spec(mem as int)
                            - work_units as int * 1024 * sizes.projective_bytes
                            - work_units as int * sizes.projective_bytes)
                            / (sizes.affine_bytes + sizes.exp_bytes),
                    sizes.affine_bytes + sizes.exp_bytes >= 2;
        }
        return None;
    }
    let n: u64 = (max_memory - buckets_size - results_size) / term_size;
    if n == 0 {
        return None;
    }
    if n > usize::MAX as u64 {
        return None;
    }
    Some(n as usize)
}

} // verus!
