//! Multi-scalar multiplication (MSM) engine for BLS12-381, organised the way a
//! GPU Pippenger pipeline is: a device sizer derives per-device work-unit and
//! chunk budgets, scalars are split into signed digit windows, per-window
//! bucket sums produce an array of partial points, a host reducer folds the
//! partials into the final point, and a dispatcher shards oversized inputs
//! across several per-device kernels with cooperative cancellation.

use vstd::prelude::*;

pub mod curve;
pub mod dispatch;
pub mod kernel;
pub mod model;
pub mod pippenger;
pub mod scalars;
pub mod sizing;

verus! {

/// Maximum number of bits in one scalar window.
pub const MAX_WINDOW_SIZE: usize = 10;

/// Number of threads in one GPU thread group (CUDA block size).
pub const LOCAL_WORK_SIZE: usize = 128;

/// Compute-capability major version of the Nvidia Ampere architecture.
pub const AMPERE: u32 = 8;

/// Bit width of the scalar field of BLS12-381.
pub const SCALAR_BITS: usize = 256;

/// Byte width of the canonical little-endian scalar representation.
pub const SCALAR_BYTES: usize = 32;

} // verus!
