use blstrs::{G1Affine, G1Projective, Scalar};
use ff::Field;
use group::{Curve, Group};

use gpu_msm::dispatch::MultiexpKernel;
use gpu_msm::kernel::{AbortFlag, EcError, SingleMultiexpKernel};
use gpu_msm::curve::g1_sizes;
use gpu_msm::scalars::ScalarBytes;
use gpu_msm::sizing::{div_ceil, work_units, DeviceProfile};

fn profile(memory: u64, compute_units: u32, compute_capability: Option<(u32, u32)>) -> DeviceProfile {
    DeviceProfile { memory, compute_units, compute_capability }
}

fn big_device() -> DeviceProfile {
    profile(1 << 30, 1, None)
}

fn scalar_bytes(s: &Scalar) -> ScalarBytes {
    ScalarBytes::new(s.to_bytes_le().to_vec()).expect("canonical scalar")
}

fn one_device_kernel() -> MultiexpKernel {
    MultiexpKernel::create(&vec![big_device()], &g1_sizes()).expect("device fits")
}

/// A dispatcher over hand-built kernels, to pin device count and chunk size.
fn forced_kernel(devices: usize, chunk: usize) -> MultiexpKernel {
    let mut kernels = Vec::new();
    for _ in 0..devices {
        kernels.push(SingleMultiexpKernel { n: chunk, work_units: 128, maybe_abort: None });
    }
    MultiexpKernel { kernels }
}

fn naive_msm(bases: &[G1Affine], scalars: &[Scalar]) -> G1Projective {
    let mut acc = G1Projective::identity();
    for (b, s) in bases.iter().zip(scalars.iter()) {
        acc += G1Projective::from(*b) * s;
    }
    acc
}

fn run_msm(kern: &MultiexpKernel, bases: &[G1Affine], scalars: &[Scalar]) -> G1Projective {
    let exps: Vec<ScalarBytes> = scalars.iter().map(scalar_bytes).collect();
    kern.multiexp(&bases.to_vec(), &exps, 0).expect("no abort installed")
}

struct XorShift(u64);

impl XorShift {
    fn next(&mut self) -> u64 {
        let mut x = self.0;
        x ^= x << 13;
        x ^= x >> 7;
        x ^= x << 17;
        self.0 = x;
        x
    }

    fn scalar(&mut self) -> Scalar {
        // A product of two 64-bit draws spreads over many limbs and stays
        // canonical.
        Scalar::from(self.next()) * Scalar::from(self.next()) + Scalar::from(self.next())
    }
}

#[test]
fn single_generator_times_one() {
    let kern = one_device_kernel();
    let g = G1Projective::generator();
    let r = run_msm(&kern, &[g.to_affine()], &[Scalar::ONE]);
    assert_eq!(r, g);
}

#[test]
fn single_generator_times_zero() {
    let kern = one_device_kernel();
    let g = G1Projective::generator();
    let r = run_msm(&kern, &[g.to_affine()], &[Scalar::ZERO]);
    assert_eq!(r, G1Projective::identity());
}

#[test]
fn one_and_r_minus_one_cancel() {
    let kern = one_device_kernel();
    let g = G1Projective::generator().to_affine();
    let r = run_msm(&kern, &[g, g], &[Scalar::ONE, -Scalar::ONE]);
    assert_eq!(r, G1Projective::identity());
}

#[test]
fn weighted_small_sum() {
    let kern = one_device_kernel();
    let g = G1Projective::generator();
    let bases = [
        g.to_affine(),
        (g * Scalar::from(2u64)).to_affine(),
        (g * Scalar::from(3u64)).to_affine(),
    ];
    let r = run_msm(&kern, &bases, &[Scalar::ONE, Scalar::ONE, Scalar::ONE]);
    assert_eq!(r, g * Scalar::from(6u64));
}

#[test]
fn random_1024_matches_naive() {
    let kern = one_device_kernel();
    let mut rng = XorShift(0x1234_5678_9abc_def1);
    let g = G1Projective::generator();
    let mut bases = Vec::new();
    let mut scalars = Vec::new();
    for _ in 0..1024 {
        bases.push((g * rng.scalar()).to_affine());
        scalars.push(rng.scalar());
    }
    let r = run_msm(&kern, &bases, &scalars);
    assert_eq!(r, naive_msm(&bases, &scalars));
}

#[test]
fn power_of_two_scalar() {
    // 2^254 exercises high windows and signed-digit carries near the top.
    let kern = one_device_kernel();
    let g = G1Projective::generator();
    let mut e = Scalar::ONE;
    for _ in 0..254 {
        e = e.double();
    }
    let r = run_msm(&kern, &[g.to_affine()], &[e]);
    assert_eq!(r, g * e);
}

#[test]
fn linearity_on_shared_bases() {
    let kern = one_device_kernel();
    let mut rng = XorShift(42);
    let g = G1Projective::generator();
    let bases: Vec<G1Affine> = (0..17).map(|_| (g * rng.scalar()).to_affine()).collect();
    let a: Vec<Scalar> = (0..17).map(|_| rng.scalar()).collect();
    let b: Vec<Scalar> = (0..17).map(|_| rng.scalar()).collect();
    let ab: Vec<Scalar> = a.iter().zip(b.iter()).map(|(x, y)| x + y).collect();
    let ra = run_msm(&kern, &bases, &a);
    let rb = run_msm(&kern, &bases, &b);
    let rab = run_msm(&kern, &bases, &ab);
    assert_eq!(ra + rb, rab);
}

#[test]
fn permutation_invariance() {
    let kern = one_device_kernel();
    let mut rng = XorShift(7);
    let g = G1Projective::generator();
    let bases: Vec<G1Affine> = (0..9).map(|_| (g * rng.scalar()).to_affine()).collect();
    let scalars: Vec<Scalar> = (0..9).map(|_| rng.scalar()).collect();
    let perm = [4usize, 7, 0, 8, 2, 6, 1, 5, 3];
    let pb: Vec<G1Affine> = perm.iter().map(|&i| bases[i]).collect();
    let ps: Vec<Scalar> = perm.iter().map(|&i| scalars[i]).collect();
    assert_eq!(run_msm(&kern, &bases, &scalars), run_msm(&kern, &pb, &ps));
}

#[test]
fn sharding_invariance() {
    let kern = one_device_kernel();
    let mut rng = XorShift(99);
    let g = G1Projective::generator();
    let bases: Vec<G1Affine> = (0..20).map(|_| (g * rng.scalar()).to_affine()).collect();
    let scalars: Vec<Scalar> = (0..20).map(|_| rng.scalar()).collect();
    let whole = run_msm(&kern, &bases, &scalars);
    let p1 = run_msm(&kern, &bases[0..6], &scalars[0..6]);
    let p2 = run_msm(&kern, &bases[6..13], &scalars[6..13]);
    let p3 = run_msm(&kern, &bases[13..20], &scalars[13..20]);
    assert_eq!(whole, p1 + p2 + p3);
}

#[test]
fn chunk_size_invariance() {
    let mut rng = XorShift(1000);
    let g = G1Projective::generator();
    let bases: Vec<G1Affine> = (0..33).map(|_| (g * rng.scalar()).to_affine()).collect();
    let scalars: Vec<Scalar> = (0..33).map(|_| rng.scalar()).collect();
    let wide = run_msm(&one_device_kernel(), &bases, &scalars);
    let narrow = run_msm(&forced_kernel(1, 5), &bases, &scalars);
    assert_eq!(wide, narrow);
}

#[test]
fn two_devices_match_one_device() {
    // Two devices with tiny chunks force several sub-chunks per device.
    let mut rng = XorShift(31337);
    let g = G1Projective::generator();
    let bases: Vec<G1Affine> = (0..200).map(|_| (g * rng.scalar()).to_affine()).collect();
    let scalars: Vec<Scalar> = (0..200).map(|_| rng.scalar()).collect();
    let one = run_msm(&forced_kernel(1, 64), &bases, &scalars);
    let two = run_msm(&forced_kernel(2, 17), &bases, &scalars);
    assert_eq!(one, two);
}

#[test]
fn chunk_boundary_exact_below_above() {
    let mut rng = XorShift(5);
    let g = G1Projective::generator();
    for n in [7usize, 8, 9] {
        let bases: Vec<G1Affine> = (0..n).map(|_| (g * rng.scalar()).to_affine()).collect();
        let scalars: Vec<Scalar> = (0..n).map(|_| rng.scalar()).collect();
        let r = run_msm(&forced_kernel(1, 8), &bases, &scalars);
        assert_eq!(r, naive_msm(&bases, &scalars));
    }
}

#[test]
fn zero_scalars_absorb() {
    let kern = one_device_kernel();
    let mut rng = XorShift(8);
    let g = G1Projective::generator();
    let bases: Vec<G1Affine> = (0..5).map(|_| (g * rng.scalar()).to_affine()).collect();
    let scalars = vec![Scalar::ZERO; 5];
    assert_eq!(run_msm(&kern, &bases, &scalars), G1Projective::identity());
}

#[test]
fn identity_bases_absorb() {
    let kern = one_device_kernel();
    let mut rng = XorShift(9);
    let bases = vec![G1Projective::identity().to_affine(); 5];
    let scalars: Vec<Scalar> = (0..5).map(|_| rng.scalar()).collect();
    assert_eq!(run_msm(&kern, &bases, &scalars), G1Projective::identity());
}

#[test]
fn empty_input_yields_identity() {
    let kern = one_device_kernel();
    let r = run_msm(&kern, &[], &[]);
    assert_eq!(r, G1Projective::identity());
}

#[test]
fn skip_selects_base_window() {
    let kern = one_device_kernel();
    let mut rng = XorShift(77);
    let g = G1Projective::generator();
    let bases: Vec<G1Affine> = (0..10).map(|_| (g * rng.scalar()).to_affine()).collect();
    let scalars: Vec<Scalar> = (0..4).map(|_| rng.scalar()).collect();
    let exps: Vec<ScalarBytes> = scalars.iter().map(scalar_bytes).collect();
    let r = kern.multiexp(&bases, &exps, 3).expect("no abort installed");
    assert_eq!(r, naive_msm(&bases[3..7], &scalars));
}

#[test]
fn abort_flag_stops_the_call() {
    let flag = AbortFlag::new();
    let kern = MultiexpKernel::create_with_abort(&vec![big_device()], &g1_sizes(), flag.duplicate())
        .expect("device fits");
    flag.set();
    let g = G1Projective::generator();
    let exps = vec![scalar_bytes(&Scalar::ONE)];
    let r = kern.multiexp(&vec![g.to_affine()], &exps, 0);
    assert!(matches!(r, Err(EcError::Aborted)));
}

#[test]
fn untripped_abort_flag_lets_the_call_run() {
    let flag = AbortFlag::new();
    let kern = MultiexpKernel::create_with_abort(&vec![big_device()], &g1_sizes(), flag.duplicate())
        .expect("device fits");
    let g = G1Projective::generator();
    let exps = vec![scalar_bytes(&Scalar::ONE)];
    let r = kern.multiexp(&vec![g.to_affine()], &exps, 0).expect("flag untripped");
    assert_eq!(r, g);
}

#[test]
fn no_usable_device_is_refused() {
    // 1 KiB of device memory cannot hold the bucket buffer.
    let r = MultiexpKernel::create(&vec![profile(1024, 1, None)], &g1_sizes());
    assert!(matches!(r, Err(EcError::NoDevices)));
}

#[test]
fn tiny_device_fails_kernel_creation() {
    let r = SingleMultiexpKernel::create(&profile(1024, 1, None), &g1_sizes(), None);
    assert!(matches!(r, Err(EcError::DeviceFailure)));
}

#[test]
fn undersized_devices_are_dropped_not_fatal() {
    let devices = vec![profile(1024, 1, None), big_device()];
    let kern = MultiexpKernel::create(&devices, &g1_sizes()).expect("one device fits");
    assert_eq!(kern.num_kernels(), 1);
}

#[test]
fn scalar_bytes_validation() {
    assert!(ScalarBytes::new(vec![0u8; 31]).is_none());
    assert!(ScalarBytes::new(vec![0u8; 33]).is_none());
    let mut top = vec![0u8; 32];
    top[31] = 0x80;
    assert!(ScalarBytes::new(top).is_none());
    assert!(ScalarBytes::new(vec![0u8; 32]).is_some());
}

#[test]
fn work_unit_rule() {
    assert_eq!(work_units(4, None), 512);
    assert_eq!(work_units(4, Some((7, 5))), 512);
    // Ampere (compute capability major 8) doubles the work units.
    assert_eq!(work_units(4, Some((8, 0))), 1024);
}

#[test]
fn div_ceil_values() {
    assert_eq!(div_ceil(0, 3), 0);
    assert_eq!(div_ceil(6, 3), 2);
    assert_eq!(div_ceil(7, 3), 3);
    assert_eq!(div_ceil(256, 10), 26);
}

#[test]
fn chunk_size_formula() {
    // budget = floor(4/5 * 10^9); buckets = 128 * 1024 * 144;
    // results = 128 * 144; term = 96 + 32.
    let k = SingleMultiexpKernel::create(&profile(1_000_000_000, 1, None), &g1_sizes(), None)
        .expect("device fits");
    let budget: u64 = 800_000_000;
    let buckets: u64 = 128 * 1024 * 144;
    let results: u64 = 128 * 144;
    let expect = (budget - buckets - results) / 128;
    assert_eq!(k.chunk_size() as u64, expect);
}

#[test]
fn window_plan_small_and_saturated() {
    let k = SingleMultiexpKernel { n: 1 << 24, work_units: 128, maybe_abort: None };
    let p = k.plan(1);
    assert_eq!(p.window_size, 2);
    assert_eq!(p.num_windows, 128);
    assert_eq!(p.num_groups, 1);
    assert_eq!(p.bucket_len, 2);
    assert_eq!(p.global_work_size, 1);
    assert_eq!(p.row_nums, 1);
    // 2^8 terms per work unit saturate the window size at 10.
    let p2 = k.plan(256 * 128);
    assert_eq!(p2.window_size, 10);
    assert_eq!(p2.num_windows, 26);
    assert_eq!(p2.bucket_len, 512);
    assert!(p2.window_size * p2.num_windows >= 256);
}

fn run_msm_g2(kern: &MultiexpKernel, bases: &[blstrs::G2Affine], scalars: &[Scalar]) -> blstrs::G2Projective {
    let exps: Vec<ScalarBytes> = scalars.iter().map(scalar_bytes).collect();
    kern.multiexp_g2(&bases.to_vec(), &exps, 0).expect("no abort installed")
}

fn g2_kernel() -> MultiexpKernel {
    MultiexpKernel::create(&vec![big_device()], &gpu_msm::curve::g2_sizes()).expect("device fits")
}

#[test]
fn g2_generator_times_one() {
    let g = blstrs::G2Projective::generator();
    let r = run_msm_g2(&g2_kernel(), &[g.to_affine()], &[Scalar::ONE]);
    assert_eq!(r, g);
}

#[test]
fn g2_random_matches_naive() {
    let mut rng = XorShift(0xdead_beef_cafe_f00d);
    let g = blstrs::G2Projective::generator();
    let mut bases = Vec::new();
    let mut scalars = Vec::new();
    for _ in 0..64 {
        bases.push((g * rng.scalar()).to_affine());
        scalars.push(rng.scalar());
    }
    let r = run_msm_g2(&g2_kernel(), &bases, &scalars);
    let mut naive = blstrs::G2Projective::identity();
    for (b, s) in bases.iter().zip(scalars.iter()) {
        naive += blstrs::G2Projective::from(*b) * s;
    }
    assert_eq!(r, naive);
}

#[test]
fn exp_size_and_window_size() {
    assert_eq!(gpu_msm::scalars::exp_size(), 32);
    let k = SingleMultiexpKernel { n: 1 << 20, work_units: 128, maybe_abort: None };
    assert_eq!(k.calc_window_size(1), 2);
    assert_eq!(k.calc_window_size(256 * 128), 10);
}

#[test]
fn creation_keeps_usable_devices_in_order_with_their_sizing() {
    // Two usable devices with different memories, one unusable between them:
    // creation must keep the usable two, in order, each with its own sizing.
    let mem_a: u64 = 1 << 30;
    let mem_b: u64 = 2 << 30;
    let devices = vec![profile(mem_a, 1, None), profile(1024, 1, None), profile(mem_b, 2, None)];
    let kern = MultiexpKernel::create(&devices, &g1_sizes()).expect("two devices fit");
    assert_eq!(kern.num_kernels(), 2);
    let chunk = |mem: u64, wu: u64| -> u64 {
        (gpu_msm::sizing::memory_budget(mem) - wu * 1024 * 144 - wu * 144) / 128
    };
    assert_eq!(kern.kernels[0].work_units, 128);
    assert_eq!(kern.kernels[0].n as u64, chunk(mem_a, 128));
    assert_eq!(kern.kernels[1].work_units, 256);
    assert_eq!(kern.kernels[1].n as u64, chunk(mem_b, 256));
}

#[test]
fn creation_with_abort_installs_the_hook_everywhere() {
    let flag = AbortFlag::new();
    let devices = vec![big_device(), big_device()];
    let with = MultiexpKernel::create_with_abort(&devices, &g1_sizes(), flag).expect("devices fit");
    assert!(with.kernels.iter().all(|k| k.maybe_abort.is_some()));
    let without = MultiexpKernel::create(&devices, &g1_sizes()).expect("devices fit");
    assert!(without.kernels.iter().all(|k| k.maybe_abort.is_none()));
}
