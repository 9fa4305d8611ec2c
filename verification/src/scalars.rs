//! Scalar representations and their signed-digit window decomposition.
//!
//! A scalar enters the engine as its canonical little-endian byte encoding.
//! For the bucket method each scalar is cut into `num_windows` windows of `w`
//! bits, and the windows are re-encoded with a carry into signed digits of
//! absolute value at most `2^(w-1)`, which halves the number of buckets.

use vstd::prelude::*;
use vstd::arithmetic::power2::{pow2, lemma_pow2_adds, lemma_pow2_strictly_increases, lemma_pow2_pos};
use vstd::arithmetic::mul::{lemma_mul_nonnegative, lemma_mul_basics};

verus! {

/// The value of a little-endian byte string.
pub open spec fn le_val(s: Seq<u8>) -> nat
    decreases s.len(),
{
    if s.len() == 0 {
        0
    } else {
        (s[0] as nat) + 256 * le_val(s.skip(1))
    }
}

/// The value of a little-endian string of `w`-bit windows.
pub open spec fn uval(ws: Seq<u32>, w: nat) -> nat
    decreases ws.len(),
{
    if ws.len() == 0 {
        0
    } else {
        (ws[0] as nat) + pow2(w) * uval(ws.skip(1), w)
    }
}

/// The value of a little-endian string of signed `w`-bit digits.
pub open spec fn digits_val(ds: Seq<i32>, w: nat) -> int
    decreases ds.len(),
{
    if ds.len() == 0 {
        0
    } else {
        (ds[0] as int) + pow2(w) * digits_val(ds.skip(1), w)
    }
}

pub proof fn lemma_le_val_snoc(s: Seq<u8>, x: u8)
    ensures
        le_val(s.push(x)) == le_val(s) + x * pow2(8 * s.len()),
    decreases s.len(),
{
    if s.len() == 0 {
        assert(s.push(x).skip(1) =~= Seq::<u8>::empty());
        assert(le_val(Seq::<u8>::empty()) == 0);
        assert(s =~= Seq::<u8>::empty());
        assert(s.push(x)[0] == x);
        assert(pow2(0) == 1) by { vstd::arithmetic::power2::lemma2_to64(); }
    } else {
        assert(s.push(x).skip(1) =~= s.skip(1).push(x));
        lemma_le_val_snoc(s.skip(1), x);
        lemma_mul_nonnegative(8, s.len() - 1);
        let a = le_val(s.skip(1));
        let e = 8 * (s.len() - 1) as nat;
        let b = pow2(e);
        assert(pow2(8) == 256) by { vstd::arithmetic::power2::lemma2_to64(); }
        lemma_pow2_adds(8, e);
        assert(s.skip(1).len() == (s.len() - 1) as nat);
        assert(8 * s.len() == 8 + e);
        assert(pow2(8 * s.len()) == 256 * b);
        assert(le_val(s.push(x)) == (s[0] as nat) + 256 * le_val(s.skip(1).push(x)));
        assert(le_val(s.skip(1).push(x)) == a + x * b);
        assert(256 * (a + x * b) == 256 * a + x * (256 * b)) by (nonlinear_arith);
        assert(x * (256 * b) == x * pow2(8 * s.len()));
        assert(le_val(s) == (s[0] as nat) + 256 * a);
    }
}

pub proof fn lemma_uval_snoc(ws: Seq<u32>, w: nat, x: u32)
    ensures
        uval(ws.push(x), w) == uval(ws, w) + x * pow2(w * ws.len()),
    decreases ws.len(),
{
    lemma_mul_nonnegative(w as int, ws.len() as int);
    if ws.len() == 0 {
        assert(ws.push(x).skip(1) =~= Seq::<u32>::empty());
        assert(uval(Seq::<u32>::empty(), w) == 0);
        assert(ws =~= Seq::<u32>::empty());
        assert(ws.push(x)[0] == x);
        assert(pow2(0) == 1) by { vstd::arithmetic::power2::lemma2_to64(); }
        lemma_mul_basics(w as int);
        assert(w * ws.len() == 0);
        assert(uval(ws, w) == 0);
        assert(uval(ws.push(x), w) == (x as nat) + pow2(w) * uval(ws.push(x).skip(1), w));
        assert(uval(ws.push(x), w) == (x as nat) + pow2(w) * 0);
        assert(x * pow2(0) == x * 1);
    } else {
        assert(ws.push(x).skip(1) =~= ws.skip(1).push(x));
        lemma_uval_snoc(ws.skip(1), w, x);
        lemma_mul_nonnegative(w as int, ws.len() - 1);
        let a = uval(ws.skip(1), w);
        let e = w * (ws.len() - 1) as nat;
        let b = pow2(e);
        let c = pow2(w);
        lemma_pow2_adds(w, e);
        assert(ws.skip(1).len() == (ws.len() - 1) as nat);
        assert(w * ws.len() == w + e) by (nonlinear_arith)
            requires ws.len() >= 1 && e == w * ((ws.len() - 1) as nat);
        assert(pow2(w * ws.len()) == c * b);
        assert(uval(ws.push(x), w) == (ws[0] as nat) + c * uval(ws.skip(1).push(x), w));
        assert(uval(ws.skip(1).push(x), w) == a + x * b);
        assert(c * (a + x * b) == c * a + x * (c * b)) by (nonlinear_arith);
        assert(x * (c * b) == x * pow2(w * ws.len()));
        assert(uval(ws, w) == (ws[0] as nat) + c * a);
        assert(uval(ws.push(x), w) == (ws[0] as nat) + c * (a + x * b));
        assert(uval(ws.push(x), w) == (ws[0] as nat) + (c * a + x * (c * b)));
    }
}

pub proof fn lemma_digits_snoc(ds: Seq<i32>, w: nat, x: i32)
    ensures
        digits_val(ds.push(x), w) == digits_val(ds, w) + x * pow2(w * ds.len()),
    decreases ds.len(),
{
    lemma_mul_nonnegative(w as int, ds.len() as int);
    if ds.len() == 0 {
        assert(ds.push(x).skip(1) =~= Seq::<i32>::empty());
        assert(digits_val(Seq::<i32>::empty(), w) == 0);
        assert(ds =~= Seq::<i32>::empty());
        assert(ds.push(x)[0] == x);
        assert(pow2(0) == 1) by { vstd::arithmetic::power2::lemma2_to64(); }
        lemma_mul_basics(w as int);
        assert(w * ds.len() == 0);
        assert(digits_val(ds, w) == 0);
        assert(digits_val(ds.push(x), w) == (x as int) + pow2(w) * digits_val(ds.push(x).skip(1), w));
        assert(digits_val(ds.push(x), w) == (x as int) + pow2(w) * 0);
        assert(x * (pow2(0) as int) == x * 1);
    } else {
        assert(ds.push(x).skip(1) =~= ds.skip(1).push(x));
        lemma_digits_snoc(ds.skip(1), w, x);
        lemma_mul_nonnegative(w as int, ds.len() - 1);
        let a = digits_val(ds.skip(1), w);
        let e = w * (ds.len() - 1) as nat;
        let b = pow2(e) as int;
        let c = pow2(w) as int;
        lemma_pow2_adds(w, e);
        assert(ds.skip(1).len() == (ds.len() - 1) as nat);
        assert(w * ds.len() == w + e) by (nonlinear_arith)
            requires ds.len() >= 1 && e == w * ((ds.len() - 1) as nat);
        assert(pow2(w * ds.len()) == c * b);
        assert(digits_val(ds.push(x), w) == (ds[0] as int) + c * digits_val(ds.skip(1).push(x), w));
        assert(digits_val(ds.skip(1).push(x), w) == a + x * b);
        assert(c * (a + x * b) == c * a + x * (c * b)) by (nonlinear_arith);
        assert(x * (c * b) == x * pow2(w * ds.len()));
        assert(digits_val(ds, w) == (ds[0] as int) + c * a);
        assert(digits_val(ds.push(x), w) == (ds[0] as int) + c * (a + x * b));
        assert(digits_val(ds.push(x), w) == (ds[0] as int) + (c * a + x * (c * b)));
    }
}

/// The value of a byte string is below `2^(8 len)`.
pub proof fn lemma_le_val_bound(s: Seq<u8>)
    ensures
        le_val(s) < pow2(8 * s.len()),
    decreases s.len(),
{
    if s.len() == 0 {
        assert(pow2(0) == 1) by { vstd::arithmetic::power2::lemma2_to64(); }
    } else {
        lemma_le_val_bound(s.skip(1));
        lemma_pow2_adds(8, 8 * (s.len() - 1) as nat);
        assert(pow2(8) == 256) by { vstd::arithmetic::power2::lemma2_to64(); }
        assert((s[0] as nat) + 256 * le_val(s.skip(1)) < 256 * pow2(8 * (s.len() - 1) as nat)) by (nonlinear_arith)
            requires
                s[0] < 256,
                le_val(s.skip(1)) < pow2(8 * (s.len() - 1) as nat),
                le_val(s.skip(1)) >= 0;
    }
}

/// The top window weighs no more than the whole value.
pub proof fn lemma_uval_top_term(ws: Seq<u32>, w: nat)
    requires
        ws.len() >= 1,
    ensures
        ws[ws.len() - 1] * pow2(w * (ws.len() - 1) as nat) <= uval(ws, w),
    decreases ws.len(),
{
    lemma_mul_nonnegative(w as int, ws.len() - 1);
    if ws.len() == 1 {
        assert(pow2(0) == 1) by { vstd::arithmetic::power2::lemma2_to64(); }
        lemma_mul_basics(w as int);
        assert(w * (ws.len() - 1) as nat == 0);
        assert(uval(ws.skip(1), w) == 0);
        assert(uval(ws, w) == (ws[0] as nat) + pow2(w) * 0);
        assert(ws[ws.len() - 1] * pow2(w * (ws.len() - 1) as nat) == ws[0] * pow2(0));
    } else {
        lemma_uval_top_term(ws.skip(1), w);
        let t = ws.skip(1);
        let top = t[t.len() - 1] as nat;
        let e2 = w * (ws.len() - 2) as nat;
        lemma_pow2_adds(w, e2);
        lemma_pow2_pos(w);
        assert(ws[ws.len() - 1] == t[t.len() - 1]);
        assert(w * (ws.len() - 1) as nat == w + e2) by (nonlinear_arith)
            requires ws.len() >= 2 && e2 == w * ((ws.len() - 2) as nat);
        assert(pow2(w * (ws.len() - 1) as nat) == pow2(w) * pow2(e2));
        assert(top * (pow2(w) * pow2(e2)) == pow2(w) * (top * pow2(e2))) by (nonlinear_arith);
        assert(pow2(w) * (top * pow2(e2)) <= pow2(w) * uval(t, w)) by (nonlinear_arith)
            requires top * pow2(e2) <= uval(t, w) && pow2(w) > 0;
        assert(uval(ws, w) == (ws[0] as nat) + pow2(w) * uval(t, w));
        assert(top * pow2(w * (ws.len() - 1) as nat) == top * (pow2(w) * pow2(e2)));
        assert(top * (pow2(w) * pow2(e2)) <= pow2(w) * uval(t, w));
        assert(ws[ws.len() - 1] * pow2(w * (ws.len() - 1) as nat) == top * pow2(w * (ws.len() - 1) as nat));
    }
}

/// A scalar as its canonical little-endian byte representation.
///
/// Well-formed values carry exactly 32 bytes whose top bit is clear, so the
/// encoded integer is below `2^255`; every canonical scalar of the BLS12-381
/// scalar field (all values below `r`) satisfies this.
pub struct ScalarBytes {
    pub bytes: Vec<u8>,
}

impl ScalarBytes {
    pub open spec fn wf(&self) -> bool {
        &&& self.bytes@.len() == crate::SCALAR_BYTES
        &&& self.bytes@[31] < 0x80
    }

    /// The integer the representation encodes.
    pub open spec fn val(&self) -> nat {
        le_val(self.bytes@)
    }

    /// Builds a scalar representation from raw little-endian bytes.
    ///
    /// Returns `None` unless exactly 32 bytes with a clear top bit are given.
    pub fn new(bytes: Vec<u8>) -> (r: Option<ScalarBytes>)
        ensures
            match r {
                Some(s) => s.wf() && s.val() == le_val(bytes@) && s.bytes@ == bytes@
                    && bytes@.len() == 32 && bytes@[31] < 0x80,
                None => !(bytes@.len() == 32 && bytes@[31] < 0x80),
            },
    {
        if bytes.len() == 32 && bytes[31] < 0x80 {
            Some(ScalarBytes { bytes })
        } else {
            None
        }
    }

    /// The 32 raw little-endian bytes.
    pub fn as_bytes(&self) -> (r: &Vec<u8>)
        ensures
            r@ == self.bytes@,
    {
        &self.bytes
    }
}

/// A well-formed scalar representation encodes a value below `2^255`.
pub proof fn lemma_scalar_below_half_range(s: ScalarBytes)
    requires
        s.wf(),
    ensures
        s.val() < pow2(255),
{
    let b = s.bytes@;
    let head = b.take(31);
    assert(head.push(b[31]) =~= b);
    lemma_le_val_snoc(head, b[31]);
    lemma_le_val_bound(head);
    lemma_pow2_adds(248, 7);
    assert(pow2(7) == 128) by { vstd::arithmetic::power2::lemma2_to64(); }
    assert(le_val(head) + b[31] * pow2(248) < pow2(248) + 127 * pow2(248)) by (nonlinear_arith)
        requires le_val(head) < pow2(248) && b[31] <= 127 && pow2(248) > 0;
    assert(pow2(255) == pow2(248) * 128) by {
        lemma_pow2_adds(248, 7);
        assert(pow2(7) == 128) by { vstd::arithmetic::power2::lemma2_to64(); }
    }
}

/// `2^e` as a machine integer, for small `e`.
pub fn small_pow2(e: usize) -> (r: u64)
    requires
        e <= 32,
    ensures
        r == pow2(e as nat),
        r >= 1,
{
    let mut i: usize = 0;
    let mut r: u64 = 1;
    proof {
        assert(pow2(0) == 1) by { vstd::arithmetic::power2::lemma2_to64(); }
    }
    while i < e
        invariant
            i <= e <= 32,
            r == pow2(i as nat),
            r >= 1,
        decreases e - i,
    {
        proof {
            lemma_pow2_adds(i as nat, 1);
            assert(pow2(1) == 2) by { vstd::arithmetic::power2::lemma2_to64(); }
            assert(pow2(i as nat) <= pow2(32)) by {
                if (i as nat) < 32 {
                    lemma_pow2_strictly_increases(i as nat, 32);
                }
            }
            assert(pow2(32) == 0x100000000) by { vstd::arithmetic::power2::lemma2_to64(); }
        }
        r = r * 2;
        i = i + 1;
    }
    r
}

/// Cuts the 256 bits of a scalar into `num_windows` little-endian windows of
/// `w` bits each (the windows beyond bit 255 are zero).
pub fn split_windows(bytes: &Vec<u8>, w: usize, num_windows: usize) -> (ws: Vec<u32>)
    requires
        bytes@.len() == 32,
        2 <= w <= 10,
        w * num_windows >= 256,
        num_windows <= 128,
    ensures
        ws@.len() == num_windows,
        forall|j: int| 0 <= j < num_windows ==> ws@[j] < pow2(w as nat),
        uval(ws@, w as nat) == le_val(bytes@),
{
    let pw: u64 = small_pow2(w);
    let mut ws: Vec<u32> = Vec::new();
    let mut buffer: u64 = 0;
    let mut nb: usize = 0;
    let mut pnb: u64 = 1;
    let mut k: usize = 0;
    proof {
        assert(pow2(0) == 1) by { vstd::arithmetic::power2::lemma2_to64(); }
        assert(bytes@.skip(0) =~= bytes@);
    }
    let mut j: usize = 0;
    while j < num_windows
        invariant
            bytes@.len() == 32,
            2 <= w <= 10,
            num_windows <= 128,
            j <= num_windows,
            ws@.len() == j,
            nb <= 17,
            pnb == pow2(nb as nat),
            buffer < pnb,
            k <= 32,
            pw == pow2(w as nat),
            forall|jj: int| 0 <= jj < j ==> ws@[jj] < pow2(w as nat),
            uval(ws@, w as nat) + pow2((w * j) as nat) * (buffer + pow2(nb as nat) * le_val(bytes@.skip(k as int)))
                == le_val(bytes@),
        decreases num_windows - j,
    {
        while nb < w && k < 32
            invariant
                bytes@.len() == 32,
                2 <= w <= 10,
                nb <= 17,
                pnb == pow2(nb as nat),
                buffer < pnb,
                k <= 32,
                uval(ws@, w as nat) + pow2((w * j) as nat) * (buffer + pow2(nb as nat) * le_val(bytes@.skip(k as int)))
                    == le_val(bytes@),
            decreases 32 - k,
        {
            let b = bytes[k];
            proof {
                let rest = bytes@.skip(k as int);
                assert(rest[0] == bytes@[k as int]);
                assert(rest.skip(1) =~= bytes@.skip(k as int + 1));
                assert(le_val(rest) == b + 256 * le_val(bytes@.skip(k as int + 1)));
                lemma_pow2_adds(nb as nat, 8);
                assert(pow2(8) == 256) by { vstd::arithmetic::power2::lemma2_to64(); }
                // buffer + 2^nb * (b + 256 * rest') == (buffer + b * 2^nb) + 2^(nb+8) * rest'
                assert(buffer + pow2(nb as nat) * (b + 256 * le_val(bytes@.skip(k as int + 1)))
                    == (buffer + b * pow2(nb as nat))
                        + (pow2(nb as nat) * 256) * le_val(bytes@.skip(k as int + 1)))
                    by (nonlinear_arith);
                // The new buffer stays below 2^(nb+8).
                assert(buffer + b * pow2(nb as nat) < pow2(nb as nat) * 256) by (nonlinear_arith)
                    requires buffer < pow2(nb as nat) && b < 256 && pow2(nb as nat) >= 1;
                assert(pow2((nb + 8) as nat) <= pow2(25)) by {
                    if ((nb + 8) as nat) < 25 {
                        lemma_pow2_strictly_increases((nb + 8) as nat, 25);
                    }
                }
                assert(pow2(25) == 0x2000000) by { vstd::arithmetic::power2::lemma2_to64(); }
            }
            buffer = buffer + (b as u64) * pnb;
            pnb = pnb * 256;
            nb = nb + 8;
            k = k + 1;
        }
        // Emit one window of w bits.
        proof {
            assert(nb >= w || k == 32);
            lemma_pow2_pos(w as nat);
        }
        let wv: u64 = buffer % pw;
        let newbuf: u64 = buffer / pw;
        proof {
            assert(pw <= 1024) by {
                if (w as nat) < 10 {
                    lemma_pow2_strictly_increases(w as nat, 10);
                }
                assert(pow2(10) == 1024) by { vstd::arithmetic::power2::lemma2_to64(); }
            }
            vstd::arithmetic::div_mod::lemma_fundamental_div_mod(buffer as int, pw as int);
            lemma_uval_snoc(ws@, w as nat, wv as u32);
            assert(wv < pow2(w as nat));
            let rest = le_val(bytes@.skip(k as int));
            let oldterm = pow2((w * j) as nat) * (buffer + pow2(nb as nat) * rest);
            if nb >= w {
                // 2^nb * rest == 2^w * 2^(nb-w) * rest and
                // buffer == wv + 2^w * newbuf, so the invariant shifts by one window.
                lemma_pow2_adds(w as nat, (nb - w) as nat);
                lemma_pow2_adds((w * j) as nat, w as nat);
                assert((w * (j + 1)) as nat == (w * j) as nat + w as nat) by (nonlinear_arith);
                assert(oldterm == pow2((w * j) as nat) * wv
                    + pow2((w * (j + 1)) as nat) * (newbuf + pow2((nb - w) as nat) * rest))
                    by (nonlinear_arith)
                    requires
                        oldterm == pow2((w * j) as nat) * (buffer + pow2(nb as nat) * rest),
                        buffer == pw * newbuf + wv,
                        pw == pow2(w as nat),
                        pow2(nb as nat) == pow2(w as nat) * pow2((nb - w) as nat),
                        pow2((w * (j + 1)) as nat) == pow2((w * j) as nat) * pow2(w as nat),
                        rest >= 0;
                // The reduced buffer stays below 2^(nb - w).
                assert(newbuf < pow2((nb - w) as nat)) by (nonlinear_arith)
                    requires
                        buffer < pow2(nb as nat),
                        buffer == pw * newbuf + wv,
                        wv >= 0,
                        newbuf >= 0,
                        pw == pow2(w as nat),
                        pow2(nb as nat) == pow2(w as nat) * pow2((nb - w) as nat);
            } else {
                // Bytes are exhausted: the tail value is zero and the buffer
                // fits inside one window.
                assert(k == 32);
                assert(bytes@.skip(32) =~= Seq::<u8>::empty());
                assert(rest == 0);
                lemma_pow2_strictly_increases(nb as nat, w as nat);
                assert(wv == buffer && newbuf == 0) by (nonlinear_arith)
                    requires
                        buffer == pw * newbuf + wv,
                        0 <= wv < pw,
                        newbuf >= 0,
                        buffer < pow2(nb as nat),
                        pow2(nb as nat) < pw;
                lemma_pow2_adds((w * j) as nat, w as nat);
                assert((w * (j + 1)) as nat == (w * j) as nat + w as nat) by (nonlinear_arith);
                assert(oldterm == pow2((w * j) as nat) * wv
                    + pow2((w * (j + 1)) as nat) * (0 + pow2(0) * 0)) by (nonlinear_arith)
                    requires
                        oldterm == pow2((w * j) as nat) * (buffer + pow2(nb as nat) * rest),
                        rest == 0,
                        wv == buffer;
                assert(pow2(0) == 1) by { vstd::arithmetic::power2::lemma2_to64(); }
            }
        }
        let ghost ws_before = ws@;
        ws.push(wv as u32);
        buffer = newbuf;
        proof {
            lemma_mul_nonnegative(w as int, j as int);
            lemma_mul_nonnegative(w as int, j + 1);
            lemma_uval_snoc(ws_before, w as nat, wv as u32);
            assert((wv as u32) as nat == wv as nat);
            assert(ws_before.len() == j);
            assert(uval(ws@, w as nat) == uval(ws_before, w as nat) + wv * pow2((w * j) as nat));
            assert(le_val(Seq::<u8>::empty()) == 0);
        }
        if nb >= w {
            proof {
                lemma_pow2_adds(w as nat, (nb - w) as nat);
                assert(pow2((nb - w) as nat) == pow2(nb as nat) / pow2(w as nat)) by (nonlinear_arith)
                    requires
                        pow2(nb as nat) == pow2(w as nat) * pow2((nb - w) as nat),
                        pow2(w as nat) >= 1,
                        pow2((nb - w) as nat) >= 0;
            }
            nb = nb - w;
            pnb = pnb / pw;
        } else {
            nb = 0;
            pnb = 1;
            proof {
                assert(pow2(0) == 1) by { vstd::arithmetic::power2::lemma2_to64(); }
            }
        }
        j = j + 1;
    }
    proof {
        lemma_le_val_bound(bytes@);
        lemma_mul_nonnegative(w as int, num_windows as int);
        let wn = (w * num_windows) as nat;
        assert(pow2(256) <= pow2(wn)) by {
            if 256 < wn {
                lemma_pow2_strictly_increases(256, wn);
            }
        }
        let rest = le_val(bytes@.skip(k as int));
        let x = buffer + pow2(nb as nat) * rest;
        assert(pow2(nb as nat) * rest >= 0) by (nonlinear_arith)
            requires rest >= 0 && pow2(nb as nat) >= 0;
        assert(x == 0) by (nonlinear_arith)
            requires
                uval(ws@, w as nat) + pow2(wn) * x == le_val(bytes@),
                le_val(bytes@) < pow2(256),
                pow2(256) <= pow2(wn),
                uval(ws@, w as nat) >= 0,
                x >= 0;
        lemma_mul_basics(pow2(wn) as int);
        assert(pow2(wn) * x == 0);
        assert(uval(ws@, w as nat) == le_val(bytes@));
    }
    ws
}


/// Re-encodes unsigned `w`-bit windows into signed digits with a carry, so
/// that every digit has absolute value at most `2^(w-1)`.
///
/// The value must leave at least one slack bit below the capacity of the
/// windows, so that the final carry is absorbed by the top window.
pub fn signed_digits(ws: &Vec<u32>, w: usize) -> (ds: Vec<i32>)
    requires
        2 <= w <= 10,
        ws@.len() >= 1,
        forall|j: int| 0 <= j < ws@.len() ==> ws@[j] < pow2(w as nat),
        uval(ws@, w as nat) < pow2((w * ws@.len() - 1) as nat),
    ensures
        ds@.len() == ws@.len(),
        digits_val(ds@, w as nat) == uval(ws@, w as nat),
        forall|j: int| 0 <= j < ds@.len()
            ==> -(pow2((w - 1) as nat) as int) <= #[trigger] ds@[j] <= pow2((w - 1) as nat),
{
    let pw: u64 = small_pow2(w);
    let half: u64 = pw / 2;
    proof {
        lemma_pow2_adds(1, (w - 1) as nat);
        assert(pow2(1) == 2) by { vstd::arithmetic::power2::lemma2_to64(); }
        assert(half == pow2((w - 1) as nat));
        assert(pw <= 1024) by {
            if (w as nat) < 10 {
                lemma_pow2_strictly_increases(w as nat, 10);
            }
            assert(pow2(10) == 1024) by { vstd::arithmetic::power2::lemma2_to64(); }
        }
        assert(ws@.take(0) =~= Seq::<u32>::empty());
    }
    let n: usize = ws.len();
    let mut ds: Vec<i32> = Vec::new();
    let mut carry: u32 = 0;
    let mut j: usize = 0;
    while j < n
        invariant
            2 <= w <= 10,
            n == ws@.len(),
            n >= 1,
            j <= n,
            ds@.len() == j,
            carry <= 1,
            pw == pow2(w as nat),
            pw <= 1024,
            half == pow2((w - 1) as nat),
            forall|jj: int| 0 <= jj < n ==> ws@[jj] < pow2(w as nat),
            uval(ws@, w as nat) < pow2((w * n - 1) as nat),
            forall|jj: int| 0 <= jj < j
                ==> -(pow2((w - 1) as nat) as int) <= #[trigger] ds@[jj] <= pow2((w - 1) as nat),
            digits_val(ds@, w as nat) + carry * pow2((w * j) as nat) == uval(ws@.take(j as int), w as nat),
            j == n ==> carry == 0,
        decreases n - j,
    {
        let t: u64 = (ws[j] as u64) + (carry as u64);
        let ghost ds_before = ds@;
        let ghost wj = pow2((w * j) as nat) as int;
        proof {
            lemma_mul_nonnegative(w as int, j as int);
            lemma_mul_nonnegative(w as int, j + 1);
            assert(ws@.take(j + 1) =~= ws@.take(j as int).push(ws@[j as int]));
            lemma_uval_snoc(ws@.take(j as int), w as nat, ws@[j as int]);
            assert(ws@.take(j as int).len() == j);
            assert(uval(ws@.take(j + 1), w as nat)
                == uval(ws@.take(j as int), w as nat) + ws@[j as int] * wj);
            lemma_pow2_adds((w * j) as nat, w as nat);
            assert((w * (j + 1)) as nat == (w * j) as nat + w as nat) by (nonlinear_arith)
                requires w >= 0 && j >= 0;
            assert(pow2((w * (j + 1)) as nat) == wj * pw);
        }
        if j + 1 < n && t >= half {
            let d: i32 = (t as i32) - (pw as i32);
            ds.push(d);
            proof {
                assert(pw == 2 * half) by {
                    lemma_pow2_adds(1, (w - 1) as nat);
                    assert(pow2(1) == 2) by { vstd::arithmetic::power2::lemma2_to64(); }
                }
                assert(t <= pw);
                assert(-(half as int) <= d <= 0);
                lemma_digits_snoc(ds_before, w as nat, d);
                assert(ds_before.len() == j);
                assert(digits_val(ds@, w as nat) == digits_val(ds_before, w as nat) + d * wj);
                // d * wj + 2^(w(j+1)) == (t - pw) * wj + pw * wj == t * wj
                assert(d * wj + wj * pw == (t as int) * wj) by (nonlinear_arith)
                    requires d == t - pw;
                assert((t as int) * wj == ws@[j as int] * wj + (carry as int) * wj) by (nonlinear_arith)
                    requires t == ws@[j as int] + carry;
            }
            carry = 1;
        } else {
            let d: i32 = t as i32;
            proof {
                // At the top window the digit never exceeds `2^(w-1)`: the
                // value bound leaves a slack bit there.
                if j + 1 == n {
                    lemma_uval_top_term(ws@, w as nat);
                    lemma_mul_nonnegative(w as int, n - 1);
                    lemma_pow2_pos((w * (n - 1)) as nat);
                    lemma_pow2_adds((w * (n - 1)) as nat, (w - 1) as nat);
                    assert((w * n - 1) as nat == (w * (n - 1)) as nat + (w - 1) as nat) by (nonlinear_arith)
                        requires w >= 1 && n >= 1;
                    assert(ws@[j as int] < half) by (nonlinear_arith)
                        requires
                            ws@[j as int] * pow2((w * (n - 1)) as nat) <= uval(ws@, w as nat),
                            uval(ws@, w as nat) < pow2((w * (n - 1)) as nat) * pow2((w - 1) as nat),
                            pow2((w * (n - 1)) as nat) > 0,
                            half == pow2((w - 1) as nat),
                            j == n - 1;
                } else {
                    assert(t < half);
                }
                assert(t <= half);
            }
            ds.push(d);
            proof {
                lemma_digits_snoc(ds_before, w as nat, d);
                assert(ds_before.len() == j);
                assert(digits_val(ds@, w as nat) == digits_val(ds_before, w as nat) + d * wj);
                assert((t as int) * wj == ws@[j as int] * wj + (carry as int) * wj) by (nonlinear_arith)
                    requires t == ws@[j as int] + carry;
            }
            carry = 0;
        }
        j = j + 1;
    }
    proof {
        assert(ws@.take(n as int) =~= ws@);
        lemma_mul_basics(pow2((w * n) as nat) as int);
        assert((carry as int) * pow2((w * n) as nat) == 0);
    }
    ds
}

/// The modeled exponent vector: the integer value of each scalar.
pub open spec fn exp_vals(exps: Seq<ScalarBytes>) -> Seq<nat> {
    exps.map_values(|s: ScalarBytes| s.val())
}

/// The flat signed-digit array of a whole exponent vector, laid out term by
/// term: entry `t * num_windows + j` is digit `j` of scalar `t`.
pub fn all_digits(exps: &[ScalarBytes], w: usize, num_windows: usize) -> (ds: Vec<i32>)
    requires
        2 <= w <= 10,
        w * num_windows >= 256,
        1 <= num_windows <= 128,
        forall|t: int| 0 <= t < exps@.len() ==> exps@[t].wf(),
        exps@.len() * num_windows <= usize::MAX,
    ensures
        ds@.len() == exps@.len() * num_windows,
        forall|t: int| 0 <= t < exps@.len()
            ==> digits_val(ds@.subrange(t * num_windows, (t + 1) * num_windows), w as nat)
                == exp_vals(exps@)[t],
        forall|i: int| 0 <= i < ds@.len()
            ==> -(pow2((w - 1) as nat) as int) <= #[trigger] ds@[i] <= pow2((w - 1) as nat),
{
    let m: usize = exps.len();
    let mut ds: Vec<i32> = Vec::new();
    let mut t: usize = 0;
    while t < m
        invariant
            2 <= w <= 10,
            w * num_windows >= 256,
            1 <= num_windows <= 128,
            m == exps@.len(),
            m * num_windows <= usize::MAX,
            t <= m,
            ds@.len() == t * num_windows,
            forall|t2: int| 0 <= t2 < m ==> exps@[t2].wf(),
            forall|t2: int| 0 <= t2 < t
                ==> digits_val(ds@.subrange(t2 * num_windows, (t2 + 1) * num_windows), w as nat)
                    == exps@[t2].val(),
            forall|i: int| 0 <= i < ds@.len()
                ==> -(pow2((w - 1) as nat) as int) <= #[trigger] ds@[i] <= pow2((w - 1) as nat),
        decreases m - t,
    {
        let sc: &ScalarBytes = vstd::slice::slice_index_get(exps, t);
        let ws = split_windows(sc.as_bytes(), w, num_windows);
        proof {
            lemma_scalar_below_half_range(exps@[t as int]);
            lemma_mul_nonnegative(w as int, num_windows as int);
            assert(pow2(255) <= pow2((w * num_windows - 1) as nat)) by {
                if 255 < (w * num_windows - 1) as nat {
                    lemma_pow2_strictly_increases(255, (w * num_windows - 1) as nat);
                }
            }
            assert(t * num_windows + num_windows <= m * num_windows) by (nonlinear_arith)
                requires t + 1 <= m && num_windows >= 0;
            assert(t * num_windows >= 0) by (nonlinear_arith)
                requires t >= 0 && num_windows >= 0;
        }
        let mut dsj = signed_digits(&ws, w);
        let ghost ds_before = ds@;
        let ghost dsj_view = dsj@;
        ds.append(&mut dsj);
        proof {
            assert(ds@ == ds_before + dsj_view);
            assert(ds@.len() == t * num_windows + num_windows);
            assert((t + 1) * num_windows == t * num_windows + num_windows) by (nonlinear_arith);
            assert forall|t2: int| 0 <= t2 < t + 1
                implies digits_val(ds@.subrange(t2 * num_windows, (t2 + 1) * num_windows), w as nat)
                    == exps@[t2].val() by {
                assert(t2 * num_windows >= 0) by (nonlinear_arith)
                    requires t2 >= 0 && num_windows >= 0;
                assert((t2 + 1) * num_windows == t2 * num_windows + num_windows) by (nonlinear_arith);
                if t2 < t {
                    assert(t2 * num_windows + num_windows <= t * num_windows) by (nonlinear_arith)
                        requires t2 + 1 <= t && num_windows >= 0;
                    assert(ds@.subrange(t2 * num_windows, (t2 + 1) * num_windows)
                        =~= ds_before.subrange(t2 * num_windows, (t2 + 1) * num_windows));
                } else {
                    assert(ds@.subrange(t * num_windows, (t + 1) * num_windows) =~= dsj_view);
                }
            }
        }
        t = t + 1;
    }
    proof {
        assert(exp_vals(exps@).len() == exps@.len());
    }
    ds
}

/// The size of an exponent in bytes: the canonical scalar representation of
/// the BLS12-381 scalar field occupies 32 bytes in memory.
pub fn exp_size() -> (r: usize)
    ensures
        r == crate::SCALAR_BYTES,
{
    crate::SCALAR_BYTES
}

} // verus!
