//! A simple integer complex data type for fixed-point signal processing,
//! with saturating bit-width clipping and array copying.

use vstd::prelude::*;

verus! {

/// A complex number with 64-bit integer real and imaginary components.
#[derive(Debug, Clone, Copy, PartialEq, Eq, Structural)]
pub struct Complex {
    pub re: i64,
    pub im: i64,
}

/// The value `v` saturated to a signed window of `nbits_keep` bits:
/// values at or above `2^(nbits_keep-1)` clip to the largest representable
/// value, values at or below `-2^(nbits_keep-1)` clip to the smallest.
pub open spec fn clip_spec(v: i64, nbits_keep: usize) -> i64 {
    if v >= (1i64 << (nbits_keep - 1) as u64) {
        ((1i64 << (nbits_keep - 1) as u64) - 1) as i64
    } else if v <= (-1i64) << (nbits_keep - 1) as u64 {
        (-1i64) << (nbits_keep - 1) as u64
    } else {
        v
    }
}

impl Complex {
    /// Creates a new complex number.
    pub fn new(re: i64, im: i64) -> (c: Complex)
        ensures
            c == (Complex { re, im }),
    {
        Complex { re, im }
    }

    /// Shifts both the real and the imaginary component right by `n` bits.
    pub fn bitshift_right(&mut self, n: usize)
        requires
            n < 64,
        ensures
            final(self).re == old(self).re >> (n as u64),
            final(self).im == old(self).im >> (n as u64),
    {
        self.re = self.re >> n;
        self.im = self.im >> n;
    }

    /// Clips both components to the `nbits_keep` least significant bits,
    /// saturating at the edges of the signed window.
    pub fn get_clipped_msb(self, nbits_keep: usize) -> (c: Complex)
        requires
            1 <= nbits_keep <= 63,
        ensures
            c.re == clip_spec(self.re, nbits_keep),
            c.im == clip_spec(self.im, nbits_keep),
    {
        proof {
            let kk = (nbits_keep - 1) as u64;
            assert(1i64 << kk >= 1 && 1i64 << kk <= 0x4000000000000000) by (bit_vector)
                requires
                    kk < 63,
            ;
        }
        let mut re: i64 = self.re;
        let mut im: i64 = self.im;
        if self.re >= 1 << (nbits_keep - 1) {
            re = (1 << (nbits_keep - 1)) - 1;
        } else if self.re <= -1 << (nbits_keep - 1) {
            re = -1 << (nbits_keep - 1);
        }
        if self.im >= 1 << (nbits_keep - 1) {
            im = (1 << (nbits_keep - 1)) - 1;
        } else if self.im <= -1 << (nbits_keep - 1) {
            im = -1 << (nbits_keep - 1);
        }
        Complex { re, im }
    }

    /// Componentwise sum.
    pub fn add(self, rhs: Complex) -> (c: Complex)
        requires
            i64::MIN <= self.re + rhs.re <= i64::MAX,
            i64::MIN <= self.im + rhs.im <= i64::MAX,
        ensures
            c.re == self.re + rhs.re,
            c.im == self.im + rhs.im,
    {
        Complex { re: rhs.re + self.re, im: rhs.im + self.im }
    }

    /// Componentwise difference.
    pub fn sub(self, rhs: Complex) -> (c: Complex)
        requires
            i64::MIN <= self.re - rhs.re <= i64::MAX,
            i64::MIN <= self.im - rhs.im <= i64::MAX,
        ensures
            c.re == self.re - rhs.re,
            c.im == self.im - rhs.im,
    {
        Complex { re: self.re - rhs.re, im: self.im - rhs.im }
    }

    /// Complex product.
    pub fn mul(self, rhs: Complex) -> (c: Complex)
        requires
            i64::MIN <= rhs.re * self.re <= i64::MAX,
            i64::MIN <= rhs.im * self.im <= i64::MAX,
            i64::MIN <= rhs.re * self.re - rhs.im * self.im <= i64::MAX,
            i64::MIN <= rhs.re * self.im <= i64::MAX,
            i64::MIN <= rhs.im * self.re <= i64::MAX,
            i64::MIN <= rhs.re * self.im + rhs.im * self.re <= i64::MAX,
        ensures
            c.re == rhs.re * self.re - rhs.im * self.im,
            c.im == rhs.re * self.im + rhs.im * self.re,
    {
        Complex {
            re: rhs.re * self.re - rhs.im * self.im,
            im: rhs.re * self.im + rhs.im * self.re,
        }
    }
}

/// Copies the complex array `a` into `b`.  The arrays must have one length.
pub fn copy_ab(a: &Vec<Complex>, b: &mut Vec<Complex>)
    requires
        a@.len() == old(b)@.len(),
    ensures
        final(b)@ == a@,
{
    let len = a.len();
    for idx in 0..len
        invariant
            len == a@.len() == b@.len(),
            forall|j: int| 0 <= j < idx ==> b@[j] == a@[j],
    {
        b[idx] = a[idx];
    }
    proof {
        assert(b@ =~= a@);
    }
}

/// The widening, shifting and saturating step used when 32-bit samples are
/// loaded into complex values: the sample is widened to 64 bits, shifted left
/// by `inbitshift` bits, and clamped back into the 32-bit signed range.
pub open spec fn widen_shift_clamp_spec(value: i32, inbitshift: usize) -> i64 {
    let shifted = (value as i64) << inbitshift as u64;
    if shifted > i32::MAX as i64 {
        i32::MAX as i64
    } else if shifted < i32::MIN as i64 {
        i32::MIN as i64
    } else {
        shifted
    }
}

/// Widens a 32-bit sample, scales it up by `inbitshift` bits and saturates it
/// to the 32-bit signed range.
pub fn widen_shift_clamp(value: i32, inbitshift: usize) -> (r: i64)
    requires
        inbitshift < 64,
    ensures
        r == widen_shift_clamp_spec(value, inbitshift),
{
    let mut n64: i64 = (value as i64) << inbitshift;
    if n64 > i32::MAX as i64 {
        n64 = i32::MAX as i64;
    } else if n64 < i32::MIN as i64 {
        n64 = i32::MIN as i64;
    }
    n64
}

} // verus!
