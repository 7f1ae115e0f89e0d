//! The parabola through three samples, in whole numbers.

use vstd::prelude::*;

verus! {

/// The parabola through the points `(0, f[0])`, `(1, f[1])`, `(2, f[2])`.
///
/// With whole numbers for samples the coefficients of `x` and of `x²` are
/// whole or half numbers, so `coefs` holds each coefficient doubled: the
/// parabola is `(coefs[0] + (coefs[1] + coefs[2]·x)·x) / 2`.
#[derive(Copy, Clone)]
pub struct FixedParabola {
    pub f: [i32; 3],
    pub coefs: [i64; 3],
}

impl FixedParabola {
    /// The value at `x` of the parabola that `coefs` describes.
    pub open spec fn spec_eval(&self, x: int) -> int {
        (self.coefs[0] + (self.coefs[1] + self.coefs[2] * x) * x) / 2
    }

    /// Whether `coefs` describes the parabola through the three samples.
    pub open spec fn fitted(&self) -> bool {
        let d = self.f[1] - self.f[0];
        let e = self.f[2] - self.f[0];
        &&& self.coefs[0] == 2 * self.f[0]
        &&& self.coefs[1] == 4 * d - e
        &&& self.coefs[2] == e - 2 * d
    }

    pub fn new() -> (p: Self)
        ensures
            p.f@ == seq![0i32, 0i32, 0i32],
            p.coefs@ == seq![0i64, 0i64, 0i64],
            p.fitted(),
    {
        let p = Self { f: [0, 0, 0], coefs: [0, 0, 0] };
        assert(p.f@ =~= seq![0i32, 0i32, 0i32]);
        assert(p.coefs@ =~= seq![0i64, 0i64, 0i64]);
        p
    }

    /// The samples `f` with coefficients not yet computed.
    pub fn from_samples(f: [i32; 3]) -> (p: Self)
        ensures
            p.f == f,
            p.coefs@ == seq![0i64, 0i64, 0i64],
    {
        let p = Self { f, coefs: [0, 0, 0] };
        assert(p.coefs@ =~= seq![0i64, 0i64, 0i64]);
        p
    }

    /// Computes the coefficients from the samples. The parabola then passes
    /// through the three samples, and its value at 3 is
    /// `f[0] - 3·f[1] + 3·f[2]`.
    pub fn compute_coefs(&mut self)
        ensures
            final(self).f == old(self).f,
            final(self).fitted(),
            final(self).spec_eval(0) == old(self).f[0],
            final(self).spec_eval(1) == old(self).f[1],
            final(self).spec_eval(2) == old(self).f[2],
            final(self).spec_eval(3) == old(self).f[0] - 3 * old(self).f[1] + 3 * old(self).f[2],
    {
        let f0 = self.f[0] as i64;
        let d = self.f[1] as i64 - f0;
        let e = self.f[2] as i64 - f0;
        self.coefs[0] = 2 * f0;
        self.coefs[1] = 4 * d - e;
        self.coefs[2] = e - 2 * d;
    }

    /// The value of the parabola at `x`, rounded down where `coefs` was set
    /// to something that gives a half.
    pub fn eval(&self, x: i32) -> (y: i128)
        ensures
            y == self.spec_eval(x as int),
    {
        let c0 = self.coefs[0] as i128;
        let c1 = self.coefs[1] as i128;
        let c2 = self.coefs[2] as i128;
        let x = x as i128;
        assert(-0x4000_0000_0000_0000_0000_0000 <= c2 * x <= 0x4000_0000_0000_0000_0000_0000)
            by (nonlinear_arith)
            requires
                -0x8000_0000_0000_0000 <= c2 <= 0x8000_0000_0000_0000,
                -0x8000_0000 <= x <= 0x8000_0000,
        ;
        let slope = c1 + c2 * x;
        assert(-0x4000_0000_0000_0000_0000_0000_0000_0000 <= slope * x
            <= 0x4000_0000_0000_0000_0000_0000_0000_0000) by (nonlinear_arith)
            requires
                -0x8000_0000_0000_0000_0000_0000 <= slope <= 0x8000_0000_0000_0000_0000_0000,
                -0x8000_0000 <= x <= 0x8000_0000,
        ;
        let doubled = c0 + slope * x;
        if doubled >= 0 {
            doubled / 2
        } else {
            -((1 - doubled) / 2)
        }
    }
}

} // verus!
