//! Fractions of `i64` kept in lowest terms with a positive denominator.
use vstd::prelude::*;
use crate::mathtool::{abs, gcd, gcd_stein, lemma_gcd_divides, lemma_gcd_mul};

verus! {

/// The fraction `p / q`.
#[derive(Debug, Clone, PartialEq, Eq, Structural)]
pub struct Fraction {
    p: i64,
    q: i64,
}

/// Whether `a / b` and `c / d` are the same rational number (for non-zero
/// `b` and `d`).
pub open spec fn same_ratio(a: int, b: int, c: int, d: int) -> bool {
    a * d == c * b
}

impl Fraction {
    pub closed spec fn spec_p(&self) -> i64 {
        self.p
    }

    pub closed spec fn spec_q(&self) -> i64 {
        self.q
    }

    /// The denominator is positive and shares no factor with the numerator,
    /// whose negation fits.
    pub open spec fn wf(&self) -> bool {
        &&& self.spec_q() > 0
        &&& self.spec_p() > i64::MIN
        &&& gcd(abs(self.spec_p() as int), self.spec_q() as nat) == 1
    }

    /// `numerator / denominator` in lowest terms.
    pub fn new(numerator: i64, denominator: i64) -> (r: Self)
        requires
            denominator != 0,
            numerator != i64::MIN,
            denominator != i64::MIN,
        ensures
            r.wf(),
            same_ratio(r.spec_p() as int, r.spec_q() as int, numerator as int, denominator as int),
    {
        let g = gcd_stein(numerator, denominator);
        let an: i64 = if numerator < 0 { -numerator } else { numerator };
        let ad: i64 = if denominator < 0 { -denominator } else { denominator };
        proof {
            lemma_gcd_divides(an as nat, ad as nat);
            vstd::arithmetic::div_mod::lemma_fundamental_div_mod(an as int, g as int);
            vstd::arithmetic::div_mod::lemma_fundamental_div_mod(ad as int, g as int);
        }
        let num_abs = an / g;
        let den_abs = ad / g;
        proof {
            assert(an == g * num_abs);
            assert(ad == g * den_abs);
            lemma_gcd_mul(g as nat, num_abs as nat, den_abs as nat);
            assert(g as nat * gcd(num_abs as nat, den_abs as nat) == g as nat * 1);
            assert(gcd(num_abs as nat, den_abs as nat) == 1) by (nonlinear_arith)
                requires
                    g as nat * gcd(num_abs as nat, den_abs as nat) == g as nat * 1,
                    g > 0,
            ;
            assert(den_abs > 0) by (nonlinear_arith)
                requires
                    ad == g * den_abs,
                    ad > 0,
                    g > 0,
            ;
            assert(num_abs <= an) by (nonlinear_arith)
                requires
                    an == g * num_abs,
                    g > 0,
                    num_abs >= 0,
            ;
        }
        let negative = (numerator < 0) != (denominator < 0);
        let p = if negative { -num_abs } else { num_abs };
        proof {
            let n = numerator as int;
            let d = denominator as int;
            let gi = g as int;
            let na = num_abs as int;
            let da = den_abs as int;
            if n < 0 && d < 0 {
                assert(p as int * d == n * da) by (nonlinear_arith)
                    requires
                        -n == gi * na,
                        -d == gi * da,
                        p as int == na,
                ;
            } else if n < 0 {
                assert(p as int * d == n * da) by (nonlinear_arith)
                    requires
                        -n == gi * na,
                        d == gi * da,
                        p as int == -na,
                ;
            } else if d < 0 {
                assert(p as int * d == n * da) by (nonlinear_arith)
                    requires
                        n == gi * na,
                        -d == gi * da,
                        p as int == -na,
                ;
            } else {
                assert(p as int * d == n * da) by (nonlinear_arith)
                    requires
                        n == gi * na,
                        d == gi * da,
                        p as int == na,
                ;
            }
            assert(abs(p as int) == num_abs as nat);
        }
        Fraction { p, q: den_abs }
    }

    pub fn numerator(&self) -> (r: i64)
        ensures
            r == self.spec_p(),
    {
        self.p
    }

    pub fn denominator(&self) -> (r: i64)
        ensures
            r == self.spec_q(),
    {
        self.q
    }

    pub fn abs(&self) -> (r: Self)
        requires
            self.wf(),
        ensures
            r.wf(),
            r.spec_p() as int == abs(self.spec_p() as int),
            r.spec_q() == self.spec_q(),
    {
        Fraction { p: if self.p < 0 { -self.p } else { self.p }, q: self.q }
    }

    pub fn negate(&self) -> (r: Self)
        requires
            self.wf(),
        ensures
            r.wf(),
            r.spec_p() == -self.spec_p(),
            r.spec_q() == self.spec_q(),
    {
        Fraction { p: -self.p, q: self.q }
    }

    /// `self + other`.
    pub fn add(&self, other: &Self) -> (r: Self)
        requires
            self.wf(),
            other.wf(),
            i64::MIN <= self.spec_p() * other.spec_q() <= i64::MAX,
            i64::MIN <= other.spec_p() * self.spec_q() <= i64::MAX,
            i64::MIN < self.spec_p() * other.spec_q() + other.spec_p() * self.spec_q() <= i64::MAX,
            self.spec_q() * other.spec_q() <= i64::MAX,
        ensures
            r.wf(),
            same_ratio(
                r.spec_p() as int,
                r.spec_q() as int,
                self.spec_p() * other.spec_q() + other.spec_p() * self.spec_q(),
                self.spec_q() * other.spec_q(),
            ),
    {
        proof {
            assert(self.spec_q() * other.spec_q() > 0) by (nonlinear_arith)
                requires
                    self.spec_q() > 0,
                    other.spec_q() > 0,
            ;
        }
        let num = self.p * other.q + other.p * self.q;
        let den = self.q * other.q;
        Self::new(num, den)
    }

    /// `self - other`.
    pub fn subtract(&self, other: &Self) -> (r: Self)
        requires
            self.wf(),
            other.wf(),
            i64::MIN <= self.spec_p() * other.spec_q() <= i64::MAX,
            i64::MIN <= other.spec_p() * self.spec_q() <= i64::MAX,
            i64::MIN < self.spec_p() * other.spec_q() - other.spec_p() * self.spec_q() <= i64::MAX,
            self.spec_q() * other.spec_q() <= i64::MAX,
        ensures
            r.wf(),
            same_ratio(
                r.spec_p() as int,
                r.spec_q() as int,
                self.spec_p() * other.spec_q() - other.spec_p() * self.spec_q(),
                self.spec_q() * other.spec_q(),
            ),
    {
        proof {
            assert(self.spec_q() * other.spec_q() > 0) by (nonlinear_arith)
                requires
                    self.spec_q() > 0,
                    other.spec_q() > 0,
            ;
        }
        let num = self.p * other.q - other.p * self.q;
        let den = self.q * other.q;
        Self::new(num, den)
    }

    /// `self * other`.
    pub fn multiply(&self, other: &Self) -> (r: Self)
        requires
            self.wf(),
            other.wf(),
            i64::MIN < self.spec_p() * other.spec_p() <= i64::MAX,
            self.spec_q() * other.spec_q() <= i64::MAX,
        ensures
            r.wf(),
            same_ratio(
                r.spec_p() as int,
                r.spec_q() as int,
                self.spec_p() * other.spec_p(),
                self.spec_q() * other.spec_q(),
            ),
    {
        proof {
            assert(self.spec_q() * other.spec_q() > 0) by (nonlinear_arith)
                requires
                    self.spec_q() > 0,
                    other.spec_q() > 0,
            ;
        }
        let num = self.p * other.p;
        let den = self.q * other.q;
        Self::new(num, den)
    }

    /// `self / other`, for a non-zero `other`.
    pub fn divide(&self, other: &Self) -> (r: Self)
        requires
            self.wf(),
            other.wf(),
            other.spec_p() != 0,
            i64::MIN < self.spec_p() * other.spec_q() <= i64::MAX,
            i64::MIN < self.spec_q() * other.spec_p() <= i64::MAX,
        ensures
            r.wf(),
            same_ratio(
                r.spec_p() as int,
                r.spec_q() as int,
                self.spec_p() * other.spec_q(),
                self.spec_q() * other.spec_p(),
            ),
    {
        proof {
            assert(self.spec_q() * other.spec_p() != 0) by (nonlinear_arith)
                requires
                    self.spec_q() > 0,
                    other.spec_p() != 0,
            ;
        }
        let num = self.p * other.q;
        let den = self.q * other.p;
        Self::new(num, den)
    }

    /// The quotient rounded toward zero.
    pub fn to_i64(&self) -> (r: i64)
        requires
            self.wf(),
        ensures
            self.spec_p() >= 0 ==> r as int == self.spec_p() as int / self.spec_q() as int,
            self.spec_p() < 0 ==> r as int == -((-self.spec_p()) as int / self.spec_q() as int),
    {
        if self.p >= 0 {
            self.p / self.q
        } else {
            -((-self.p) / self.q)
        }
    }

}

/// Dividing by a non-zero fraction and multiplying back by it gives a
/// fraction of the starting value: `d` is what `x.divide(&y)` states, `m` what
/// `d.multiply(&y)` states.
pub proof fn lemma_divide_then_multiply(x: Fraction, y: Fraction, d: Fraction, m: Fraction)
    requires
        x.wf(),
        y.wf(),
        y.spec_p() != 0,
        d.wf(),
        m.wf(),
        same_ratio(
            d.spec_p() as int,
            d.spec_q() as int,
            x.spec_p() * y.spec_q(),
            x.spec_q() * y.spec_p(),
        ),
        same_ratio(
            m.spec_p() as int,
            m.spec_q() as int,
            d.spec_p() * y.spec_p(),
            d.spec_q() * y.spec_q(),
        ),
    ensures
        same_ratio(m.spec_p() as int, m.spec_q() as int, x.spec_p() as int, x.spec_q() as int),
{
    let (p, q, yp, yq) = (x.spec_p() as int, x.spec_q() as int, y.spec_p() as int, y.spec_q() as int);
    let (p1, q1, p2, q2) = (d.spec_p() as int, d.spec_q() as int, m.spec_p() as int, m.spec_q() as int);
    assert(p2 * (q1 * yq) * q == (p1 * q * yp) * q2) by (nonlinear_arith)
        requires
            p2 * (q1 * yq) == (p1 * yp) * q2,
    ;
    assert(p1 * q * yp == p * yq * q1) by (nonlinear_arith)
        requires
            p1 * (q * yp) == (p * yq) * q1,
    ;
    assert((p2 * q) * (q1 * yq) == (p * q2) * (q1 * yq)) by (nonlinear_arith)
        requires
            p2 * (q1 * yq) * q == (p1 * q * yp) * q2,
            p1 * q * yp == p * yq * q1,
    ;
    assert(q1 * yq != 0) by (nonlinear_arith)
        requires
            q1 > 0,
            yq > 0,
    ;
    assert(p2 * q == p * q2) by (nonlinear_arith)
        requires
            (p2 * q) * (q1 * yq) == (p * q2) * (q1 * yq),
            q1 * yq != 0,
    ;
}

} // verus!
