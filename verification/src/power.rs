//! Powers of a double with an integer exponent.

use crate::double::{lemma_one, Double, ONE_BITS};
use crate::order::{
    lemma_rounded_exact,
    lemma_rounded_monotone,
    lemma_times,
    lemma_unit,
};
use vstd::arithmetic::power2::{lemma_pow2_pos, pow2};
use vstd::prelude::*;

verus! {

/// `r` times the power of `x` with the exponent `n`, taken by repeated
/// squaring, each product rounded.
pub open spec fn raised(r: Double, x: Double, n: nat) -> Double
    decreases n,
{
    if n == 0 {
        r
    } else {
        raised(
            if n % 2 == 1 {
                r.times(x)
            } else {
                r
            },
            x.times(x),
            n / 2,
        )
    }
}

impl Double {
    /// The power with the exponent `n`; a negative exponent gives the
    /// reciprocal of the power with the opposite exponent.
    pub open spec fn power(self, n: int) -> Double {
        let one = Double { bits: ONE_BITS };
        if n < 0 {
            one.over(raised(one, self, (-n) as nat))
        } else {
            raised(one, self, n as nat)
        }
    }

    /// The power with the exponent `n`.
    pub fn powi(self, n: i32) -> (r: Double)
        ensures
            r == self.power(n as int),
    {
        let mut k: u32 = if n < 0 {
            (0 - n as i64) as u32
        } else {
            n as u32
        };
        let mut x = self;
        let mut r = Double::one();
        while k > 0
            invariant
                raised(r, x, k as nat) == raised(
                    Double { bits: ONE_BITS },
                    self,
                    (if n < 0 {
                        -n
                    } else {
                        n as int
                    }) as nat,
                ),
            decreases k,
        {
            if k % 2 == 1 {
                r = r.mul(x);
            }
            x = x.mul(x);
            k = k / 2;
        }
        if n < 0 {
            Double::one().div(r)
        } else {
            r
        }
    }
}

/// The product of two numbers between zero and one lies there too, and is not
/// more than either.
proof fn lemma_product(x: Double, y: Double)
    requires
        x.in_unit(),
        y.in_unit(),
    ensures
        x.times(y).in_unit(),
        x.times(y).up_to(x),
        x.times(y).up_to(y),
{
    let zero = Double { bits: 0 };
    let w = pow2(1074) as int;
    lemma_pow2_pos(1074);
    lemma_unit(x);
    lemma_unit(y);
    lemma_times(x, y);
    let (a, b) = (x.value(), y.value());
    assert(0 * w <= a * b && a * b <= a * w && a * b <= b * w) by (nonlinear_arith)
        requires
            0 <= a <= w,
            0 <= b <= w,
    ;
    lemma_rounded_monotone(0 * w, a * b, w);
    lemma_rounded_monotone(a * b, a * w, w);
    lemma_rounded_monotone(a * b, b * w, w);
    lemma_rounded_exact(zero, w);
    lemma_rounded_exact(x, w);
    lemma_rounded_exact(y, w);
}

/// Larger factors between zero and one have a product that is not smaller.
proof fn lemma_larger_product(x: Double, y: Double, u: Double, v: Double)
    requires
        x.in_unit(),
        y.in_unit(),
        u.in_unit(),
        v.in_unit(),
        x.up_to(u),
        y.up_to(v),
    ensures
        x.times(y).up_to(u.times(v)),
{
    let w = pow2(1074) as int;
    lemma_pow2_pos(1074);
    lemma_unit(x);
    lemma_unit(y);
    lemma_unit(u);
    lemma_unit(v);
    lemma_times(x, y);
    lemma_times(u, v);
    let (a, b, c, d) = (x.value(), y.value(), u.value(), v.value());
    assert(a * b <= c * d) by (nonlinear_arith)
        requires
            0 <= a <= c,
            0 <= b <= d,
    ;
    lemma_rounded_monotone(a * b, c * d, w);
}

/// A power of a number between zero and one lies there too. It is not more than
/// what it begins with, and not more than the number itself unless the exponent
/// is zero.
pub proof fn lemma_raised(r: Double, x: Double, n: nat)
    requires
        r.in_unit(),
        x.in_unit(),
    ensures
        raised(r, x, n).in_unit(),
        raised(r, x, n).up_to(r),
        n > 0 ==> raised(r, x, n).up_to(x),
    decreases n,
{
    if n > 0 {
        lemma_product(r, x);
        lemma_product(x, x);
        lemma_raised(
            if n % 2 == 1 {
                r.times(x)
            } else {
                r
            },
            x.times(x),
            n / 2,
        );
    }
}

/// A power of a larger number between zero and one is not smaller.
pub proof fn lemma_raised_order(r: Double, x: Double, s: Double, y: Double, n: nat)
    requires
        r.in_unit(),
        x.in_unit(),
        s.in_unit(),
        y.in_unit(),
        r.up_to(s),
        x.up_to(y),
    ensures
        raised(r, x, n).up_to(raised(s, y, n)),
    decreases n,
{
    if n > 0 {
        lemma_product(r, x);
        lemma_product(s, y);
        lemma_product(x, x);
        lemma_product(y, y);
        lemma_larger_product(r, x, s, y);
        lemma_larger_product(x, x, y, y);
        if n % 2 == 1 {
            lemma_raised_order(r.times(x), x.times(x), s.times(y), y.times(y), n / 2);
        } else {
            lemma_raised_order(r, x.times(x), s, y.times(y), n / 2);
        }
    }
}

/// Every power of one is one.
pub proof fn lemma_raised_one(r: Double, x: Double, n: nat)
    requires
        r.equals(Double { bits: ONE_BITS }),
        x.equals(Double { bits: ONE_BITS }),
    ensures
        raised(r, x, n).equals(Double { bits: ONE_BITS }),
    decreases n,
{
    let one = Double { bits: ONE_BITS };
    let w = pow2(1074) as int;
    if n > 0 {
        lemma_one();
        lemma_pow2_pos(1074);
        lemma_unit(r);
        lemma_unit(x);
        lemma_times(r, x);
        lemma_times(x, x);
        lemma_rounded_exact(one, w);
        lemma_raised_one(
            if n % 2 == 1 {
                r.times(x)
            } else {
                r
            },
            x.times(x),
            n / 2,
        );
    }
}

} // verus!
