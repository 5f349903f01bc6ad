//! Exact rational numbers: the value domain for bin centers, bin widths and
//! the statistics computed from a histogram.

use vstd::prelude::*;

verus! {

/// An exact rational number `num / den` with `den > 0`.
///
/// Keeping numerator and denominator apart avoids any rounding while a
/// histogram is built, so contracts can pin results down exactly.
#[derive(Clone, Copy, Debug, PartialEq, Eq, Structural)]
pub struct Frac {
    pub num: i128,
    pub den: i128,
}

/// Multiplying both sides of an inequality by a non-negative factor.
pub proof fn lemma_mul_le(a: int, b: int, c: int)
    by (nonlinear_arith)
    requires
        a <= b,
        0 <= c,
    ensures
        a * c <= b * c,
        c * a <= c * b,
{
}

/// `|a * b| <= aa * bb` whenever `|a| <= aa` and `|b| <= bb`.
pub proof fn lemma_mul_bound(a: int, b: int, aa: int, bb: int)
    by (nonlinear_arith)
    requires
        -aa <= a <= aa,
        -bb <= b <= bb,
        0 <= aa,
        0 <= bb,
    ensures
        -(aa * bb) <= a * b <= aa * bb,
        -(aa * bb) <= b * a <= aa * bb,
{
}

impl Frac {
    /// A rational is well formed when its denominator is positive.
    pub open spec fn wf(self) -> bool {
        self.den > 0
    }

    /// Magnitudes small enough that cross multiplication stays within `i128`.
    pub open spec fn bounded(self) -> bool {
        &&& -0x8000_0000_0000_0000 <= self.num < 0x8000_0000_0000_0000
        &&& 0 < self.den < 0x8000_0000_0000_0000
    }

    /// `self` denotes a strictly smaller rational value than `other`.
    pub open spec fn lt_value(self, other: Frac) -> bool {
        self.num * other.den < other.num * self.den
    }

    pub fn new(num: i64, den: i64) -> (r: Frac)
        requires
            den > 0,
        ensures
            r.num == num,
            r.den == den,
            r.wf(),
            r.bounded(),
    {
        Frac { num: num as i128, den: den as i128 }
    }

    /// Exact strict comparison by cross multiplication.
    pub fn lt(&self, other: &Frac) -> (r: bool)
        requires
            self.bounded(),
            other.bounded(),
        ensures
            r == self.lt_value(*other),
    {
        proof {
            lemma_mul_bound(self.num as int, other.den as int,
                0x8000_0000_0000_0000, 0x8000_0000_0000_0000);
            lemma_mul_bound(other.num as int, self.den as int,
                0x8000_0000_0000_0000, 0x8000_0000_0000_0000);
        }
        self.num * other.den < other.num * self.den
    }
}

} // verus!
