use vstd::prelude::*;

verus! {

/// Largest numerator or denominator of a measured fraction, so that two
/// fractions multiply, and two products compare, without overflow.
pub const MAX_TERM: u64 = 0xffff_ffff;

/// An exact ratio `numerator / denominator` in `[0, 1]`, such as the
/// accuracy of an interpretation or the coherence of two informations.
#[derive(Clone, Copy, Debug, PartialEq, Eq, Structural)]
pub struct Fraction {
    pub numerator: u64,
    pub denominator: u64,
}

impl Fraction {
    /// A ratio between zero and one with bounded terms.
    pub open spec fn wf(self) -> bool {
        0 < self.denominator <= MAX_TERM && self.numerator <= self.denominator
    }

    /// Bounded terms, as products of two well-formed fractions have.
    pub open spec fn wf_product(self) -> bool {
        0 < self.denominator <= MAX_TERM * MAX_TERM && self.numerator <= MAX_TERM * MAX_TERM
    }

    /// A positive denominator and terms within `MAX_TERM`, whatever the
    /// value.
    pub open spec fn bounded(self) -> bool {
        0 < self.denominator <= MAX_TERM && self.numerator <= MAX_TERM
    }

    /// `self >= other` as rational numbers.
    pub open spec fn spec_ge(self, other: Fraction) -> bool {
        self.numerator * other.denominator >= other.numerator * self.denominator
    }

    pub fn new(numerator: u64, denominator: u64) -> (r: Fraction)
        ensures
            r.numerator == numerator,
            r.denominator == denominator,
    {
        Fraction { numerator, denominator }
    }

    /// Whether `self >= other` as rational numbers.
    pub fn at_least(&self, other: &Fraction) -> (r: bool)
        requires
            self.wf_product(),
            other.wf_product(),
        ensures
            r == self.spec_ge(*other),
    {
        let ghost m: int = 0xffff_fffe_0000_0001;
        assert(MAX_TERM * MAX_TERM == m);
        assert(self.numerator * other.denominator <= m * m) by (nonlinear_arith)
            requires
                0 <= self.numerator <= m,
                0 <= other.denominator <= m,
        ;
        assert(other.numerator * self.denominator <= m * m) by (nonlinear_arith)
            requires
                0 <= other.numerator <= m,
                0 <= self.denominator <= m,
        ;
        assert(m * m < 0x1_0000_0000_0000_0000_0000_0000_0000_0000) by (nonlinear_arith)
            requires
                m == 0xffff_fffe_0000_0001int,
        ;
        self.numerator as u128 * other.denominator as u128 >= other.numerator as u128
            * self.denominator as u128
    }

    /// The product of two fractions, term by term.
    pub fn times(&self, other: &Fraction) -> (r: Fraction)
        requires
            self.wf(),
            other.wf(),
        ensures
            r.numerator == self.numerator * other.numerator,
            r.denominator == self.denominator * other.denominator,
            r.wf_product(),
    {
        assert(MAX_TERM * MAX_TERM == 0xffff_fffe_0000_0001);
        assert(0 <= self.numerator * other.numerator <= self.denominator * other.denominator
            <= 0xffff_fffe_0000_0001) by (nonlinear_arith)
            requires
                0 <= self.numerator <= self.denominator <= 0xffff_ffff,
                0 <= other.numerator <= other.denominator <= 0xffff_ffff,
        ;
        assert(self.denominator * other.denominator > 0) by (nonlinear_arith)
            requires
                self.denominator > 0,
                other.denominator > 0,
        ;
        Fraction {
            numerator: self.numerator * other.numerator,
            denominator: self.denominator * other.denominator,
        }
    }
}

} // verus!
