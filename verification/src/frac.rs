//! Exact rational fractions used to locate crossing points along a line
//! segment.
//!
//! Every fraction the library ever produces comes from a single division of
//! two cross products of bounded integer coordinates, so numerators and
//! denominators are provably bounded and all comparisons can be carried out
//! exactly in `i128` arithmetic, with no rounding anywhere.

use vstd::prelude::*;

verus! {

/// Largest magnitude allowed for a fraction's numerator and denominator.
/// Cross products of coordinate differences stay below this bound
/// (`2 * (2 * MAX_COORD)^2` with `MAX_COORD = 2^28` gives `2^59`).
pub const FRAC_BOUND: i128 = 576460752303423488;

/// An exact rational number `n / d` with `d > 0`.
///
/// Fractions are not reduced to lowest terms; all comparisons are by exact
/// cross multiplication, which cannot overflow thanks to the bound carried
/// by [`Frac::wf`].
#[derive(Clone, Copy, Debug)]
pub struct Frac {
    /// Numerator.
    pub n: i128,
    /// Denominator; always positive.
    pub d: i128,
}

impl Frac {
    /// Well-formedness: positive denominator, both parts bounded so that
    /// cross multiplication fits comfortably in `i128`.
    pub open spec fn wf(self) -> bool {
        0 < self.d <= FRAC_BOUND && -FRAC_BOUND <= self.n <= FRAC_BOUND
    }

    /// The exact value `a <= b` over the rationals (valid when both
    /// denominators are positive).
    pub open spec fn spec_le(self, other: Frac) -> bool {
        self.n * other.d <= other.n * self.d
    }

    /// The exact value `a < b` over the rationals.
    pub open spec fn spec_lt(self, other: Frac) -> bool {
        self.n * other.d < other.n * self.d
    }

    /// The two fractions denote the same rational number.
    pub open spec fn same_value(self, other: Frac) -> bool {
        self.n * other.d == other.n * self.d
    }

    /// The rational number zero.
    pub fn zero() -> (r: Frac)
        ensures
            r.n == 0,
            r.d == 1,
            r.wf(),
    {
        Frac { n: 0, d: 1 }
    }

    /// The rational number one.
    pub fn one() -> (r: Frac)
        ensures
            r.n == 1,
            r.d == 1,
            r.wf(),
    {
        Frac { n: 1, d: 1 }
    }

    /// Exact comparison `self <= other` by cross multiplication.
    pub fn le(&self, other: &Frac) -> (r: bool)
        requires
            self.wf(),
            other.wf(),
        ensures
            r == self.spec_le(*other),
    {
        proof {
            lemma_mul_bound(self.n as int, other.d as int, FRAC_BOUND as int);
            lemma_mul_bound(other.n as int, self.d as int, FRAC_BOUND as int);
        }
        self.n * other.d <= other.n * self.d
    }

    /// Exact comparison `self < other` by cross multiplication.
    pub fn lt(&self, other: &Frac) -> (r: bool)
        requires
            self.wf(),
            other.wf(),
        ensures
            r == self.spec_lt(*other),
    {
        proof {
            lemma_mul_bound(self.n as int, other.d as int, FRAC_BOUND as int);
            lemma_mul_bound(other.n as int, self.d as int, FRAC_BOUND as int);
        }
        self.n * other.d < other.n * self.d
    }

    /// Exact equality of values (the representations may differ).
    pub fn eq_value(&self, other: &Frac) -> (r: bool)
        requires
            self.wf(),
            other.wf(),
        ensures
            r == self.same_value(*other),
    {
        proof {
            lemma_mul_bound(self.n as int, other.d as int, FRAC_BOUND as int);
            lemma_mul_bound(other.n as int, self.d as int, FRAC_BOUND as int);
        }
        self.n * other.d == other.n * self.d
    }

    /// The larger of the two fractions (by value; returns `self` on ties).
    pub fn max(&self, other: &Frac) -> (r: Frac)
        requires
            self.wf(),
            other.wf(),
        ensures
            r.wf(),
            r == if self.spec_lt(*other) { *other } else { *self },
            !r.spec_lt(*self) && !r.spec_lt(*other),
    {
        proof {
            lemma_frac_order(*self, *other);
        }
        if self.lt(other) {
            *other
        } else {
            *self
        }
    }

    /// The smaller of the two fractions (by value; returns `self` on ties).
    pub fn min(&self, other: &Frac) -> (r: Frac)
        requires
            self.wf(),
            other.wf(),
        ensures
            r.wf(),
            r == if other.spec_lt(*self) { *other } else { *self },
            !self.spec_lt(r) && !other.spec_lt(r),
    {
        proof {
            lemma_frac_order(*self, *other);
        }
        if other.lt(self) {
            *other
        } else {
            *self
        }
    }
}

/// `|a| <= m` and `|b| <= m` imply the product fits within `m * m`.
pub proof fn lemma_mul_bound(a: int, b: int, m: int)
    requires
        -m <= a <= m,
        -m <= b <= m,
        0 <= m,
    ensures
        -(m * m) <= a * b <= m * m,
{
    assert(-(m * m) <= a * b <= m * m) by (nonlinear_arith)
        requires
            -m <= a <= m,
            -m <= b <= m,
            0 <= m,
    ;
}

/// Basic order facts relating `spec_lt` and `spec_le` for well-formed
/// fractions: trichotomy and antisymmetry.
pub proof fn lemma_frac_order(a: Frac, b: Frac)
    requires
        a.wf(),
        b.wf(),
    ensures
        a.spec_le(b) <==> !b.spec_lt(a),
        a.spec_lt(b) <==> !b.spec_le(a),
{
}

/// Transitivity of the exact rational order for positive denominators.
pub proof fn lemma_frac_le_trans(a: Frac, b: Frac, c: Frac)
    requires
        a.wf(),
        b.wf(),
        c.wf(),
        a.spec_le(b),
        b.spec_le(c),
    ensures
        a.spec_le(c),
{
    assert(a.n * c.d <= c.n * a.d) by (nonlinear_arith)
        requires
            a.n * b.d <= b.n * a.d,
            b.n * c.d <= c.n * b.d,
            a.d > 0,
            b.d > 0,
            c.d > 0,
    ;
}

/// Transitivity of the strict order against the weak order.
pub proof fn lemma_frac_lt_le_trans(a: Frac, b: Frac, c: Frac)
    requires
        a.wf(),
        b.wf(),
        c.wf(),
        a.spec_lt(b),
        b.spec_le(c),
    ensures
        a.spec_lt(c),
{
    assert(a.n * c.d < c.n * a.d) by (nonlinear_arith)
        requires
            a.n * b.d < b.n * a.d,
            b.n * c.d <= c.n * b.d,
            a.d > 0,
            b.d > 0,
            c.d > 0,
    ;
}

/// Transitivity of the weak order against the strict order.
pub proof fn lemma_frac_le_lt_trans(a: Frac, b: Frac, c: Frac)
    requires
        a.wf(),
        b.wf(),
        c.wf(),
        a.spec_le(b),
        b.spec_lt(c),
    ensures
        a.spec_lt(c),
{
    assert(a.n * c.d < c.n * a.d) by (nonlinear_arith)
        requires
            a.n * b.d <= b.n * a.d,
            b.n * c.d < c.n * b.d,
            a.d > 0,
            b.d > 0,
            c.d > 0,
    ;
}

} // verus!
