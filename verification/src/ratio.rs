//! Exact rational ray parameters.
//!
//! A distance along a ray is kept as a fraction of two machine integers with
//! a positive denominator. Fractions are never reduced: two of them denote
//! the same distance when their cross products agree.

use vstd::prelude::*;

verus! {

/// A fraction `num / den`.
#[derive(Clone, Copy, Debug, PartialEq, Eq, Structural)]
pub struct Ratio {
    pub num: i64,
    pub den: i64,
}

/// The product of two integers stays within the product of their bounds.
pub proof fn lemma_product_bound(a: int, b: int, ba: int, bb: int)
    requires
        -ba <= a <= ba,
        -bb <= b <= bb,
    ensures
        -(ba * bb) <= a * b <= ba * bb,
{
    assert(-(ba * bb) <= a * b <= ba * bb) by (nonlinear_arith)
        requires
            -ba <= a <= ba,
            -bb <= b <= bb,
    ;
}

impl Ratio {
    /// The denominator is positive.
    pub open spec fn wf(self) -> bool {
        self.den > 0
    }

    /// `self <= other` as rational numbers.
    pub open spec fn le(self, other: Ratio) -> bool {
        self.num * other.den <= other.num * self.den
    }

    /// `self < other` as rational numbers.
    pub open spec fn lt(self, other: Ratio) -> bool {
        self.num * other.den < other.num * self.den
    }

    /// `self` and `other` denote the same rational number.
    pub open spec fn same(self, other: Ratio) -> bool {
        self.num * other.den == other.num * self.den
    }

    /// The larger of two fractions; `other` on a tie.
    pub open spec fn spec_max(self, other: Ratio) -> Ratio {
        if self.le(other) {
            other
        } else {
            self
        }
    }

    /// The smaller of two fractions; `other` on a tie.
    pub open spec fn spec_min(self, other: Ratio) -> Ratio {
        if other.le(self) {
            other
        } else {
            self
        }
    }

    /// The fraction `n / 1`.
    pub open spec fn spec_from_int(n: i64) -> Ratio {
        Ratio { num: n, den: 1 }
    }

    pub fn new(num: i64, den: i64) -> (r: Ratio)
        requires
            den > 0,
        ensures
            r == (Ratio { num, den }),
            r.wf(),
    {
        Ratio { num, den }
    }

    pub fn from_int(n: i64) -> (r: Ratio)
        ensures
            r == Ratio::spec_from_int(n),
            r.wf(),
    {
        Ratio { num: n, den: 1 }
    }

    /// Zero.
    pub fn zero() -> (r: Ratio)
        ensures
            r == Ratio::spec_from_int(0),
            r.wf(),
    {
        Ratio { num: 0, den: 1 }
    }

    /// The largest fraction this type can hold.
    pub fn max_value() -> (r: Ratio)
        ensures
            r == Ratio::spec_from_int(i64::MAX),
            r.wf(),
    {
        Ratio { num: i64::MAX, den: 1 }
    }

    /// The cross product `self.num * other.den`, which always fits.
    fn cross(self, other: Ratio) -> (p: i128)
        requires
            other.wf(),
        ensures
            p == self.num * other.den,
    {
        proof {
            lemma_product_bound(
                self.num as int,
                other.den as int,
                0x8000_0000_0000_0000,
                0x8000_0000_0000_0000,
            );
        }
        (self.num as i128) * (other.den as i128)
    }

    pub fn is_le(self, other: Ratio) -> (b: bool)
        requires
            self.wf(),
            other.wf(),
        ensures
            b == self.le(other),
    {
        self.cross(other) <= other.cross(self)
    }

    pub fn is_lt(self, other: Ratio) -> (b: bool)
        requires
            self.wf(),
            other.wf(),
        ensures
            b == self.lt(other),
    {
        self.cross(other) < other.cross(self)
    }

    pub fn is_same(self, other: Ratio) -> (b: bool)
        requires
            self.wf(),
            other.wf(),
        ensures
            b == self.same(other),
    {
        self.cross(other) == other.cross(self)
    }

    pub fn max(self, other: Ratio) -> (r: Ratio)
        requires
            self.wf(),
            other.wf(),
        ensures
            r == self.spec_max(other),
            r.wf(),
    {
        if self.is_le(other) {
            other
        } else {
            self
        }
    }

    pub fn min(self, other: Ratio) -> (r: Ratio)
        requires
            self.wf(),
            other.wf(),
        ensures
            r == self.spec_min(other),
            r.wf(),
    {
        if other.is_le(self) {
            other
        } else {
            self
        }
    }

    /// Any two fractions are comparable.
    pub proof fn lemma_total(a: Ratio, b: Ratio)
        ensures
            a.le(b) || b.lt(a),
            a.lt(b) ==> a.le(b),
            a.le(b) && b.le(a) <==> a.same(b),
            a.le(a),
    {
    }

    /// The order on fractions is transitive.
    pub proof fn lemma_le_trans(a: Ratio, b: Ratio, c: Ratio)
        requires
            a.wf(),
            b.wf(),
            c.wf(),
            a.le(b),
            b.le(c),
        ensures
            a.le(c),
    {
        let (an, ad) = (a.num as int, a.den as int);
        let (bn, bd) = (b.num as int, b.den as int);
        let (cn, cd) = (c.num as int, c.den as int);
        assert((an * bd) * cd <= (bn * ad) * cd) by (nonlinear_arith)
            requires
                an * bd <= bn * ad,
                cd > 0,
        ;
        assert((bn * cd) * ad <= (cn * bd) * ad) by (nonlinear_arith)
            requires
                bn * cd <= cn * bd,
                ad > 0,
        ;
        assert(an * cd <= cn * ad) by (nonlinear_arith)
            requires
                (an * bd) * cd <= (bn * ad) * cd,
                (bn * cd) * ad <= (cn * bd) * ad,
                bd > 0,
        ;
    }

    /// A strict step followed by a weak one is strict.
    pub proof fn lemma_lt_le_trans(a: Ratio, b: Ratio, c: Ratio)
        requires
            a.wf(),
            b.wf(),
            c.wf(),
            a.lt(b),
            b.le(c),
        ensures
            a.lt(c),
    {
        let (an, ad) = (a.num as int, a.den as int);
        let (bn, bd) = (b.num as int, b.den as int);
        let (cn, cd) = (c.num as int, c.den as int);
        assert((an * bd) * cd < (bn * ad) * cd) by (nonlinear_arith)
            requires
                an * bd < bn * ad,
                cd > 0,
        ;
        assert((bn * cd) * ad <= (cn * bd) * ad) by (nonlinear_arith)
            requires
                bn * cd <= cn * bd,
                ad > 0,
        ;
        assert(an * cd < cn * ad) by (nonlinear_arith)
            requires
                (an * bd) * cd < (bn * ad) * cd,
                (bn * cd) * ad <= (cn * bd) * ad,
                bd > 0,
        ;
    }

    /// A weak step followed by a strict one is strict.
    pub proof fn lemma_le_lt_trans(a: Ratio, b: Ratio, c: Ratio)
        requires
            a.wf(),
            b.wf(),
            c.wf(),
            a.le(b),
            b.lt(c),
        ensures
            a.lt(c),
    {
        let (an, ad) = (a.num as int, a.den as int);
        let (bn, bd) = (b.num as int, b.den as int);
        let (cn, cd) = (c.num as int, c.den as int);
        assert((an * bd) * cd <= (bn * ad) * cd) by (nonlinear_arith)
            requires
                an * bd <= bn * ad,
                cd > 0,
        ;
        assert((bn * cd) * ad < (cn * bd) * ad) by (nonlinear_arith)
            requires
                bn * cd < cn * bd,
                ad > 0,
        ;
        assert(an * cd < cn * ad) by (nonlinear_arith)
            requires
                (an * bd) * cd <= (bn * ad) * cd,
                (bn * cd) * ad < (cn * bd) * ad,
                bd > 0,
        ;
    }
}

} // verus!
