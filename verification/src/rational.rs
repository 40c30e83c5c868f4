use vstd::prelude::*;

verus! {

/// The mathematical value of a rational: a numerator and a positive
/// denominator, both unbounded integers.  Contracts speak of these values;
/// the executable `Rational` below carries a bounded representation of one.
pub ghost struct RatVal {
    pub num: int,
    pub den: int,
}

/// An exact rational number with a positive denominator.  Numeric literals
/// lex to `digits / 10^k`; the evaluator keeps results exact and reports
/// overflow instead of rounding.  Two rationals are equal as values of this
/// type when they have the same representation, not merely the same quotient.
#[derive(Clone, Copy, Debug, PartialEq, Eq, Structural)]
pub struct Rational {
    pub num: i64,
    pub den: i64,
}

impl View for Rational {
    type V = RatVal;

    open spec fn view(&self) -> RatVal {
        RatVal { num: self.num as int, den: self.den as int }
    }
}

/// Sum of two rationals, on the common denominator (no reduction).
pub open spec fn rat_add(a: RatVal, b: RatVal) -> RatVal {
    RatVal { num: a.num * b.den + b.num * a.den, den: a.den * b.den }
}

/// Difference of two rationals, on the common denominator (no reduction).
pub open spec fn rat_sub(a: RatVal, b: RatVal) -> RatVal {
    RatVal { num: a.num * b.den - b.num * a.den, den: a.den * b.den }
}

/// Product of two rationals (no reduction).
pub open spec fn rat_mul(a: RatVal, b: RatVal) -> RatVal {
    RatVal { num: a.num * b.num, den: a.den * b.den }
}

/// Quotient of two rationals, with the sign carried by the numerator so that
/// the denominator stays positive.  Meaningful only when `b.num != 0`.
pub open spec fn rat_div(a: RatVal, b: RatVal) -> RatVal {
    if b.num >= 0 {
        RatVal { num: a.num * b.den, den: a.den * b.num }
    } else {
        RatVal { num: -(a.num * b.den), den: a.den * -b.num }
    }
}

/// Negation of a rational.
pub open spec fn rat_neg(a: RatVal) -> RatVal {
    RatVal { num: -a.num, den: a.den }
}

/// Whether a rational value is representable as a `Rational`.
pub open spec fn rat_fits(a: RatVal) -> bool {
    i64::MIN <= a.num <= i64::MAX && 1 <= a.den <= i64::MAX
}

proof fn lemma_mul_bound(x: int, y: int, b: int, c: int)
    requires
        -b <= x <= b,
        -c <= y <= c,
        0 <= b,
        0 <= c,
    ensures
        -(b * c) <= x * y <= b * c,
{
    assert(-(b * c) <= x * y <= b * c) by (nonlinear_arith)
        requires
            -b <= x <= b,
            -c <= y <= c,
            0 <= b,
            0 <= c,
    ;
}

proof fn lemma_mul_pos(x: int, y: int)
    requires
        x >= 1,
        y >= 1,
    ensures
        x * y >= 1,
{
    assert(x * y >= 1) by (nonlinear_arith)
        requires
            x >= 1,
            y >= 1,
    ;
}

impl Rational {
    /// Well-formed: the denominator is positive.
    pub open spec fn wf(self) -> bool {
        self.den >= 1
    }

    /// Range-checks an exactly computed value and narrows it back to `i64`.
    fn bounded(num: i128, den: i128) -> (r: Option<Rational>)
        requires
            den >= 1,
        ensures
            match r {
                Some(v) => rat_fits(RatVal { num: num as int, den: den as int }) && v.num == num
                    && v.den == den && v.wf(),
                None => !rat_fits(RatVal { num: num as int, den: den as int }),
            },
    {
        if num >= i64::MIN as i128 && num <= i64::MAX as i128 && den <= i64::MAX as i128 {
            Some(Rational { num: num as i64, den: den as i64 })
        } else {
            None
        }
    }

    pub fn checked_add(&self, other: &Rational) -> (r: Option<Rational>)
        requires
            self.wf(),
            other.wf(),
        ensures
            match r {
                Some(v) => rat_fits(rat_add(self@, other@)) && v@ == rat_add(self@, other@)
                    && v.wf(),
                None => !rat_fits(rat_add(self@, other@)),
            },
    {
        proof {
            lemma_mul_bound(self.num as int, other.den as int, 0x8000_0000_0000_0000, 0x7fff_ffff_ffff_ffff);
            lemma_mul_bound(other.num as int, self.den as int, 0x8000_0000_0000_0000, 0x7fff_ffff_ffff_ffff);
            lemma_mul_bound(self.den as int, other.den as int, 0x8000_0000_0000_0000, 0x8000_0000_0000_0000);
            lemma_mul_pos(self.den as int, other.den as int);
        }
        let n: i128 = (self.num as i128) * (other.den as i128) + (other.num as i128) * (self.den
            as i128);
        let d: i128 = (self.den as i128) * (other.den as i128);
        Self::bounded(n, d)
    }

    pub fn checked_sub(&self, other: &Rational) -> (r: Option<Rational>)
        requires
            self.wf(),
            other.wf(),
        ensures
            match r {
                Some(v) => rat_fits(rat_sub(self@, other@)) && v@ == rat_sub(self@, other@)
                    && v.wf(),
                None => !rat_fits(rat_sub(self@, other@)),
            },
    {
        proof {
            lemma_mul_bound(self.num as int, other.den as int, 0x8000_0000_0000_0000, 0x7fff_ffff_ffff_ffff);
            lemma_mul_bound(other.num as int, self.den as int, 0x8000_0000_0000_0000, 0x7fff_ffff_ffff_ffff);
            lemma_mul_bound(self.den as int, other.den as int, 0x8000_0000_0000_0000, 0x8000_0000_0000_0000);
            lemma_mul_pos(self.den as int, other.den as int);
        }
        let n: i128 = (self.num as i128) * (other.den as i128) - (other.num as i128) * (self.den
            as i128);
        let d: i128 = (self.den as i128) * (other.den as i128);
        Self::bounded(n, d)
    }

    pub fn checked_mul(&self, other: &Rational) -> (r: Option<Rational>)
        requires
            self.wf(),
            other.wf(),
        ensures
            match r {
                Some(v) => rat_fits(rat_mul(self@, other@)) && v@ == rat_mul(self@, other@)
                    && v.wf(),
                None => !rat_fits(rat_mul(self@, other@)),
            },
    {
        proof {
            lemma_mul_bound(self.num as int, other.num as int, 0x8000_0000_0000_0000, 0x8000_0000_0000_0000);
            lemma_mul_bound(self.den as int, other.den as int, 0x8000_0000_0000_0000, 0x8000_0000_0000_0000);
            lemma_mul_pos(self.den as int, other.den as int);
        }
        let n: i128 = (self.num as i128) * (other.num as i128);
        let d: i128 = (self.den as i128) * (other.den as i128);
        Self::bounded(n, d)
    }

    pub fn checked_div(&self, other: &Rational) -> (r: Option<Rational>)
        requires
            self.wf(),
            other.wf(),
            other@.num != 0,
        ensures
            match r {
                Some(v) => rat_fits(rat_div(self@, other@)) && v@ == rat_div(self@, other@)
                    && v.wf(),
                None => !rat_fits(rat_div(self@, other@)),
            },
    {
        proof {
            lemma_mul_bound(self.num as int, other.den as int, 0x8000_0000_0000_0000, 0x8000_0000_0000_0000);
            lemma_mul_bound(self.den as int, other.num as int, 0x8000_0000_0000_0000, 0x8000_0000_0000_0000);
        }
        let n: i128 = (self.num as i128) * (other.den as i128);
        if other.num > 0 {
            proof {
                lemma_mul_pos(self.den as int, other.num as int);
            }
            let d: i128 = (self.den as i128) * (other.num as i128);
            Self::bounded(n, d)
        } else {
            proof {
                lemma_mul_pos(self.den as int, -(other.num as int));
                lemma_mul_bound(self.den as int, -(other.num as int), 0x8000_0000_0000_0000, 0x8000_0000_0000_0000);
            }
            let d: i128 = (self.den as i128) * (-(other.num as i128));
            Self::bounded(-n, d)
        }
    }

    pub fn checked_neg(&self) -> (r: Option<Rational>)
        requires
            self.wf(),
        ensures
            match r {
                Some(v) => rat_fits(rat_neg(self@)) && v@ == rat_neg(self@) && v.wf(),
                None => !rat_fits(rat_neg(self@)),
            },
    {
        if self.num == i64::MIN {
            None
        } else {
            Some(Rational { num: -self.num, den: self.den })
        }
    }
}

} // verus!
