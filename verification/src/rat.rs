//! Exact rational numbers with checked 64-bit components.
//!
//! Puzzle values are rationals `num / den` with a positive denominator.
//! Arithmetic is exact; an operation whose exact result has a numerator or
//! denominator outside the `i64` range is reported as unrepresentable
//! (`None`), as is division by zero.

use vstd::prelude::*;

verus! {

/// A rational number `num / den`. Well-formed values keep `den > 0`.
#[derive(Copy, Clone, PartialEq, Eq, Structural, Debug)]
pub struct Rat {
    pub num: i64,
    pub den: i64,
}

/// Does a mathematical integer fit in `i64`?
pub open spec fn fits_i64(x: int) -> bool {
    i64::MIN <= x <= i64::MAX
}

/// The rational `n / d` if both components are representable, else `None`.
pub open spec fn rat_make(n: int, d: int) -> Option<Rat> {
    if fits_i64(n) && fits_i64(d) {
        Some(Rat { num: n as i64, den: d as i64 })
    } else {
        None
    }
}

/// Exact sum `a/b + c/d = (a*d + c*b) / (b*d)`, when representable.
pub open spec fn spec_add(x: Rat, y: Rat) -> Option<Rat> {
    rat_make(x.num * y.den + y.num * x.den, x.den * y.den)
}

/// Exact difference, when representable.
pub open spec fn spec_sub(x: Rat, y: Rat) -> Option<Rat> {
    rat_make(x.num * y.den - y.num * x.den, x.den * y.den)
}

/// Exact product, when representable.
pub open spec fn spec_mul(x: Rat, y: Rat) -> Option<Rat> {
    rat_make(x.num * y.num, x.den * y.den)
}

/// Exact quotient, when the divisor is nonzero and the result is
/// representable. The sign is moved into the numerator so that the
/// denominator stays positive.
pub open spec fn spec_div(x: Rat, y: Rat) -> Option<Rat> {
    if y.num == 0 {
        None
    } else if y.num > 0 {
        rat_make(x.num * y.den, x.den * y.num)
    } else {
        rat_make(-(x.num * y.den), -(x.den * y.num))
    }
}

impl Rat {
    /// Well-formedness: the denominator is positive.
    pub open spec fn wf(self) -> bool {
        self.den > 0
    }

    /// Two rationals denote the same value: `a/b = c/d` iff `a*d = c*b`.
    pub open spec fn eqv(self, other: Rat) -> bool {
        self.num * other.den == other.num * self.den
    }

    /// The integer `n` as a rational.
    pub fn from_int(n: i64) -> (r: Rat)
        ensures
            r == (Rat { num: n, den: 1i64 }),
            r.wf(),
    {
        Rat { num: n, den: 1 }
    }

    /// `num / den` for a positive denominator; `None` when `den <= 0`.
    pub fn new(num: i64, den: i64) -> (r: Option<Rat>)
        ensures
            den > 0 ==> r == Some(Rat { num, den }) && r->Some_0.wf(),
            den <= 0 ==> r is None,
    {
        if den > 0 {
            Some(Rat { num, den })
        } else {
            None
        }
    }

    /// Exact value equality.
    pub fn eq_val(self, other: Rat) -> (r: bool)
        ensures
            r == self.eqv(other),
    {
        let a = wide_mul(self.num, other.den);
        let b = wide_mul(other.num, self.den);
        a == b
    }

    /// Checked exact addition.
    pub fn add(self, other: Rat) -> (r: Option<Rat>)
        requires
            self.wf(),
            other.wf(),
        ensures
            r == spec_add(self, other),
            r is Some ==> r->Some_0.wf(),
    {
        let n1 = wide_mul(self.num, other.den);
        let n2 = wide_mul(other.num, self.den);
        proof {
            lemma_prod_with_pos_den(self.num as int, other.den as int);
            lemma_prod_with_pos_den(other.num as int, self.den as int);
        }
        let n = n1 + n2;
        let d = checked_den_product(self.den, other.den);
        finish_make(n, d)
    }

    /// Checked exact subtraction.
    pub fn sub(self, other: Rat) -> (r: Option<Rat>)
        requires
            self.wf(),
            other.wf(),
        ensures
            r == spec_sub(self, other),
            r is Some ==> r->Some_0.wf(),
    {
        let n1 = wide_mul(self.num, other.den);
        let n2 = wide_mul(other.num, self.den);
        proof {
            lemma_prod_with_pos_den(self.num as int, other.den as int);
            lemma_prod_with_pos_den(other.num as int, self.den as int);
        }
        let n = n1 - n2;
        let d = checked_den_product(self.den, other.den);
        finish_make(n, d)
    }

    /// Checked exact multiplication.
    pub fn mul(self, other: Rat) -> (r: Option<Rat>)
        requires
            self.wf(),
            other.wf(),
        ensures
            r == spec_mul(self, other),
            r is Some ==> r->Some_0.wf(),
    {
        let n = wide_mul(self.num, other.num);
        let d = checked_den_product(self.den, other.den);
        finish_make(n, d)
    }

    /// Checked exact division; `None` on a zero divisor.
    pub fn div(self, other: Rat) -> (r: Option<Rat>)
        requires
            self.wf(),
            other.wf(),
        ensures
            r == spec_div(self, other),
            r is Some ==> r->Some_0.wf(),
    {
        if other.num == 0 {
            return None;
        }
        let n0 = wide_mul(self.num, other.den);
        let d0 = wide_mul(self.den, other.num);
        proof {
            lemma_prod_with_pos_den(self.num as int, other.den as int);
            lemma_prod_with_pos_den(other.num as int, self.den as int);
            lemma_pos_den_product(self.den as int, other.num as int);
        }
        if other.num > 0 {
            finish_make(n0, d0)
        } else {
            finish_make(-n0, -d0)
        }
    }
}

/// The exact 128-bit product of two 64-bit integers.
fn wide_mul(x: i64, y: i64) -> (r: i128)
    ensures
        r == x * y,
        -0x40000000000000000000000000000000i128 <= r <= 0x40000000000000000000000000000000i128,
{
    proof {
        assert(x * y <= 0x40000000000000000000000000000000 && x * y
            >= -0x40000000000000000000000000000000) by (nonlinear_arith)
            requires
                -0x8000000000000000 <= x <= 0x7fffffffffffffff,
                -0x8000000000000000 <= y <= 0x7fffffffffffffff,
        ;
    }
    (x as i128) * (y as i128)
}

/// A product with a positive-denominator factor stays strictly inside
/// `2^126`, so two of them can be added or subtracted without overflow.
proof fn lemma_prod_with_pos_den(x: int, y: int)
    requires
        -0x8000000000000000 <= x <= 0x7fffffffffffffff,
        1 <= y <= 0x7fffffffffffffff,
    ensures
        -0x40000000000000000000000000000000 < x * y < 0x40000000000000000000000000000000,
{
    assert(-0x40000000000000000000000000000000 < x * y
        < 0x40000000000000000000000000000000) by (nonlinear_arith)
        requires
            -0x8000000000000000 <= x <= 0x7fffffffffffffff,
            1 <= y <= 0x7fffffffffffffff,
    ;
}

/// A product of a positive and a nonzero factor is nonzero, with the sign of
/// the nonzero factor.
proof fn lemma_pos_den_product(d: int, q: int)
    requires
        d >= 1,
    ensures
        q > 0 ==> d * q > 0,
        q < 0 ==> d * q < 0,
{
    assert((q > 0 ==> d * q > 0) && (q < 0 ==> d * q < 0)) by (nonlinear_arith)
        requires
            d >= 1,
    ;
}

/// The product of two positive denominators, exactly, in 128 bits.
fn checked_den_product(a: i64, b: i64) -> (r: i128)
    requires
        a >= 1,
        b >= 1,
    ensures
        r == a * b,
        r >= 1,
{
    proof {
        lemma_pos_den_product(a as int, b as int);
    }
    wide_mul(a, b)
}

/// Narrow an exact numerator/denominator pair back to `i64` components.
fn finish_make(n: i128, d: i128) -> (r: Option<Rat>)
    requires
        d >= 1,
    ensures
        r == rat_make(n as int, d as int),
        r is Some ==> r->Some_0.wf(),
{
    if n >= i64::MIN as i128 && n <= i64::MAX as i128 && d <= i64::MAX as i128 {
        Some(Rat { num: n as i64, den: d as i64 })
    } else {
        None
    }
}

} // verus!
