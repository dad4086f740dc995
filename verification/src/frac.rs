//! Exact rational coordinates and their checked arithmetic.
//!
//! A coordinate is a fraction `num / den` of 64-bit integers with a positive
//! denominator. The ghost type [`Rat`] is the same fraction with unbounded
//! integer components; it is the model over which every contract of this crate
//! speaks. Executable operations compute the exact unreduced fraction of the
//! mathematical result and report `None` when one of its components falls
//! outside the representable range.

use vstd::prelude::*;

verus! {

/// The mathematical model of a fraction: numerator and denominator as
/// unbounded integers. Well-formed values have a positive denominator.
pub ghost struct Rat {
    pub n: int,
    pub d: int,
}

/// A well-formed model fraction: positive denominator.
pub open spec fn rat_wf(a: Rat) -> bool {
    a.d > 0
}

/// `a == b` as rational numbers, by cross multiplication.
pub open spec fn rat_eq(a: Rat, b: Rat) -> bool {
    a.n * b.d == b.n * a.d
}

/// `a <= b` as rational numbers (meaningful for positive denominators).
pub open spec fn rat_le(a: Rat, b: Rat) -> bool {
    a.n * b.d <= b.n * a.d
}

/// `a < b` as rational numbers (meaningful for positive denominators).
pub open spec fn rat_lt(a: Rat, b: Rat) -> bool {
    a.n * b.d < b.n * a.d
}

/// The exact unreduced sum of two fractions.
pub open spec fn rat_add(a: Rat, b: Rat) -> Rat {
    Rat { n: a.n * b.d + b.n * a.d, d: a.d * b.d }
}

/// The exact unreduced difference of two fractions.
pub open spec fn rat_sub(a: Rat, b: Rat) -> Rat {
    Rat { n: a.n * b.d - b.n * a.d, d: a.d * b.d }
}

/// The negation of a fraction; the denominator is unchanged.
pub open spec fn rat_neg(a: Rat) -> Rat {
    Rat { n: -a.n, d: a.d }
}

/// The exact unreduced product of two fractions.
pub open spec fn rat_mul(a: Rat, b: Rat) -> Rat {
    Rat { n: a.n * b.n, d: a.d * b.d }
}

/// The exact unreduced quotient of two fractions, with the sign moved into
/// the numerator so that the denominator stays positive.
pub open spec fn rat_div(a: Rat, b: Rat) -> Rat {
    if b.n >= 0 {
        Rat { n: a.n * b.d, d: a.d * b.n }
    } else {
        Rat { n: -(a.n * b.d), d: a.d * (-b.n) }
    }
}

/// Whether a model fraction is representable as a `Frac`. The numerator
/// `i64::MIN` is excluded so that negation is always representable.
pub open spec fn rat_in_range(a: Rat) -> bool {
    &&& -0x7fff_ffff_ffff_ffff <= a.n <= 0x7fff_ffff_ffff_ffff
    &&& 0 < a.d <= 0x7fff_ffff_ffff_ffff
}

/// An exact rational coordinate: `num / den` with `den > 0`.
///
/// `num == i64::MIN` is rejected by the validating constructors, so that the
/// negation of a well-formed fraction is always a well-formed fraction.
#[derive(Clone, Copy, Debug, PartialEq, Eq, Structural)]
pub struct Frac {
    pub num: i64,
    pub den: i64,
}

impl View for Frac {
    type V = Rat;

    open spec fn view(&self) -> Rat {
        Rat { n: self.num as int, d: self.den as int }
    }
}

impl Frac {
    /// A representable fraction: positive denominator, numerator above `i64::MIN`.
    pub open spec fn wf(self) -> bool {
        rat_in_range(self@)
    }

    /// Builds a fraction from a numerator and a denominator.
    ///
    /// Returns `None` when the denominator is zero or a component is
    /// `i64::MIN`; a negative denominator is normalized away by negating
    /// both components.
    pub fn new(num: i64, den: i64) -> (r: Option<Frac>)
        ensures
            r is Some <==> num > i64::MIN && den != 0 && den > i64::MIN,
            r matches Some(f) ==> f.wf() && rat_eq(f@, Rat { n: num as int, d: den as int }),
    {
        if num == i64::MIN || den == 0 || den == i64::MIN {
            None
        } else if den > 0 {
            Some(Frac { num, den })
        } else {
            proof {
                assert((-(num as int)) * (den as int) == (num as int) * (-(den as int)))
                    by (nonlinear_arith);
            }
            Some(Frac { num: -num, den: -den })
        }
    }

    /// Checks the invariant: positive denominator, numerator above `i64::MIN`.
    pub fn is_wf(&self) -> (r: bool)
        ensures
            r == self.wf(),
    {
        self.den > 0 && self.num > i64::MIN
    }

    /// The fraction `v / 1`.
    pub fn from_int(v: i64) -> (r: Option<Frac>)
        ensures
            r is Some <==> v > i64::MIN,
            r matches Some(f) ==> f.wf() && f@ == (Rat { n: v as int, d: 1 }),
    {
        if v == i64::MIN {
            None
        } else {
            Some(Frac { num: v, den: 1 })
        }
    }
}

/// Bounds the product of two integers drawn from the `Frac` component range.
proof fn lemma_prod_bound(x: int, y: int)
    by (nonlinear_arith)
    requires
        -0x7fff_ffff_ffff_ffff <= x <= 0x7fff_ffff_ffff_ffff,
        -0x8000_0000_0000_0000 <= y <= 0x7fff_ffff_ffff_ffff,
    ensures
        -0x4000_0000_0000_0000_0000_0000_0000_0000 < x * y
            < 0x4000_0000_0000_0000_0000_0000_0000_0000,
{
}

/// The product of two positive integers is positive.
proof fn lemma_pos_prod(x: int, y: int)
    by (nonlinear_arith)
    requires
        x > 0,
        y > 0,
    ensures
        x * y > 0,
{
}

/// Checked addition: the exact unreduced sum, or `None` when it is not
/// representable.
pub fn frac_add(a: Frac, b: Frac) -> (r: Option<Frac>)
    requires
        a.wf(),
        b.wf(),
    ensures
        r is Some <==> rat_in_range(rat_add(a@, b@)),
        r matches Some(c) ==> c.wf() && c@ == rat_add(a@, b@),
{
    proof {
        lemma_prod_bound(a.num as int, b.den as int);
        lemma_prod_bound(b.num as int, a.den as int);
        lemma_prod_bound(a.den as int, b.den as int);
        lemma_pos_prod(a.den as int, b.den as int);
    }
    let n: i128 = (a.num as i128) * (b.den as i128) + (b.num as i128) * (a.den as i128);
    let d: i128 = (a.den as i128) * (b.den as i128);
    if n > i64::MIN as i128 && n <= i64::MAX as i128 && d <= i64::MAX as i128 {
        Some(Frac { num: n as i64, den: d as i64 })
    } else {
        None
    }
}

/// Checked subtraction: the exact unreduced difference, or `None` when it is
/// not representable.
pub fn frac_sub(a: Frac, b: Frac) -> (r: Option<Frac>)
    requires
        a.wf(),
        b.wf(),
    ensures
        r is Some <==> rat_in_range(rat_sub(a@, b@)),
        r matches Some(c) ==> c.wf() && c@ == rat_sub(a@, b@),
{
    proof {
        lemma_prod_bound(a.num as int, b.den as int);
        lemma_prod_bound(b.num as int, a.den as int);
        lemma_prod_bound(a.den as int, b.den as int);
        lemma_pos_prod(a.den as int, b.den as int);
    }
    let n: i128 = (a.num as i128) * (b.den as i128) - (b.num as i128) * (a.den as i128);
    let d: i128 = (a.den as i128) * (b.den as i128);
    if n > i64::MIN as i128 && n <= i64::MAX as i128 && d <= i64::MAX as i128 {
        Some(Frac { num: n as i64, den: d as i64 })
    } else {
        None
    }
}

/// Negation. Total: well-formed fractions exclude the numerator `i64::MIN`.
pub fn frac_neg(a: Frac) -> (r: Frac)
    requires
        a.wf(),
    ensures
        r.wf(),
        r@ == rat_neg(a@),
{
    Frac { num: -a.num, den: a.den }
}

/// Checked multiplication: the exact unreduced product, or `None` when it is
/// not representable.
pub fn frac_mul(a: Frac, b: Frac) -> (r: Option<Frac>)
    requires
        a.wf(),
        b.wf(),
    ensures
        r is Some <==> rat_in_range(rat_mul(a@, b@)),
        r matches Some(c) ==> c.wf() && c@ == rat_mul(a@, b@),
{
    proof {
        lemma_prod_bound(a.num as int, b.num as int);
        lemma_prod_bound(a.den as int, b.den as int);
        lemma_pos_prod(a.den as int, b.den as int);
    }
    let n: i128 = (a.num as i128) * (b.num as i128);
    let d: i128 = (a.den as i128) * (b.den as i128);
    if n > i64::MIN as i128 && n <= i64::MAX as i128 && d <= i64::MAX as i128 {
        Some(Frac { num: n as i64, den: d as i64 })
    } else {
        None
    }
}

/// Checked division: the exact unreduced quotient, or `None` when it is not
/// representable. The divisor must be nonzero.
pub fn frac_div(a: Frac, b: Frac) -> (r: Option<Frac>)
    requires
        a.wf(),
        b.wf(),
        b@.n != 0,
    ensures
        r is Some <==> rat_in_range(rat_div(a@, b@)),
        r matches Some(c) ==> c.wf() && c@ == rat_div(a@, b@),
{
    proof {
        lemma_prod_bound(a.num as int, b.den as int);
        lemma_prod_bound(a.den as int, b.num as int);
        if b.num > 0 {
            lemma_pos_prod(a.den as int, b.num as int);
        } else {
            lemma_pos_prod(a.den as int, -(b.num as int));
            assert((a.den as int) * (-(b.num as int)) == -((a.den as int) * (b.num as int)))
                by (nonlinear_arith);
        }
    }
    let n0: i128 = (a.num as i128) * (b.den as i128);
    let d0: i128 = (a.den as i128) * (b.num as i128);
    let (n, d): (i128, i128) = if b.num >= 0 {
        (n0, d0)
    } else {
        (-n0, -d0)
    };
    if n > i64::MIN as i128 && n <= i64::MAX as i128 && d <= i64::MAX as i128 {
        Some(Frac { num: n as i64, den: d as i64 })
    } else {
        None
    }
}

/// `a <= b` as rational numbers, decided exactly.
pub fn frac_le(a: &Frac, b: &Frac) -> (r: bool)
    requires
        a.wf(),
        b.wf(),
    ensures
        r == rat_le(a@, b@),
{
    proof {
        lemma_prod_bound(a.num as int, b.den as int);
        lemma_prod_bound(b.num as int, a.den as int);
    }
    (a.num as i128) * (b.den as i128) <= (b.num as i128) * (a.den as i128)
}

/// `a < b` as rational numbers, decided exactly.
pub fn frac_lt(a: &Frac, b: &Frac) -> (r: bool)
    requires
        a.wf(),
        b.wf(),
    ensures
        r == rat_lt(a@, b@),
{
    proof {
        lemma_prod_bound(a.num as int, b.den as int);
        lemma_prod_bound(b.num as int, a.den as int);
    }
    (a.num as i128) * (b.den as i128) < (b.num as i128) * (a.den as i128)
}

/// `a == b` as rational numbers, decided exactly.
pub fn frac_eq(a: &Frac, b: &Frac) -> (r: bool)
    requires
        a.wf(),
        b.wf(),
    ensures
        r == rat_eq(a@, b@),
{
    proof {
        lemma_prod_bound(a.num as int, b.den as int);
        lemma_prod_bound(b.num as int, a.den as int);
    }
    (a.num as i128) * (b.den as i128) == (b.num as i128) * (a.den as i128)
}

/// Total comparison of two fractions.
///
/// Rational order is total, so unlike a floating-point comparison this never
/// meets an incomparable pair; the name records that callers treat any such
/// pair as equal.
pub fn bogus_compare(a: &Frac, b: &Frac) -> (r: core::cmp::Ordering)
    requires
        a.wf(),
        b.wf(),
    ensures
        r == core::cmp::Ordering::Less <==> rat_lt(a@, b@),
        r == core::cmp::Ordering::Greater <==> rat_lt(b@, a@),
        r == core::cmp::Ordering::Equal <==> rat_eq(a@, b@),
{
    if frac_lt(a, b) {
        core::cmp::Ordering::Less
    } else if frac_lt(b, a) {
        core::cmp::Ordering::Greater
    } else {
        core::cmp::Ordering::Equal
    }
}

/// Rational equality is transitive.
pub proof fn lemma_rat_eq_trans(a: Rat, b: Rat, c: Rat)
    by (nonlinear_arith)
    requires
        rat_wf(a),
        rat_wf(b),
        rat_wf(c),
        rat_eq(a, b),
        rat_eq(b, c),
    ensures
        rat_eq(a, c),
{
}

/// Strict rational order is transitive.
pub proof fn lemma_rat_lt_trans(a: Rat, b: Rat, c: Rat)
    by (nonlinear_arith)
    requires
        rat_wf(a),
        rat_wf(b),
        rat_wf(c),
        rat_lt(a, b),
        rat_lt(b, c),
    ensures
        rat_lt(a, c),
{
}

/// A strict bound composes with a non-strict one.
pub proof fn lemma_rat_le_lt_trans(a: Rat, b: Rat, c: Rat)
    by (nonlinear_arith)
    requires
        rat_wf(a),
        rat_wf(b),
        rat_wf(c),
        rat_le(a, b),
        rat_lt(b, c),
    ensures
        rat_lt(a, c),
{
}

/// A non-strict bound composes with a strict one.
pub proof fn lemma_rat_lt_le_trans(a: Rat, b: Rat, c: Rat)
    by (nonlinear_arith)
    requires
        rat_wf(a),
        rat_wf(b),
        rat_wf(c),
        rat_lt(a, b),
        rat_le(b, c),
    ensures
        rat_lt(a, c),
{
}

/// Non-strict rational order is transitive.
pub proof fn lemma_rat_le_trans(a: Rat, b: Rat, c: Rat)
    by (nonlinear_arith)
    requires
        rat_wf(a),
        rat_wf(b),
        rat_wf(c),
        rat_le(a, b),
        rat_le(b, c),
    ensures
        rat_le(a, c),
{
}

/// Strict order is preserved when both sides are replaced by equal rationals.
pub proof fn lemma_rat_lt_congruence(a: Rat, b: Rat, a2: Rat, b2: Rat)
    by (nonlinear_arith)
    requires
        rat_wf(a),
        rat_wf(b),
        rat_wf(a2),
        rat_wf(b2),
        rat_eq(a, a2),
        rat_eq(b, b2),
        rat_lt(a, b),
    ensures
        rat_lt(a2, b2),
{
}

/// Non-strict order is preserved when both sides are replaced by equal
/// rationals.
pub proof fn lemma_rat_le_congruence(a: Rat, b: Rat, a2: Rat, b2: Rat)
    by (nonlinear_arith)
    requires
        rat_wf(a),
        rat_wf(b),
        rat_wf(a2),
        rat_wf(b2),
        rat_eq(a, a2),
        rat_eq(b, b2),
        rat_le(a, b),
    ensures
        rat_le(a2, b2),
{
}

} // verus!
