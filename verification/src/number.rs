//! Numbers of the language: exact fractions of 64-bit integers, the two
//! infinities, and one value that is not a number.
//!
//! Arithmetic never fails. On finite numbers it is exact; a result that
//! cannot be held exactly is not a number. A finite number other than 0
//! divided by 0 is infinite, with the sign of the number; 0 divided by 0 is
//! not a number. The infinities behave as limits do: a finite number added to
//! one leaves it, a finite number divided by one is 0, and where no limit
//! exists (an infinity less itself, 0 times an infinity, an infinity divided
//! by another) the result is not a number. What is not a number stays so
//! through every operation.
use crate::gcd::{
    gcd, greatest_common_divisor, lemma_gcd_of_quotients, lemma_gcd_positive,
    lemma_lowest_terms_unique,
};
use vstd::prelude::*;

verus! {

/// The largest numerator and denominator that a [`Number`] holds.
pub const LIMIT: u64 = 0x7fff_ffff_ffff_ffff;

/// The mathematical value of a [`Number`]: `num / den` where `den` is not 0.
/// Where `den` is 0, `num` is 1 for the positive infinity, -1 for the
/// negative one, and 0 for what is not a number.
pub struct Fraction {
    pub num: int,
    pub den: nat,
}

/// `n` without its sign.
pub open spec fn magnitude(n: int) -> nat {
    if n < 0 {
        (-n) as nat
    } else {
        n as nat
    }
}

impl Fraction {
    /// The value that is not a number.
    pub open spec fn nan() -> Fraction {
        Fraction { num: 0, den: 0 }
    }

    /// The infinity with the given sign.
    pub open spec fn infinity(negative: bool) -> Fraction {
        Fraction {
            num: if negative {
                -1
            } else {
                1
            },
            den: 0,
        }
    }

    /// The number 0.
    pub open spec fn zero() -> Fraction {
        Fraction { num: 0, den: 1 }
    }

    /// Whether this is a finite number.
    pub open spec fn finite(self) -> bool {
        self.den > 0
    }

    /// Whether this is what is not a number.
    pub open spec fn is_nan(self) -> bool {
        self.den == 0 && self.num == 0
    }

    /// Whether this is one of the infinities.
    pub open spec fn is_infinite(self) -> bool {
        self.den == 0 && self.num != 0
    }

    /// Whether this is a whole number.
    pub open spec fn is_whole(self) -> bool {
        self.den == 1
    }

    /// In lowest terms, and small enough for a [`Number`].
    pub open spec fn wf(self) -> bool {
        if self.den == 0 {
            -1 <= self.num <= 1
        } else {
            &&& gcd(magnitude(self.num), self.den) == 1
            &&& magnitude(self.num) <= LIMIT
            &&& self.den <= LIMIT
        }
    }

    /// `n / d` in lowest terms.
    pub open spec fn lowest(n: int, d: nat) -> Fraction {
        let g = gcd(magnitude(n), d);
        Fraction {
            num: if n < 0 {
                -((magnitude(n) / g) as int)
            } else {
                (magnitude(n) / g) as int
            },
            den: d / g,
        }
    }

    /// `n / d` as a number, where `d` is positive and the lowest terms fit.
    pub open spec fn exact(n: int, d: nat) -> Option<Fraction> {
        let f = Fraction::lowest(n, d);
        if d > 0 && magnitude(f.num) <= LIMIT && f.den <= LIMIT {
            Some(f)
        } else {
            None
        }
    }

    /// `n / d` as a number, or not a number where `d` is 0 or the lowest
    /// terms do not fit.
    pub open spec fn of(n: int, d: int) -> Fraction {
        let r = if d < 0 {
            Fraction::exact(-n, (-d) as nat)
        } else {
            Fraction::exact(n, d as nat)
        };
        match r {
            Some(f) => f,
            None => Fraction::nan(),
        }
    }

    /// The exact `self + other`, where both are finite and the sum fits.
    pub open spec fn sum(self, other: Fraction) -> Option<Fraction> {
        if !self.finite() || !other.finite() {
            None
        } else {
            Fraction::exact(self.num * other.den + other.num * self.den, self.den * other.den)
        }
    }

    /// The exact `self - other`, where both are finite and the difference
    /// fits.
    pub open spec fn difference(self, other: Fraction) -> Option<Fraction> {
        if !self.finite() || !other.finite() {
            None
        } else {
            Fraction::exact(self.num * other.den - other.num * self.den, self.den * other.den)
        }
    }

    /// The exact `self * other`, where both are finite and the product fits.
    pub open spec fn product(self, other: Fraction) -> Option<Fraction> {
        if !self.finite() || !other.finite() {
            None
        } else {
            Fraction::exact(self.num * other.num, self.den * other.den)
        }
    }

    /// The exact `self / other`, where both are finite, `other` is not 0 and
    /// the quotient fits.
    pub open spec fn quotient(self, other: Fraction) -> Option<Fraction> {
        if !self.finite() || !other.finite() || other.num == 0 {
            None
        } else if other.num < 0 {
            Fraction::exact(-(self.num * other.den), self.den * magnitude(other.num))
        } else {
            Fraction::exact(self.num * other.den, self.den * magnitude(other.num))
        }
    }

    /// `r`, or what is not a number where there is none.
    pub open spec fn held(r: Option<Fraction>) -> Fraction {
        match r {
            Some(f) => f,
            None => Fraction::nan(),
        }
    }

    /// `-self`: the sign is turned, and what is not a number stays so.
    pub open spec fn negated(self) -> Fraction {
        Fraction { num: -self.num, den: self.den }
    }

    /// `self + other`. Finite numbers give their exact sum, or what is not a
    /// number where it does not fit. An infinity stays what it is, but for
    /// the other infinity added to it, which gives what is not a number.
    pub open spec fn added(self, other: Fraction) -> Fraction {
        if self.finite() && other.finite() {
            Fraction::held(self.sum(other))
        } else if self.is_nan() || other.is_nan() {
            Fraction::nan()
        } else if self.finite() {
            other
        } else if other.finite() || self.num == other.num {
            self
        } else {
            Fraction::nan()
        }
    }

    /// `self - other`. Finite numbers give their exact difference, or what
    /// is not a number where it does not fit; else it is `self` and
    /// `-other` added.
    pub open spec fn subtracted(self, other: Fraction) -> Fraction {
        if self.finite() && other.finite() {
            Fraction::held(self.difference(other))
        } else {
            self.added(other.negated())
        }
    }

    /// `self * other`. Finite numbers give their exact product, or what is
    /// not a number where it does not fit. An infinity times a number other
    /// than 0 is infinite, with the sign of the product; times 0 it is not a
    /// number.
    pub open spec fn multiplied(self, other: Fraction) -> Fraction {
        if self.finite() && other.finite() {
            Fraction::held(self.product(other))
        } else if self.num == 0 || other.num == 0 {
            Fraction::nan()
        } else {
            Fraction::infinity((self.num < 0) != (other.num < 0))
        }
    }

    /// `self / other`. Finite numbers give their exact quotient, or what is
    /// not a number where it does not fit; a number other than 0 divided by 0
    /// is infinite, with the sign of the number, and 0 divided by 0 is not
    /// a number. An infinity divided by a finite number is infinite, a finite
    /// number divided by an infinity is 0, and an infinity divided by an
    /// infinity is not a number.
    pub open spec fn divided(self, other: Fraction) -> Fraction {
        if self.finite() && other.finite() {
            if other.num != 0 {
                Fraction::held(self.quotient(other))
            } else if self.num == 0 {
                Fraction::nan()
            } else {
                Fraction::infinity(self.num < 0)
            }
        } else if self.is_nan() || other.is_nan() {
            Fraction::nan()
        } else if other.finite() {
            Fraction::infinity((self.num < 0) != (other.num < 0))
        } else if self.finite() {
            Fraction::zero()
        } else {
            Fraction::nan()
        }
    }

    /// The count that a whole number from 0 to `usize::MAX` stands for.
    pub open spec fn count(self) -> Option<nat> {
        if self.den == 1 && 0 <= self.num <= usize::MAX {
            Some(self.num as nat)
        } else {
            None
        }
    }
}

/// `lowest` keeps the value and leaves no common divisor.
pub proof fn lemma_lowest(n: int, d: nat)
    requires
        d > 0,
    ensures
        Fraction::lowest(n, d).den > 0,
        Fraction::lowest(n, d).num * d == n * Fraction::lowest(n, d).den,
        gcd(magnitude(Fraction::lowest(n, d).num), Fraction::lowest(n, d).den) == 1,
        (n < 0) == (Fraction::lowest(n, d).num < 0),
{
    let m = magnitude(n);
    let g = gcd(m, d);
    lemma_gcd_of_quotients(m, d);
    lemma_gcd_positive(m, d);
    let x = m / g;
    let y = d / g;
    assert(x >= 0 && y > 0);
    assert(x * d == m * y) by (nonlinear_arith)
        requires
            m == g * x,
            d == g * y,
    ;
    if n < 0 {
        assert(x > 0) by (nonlinear_arith)
            requires
                m == g * x,
                m > 0,
                g > 0,
                x >= 0,
        ;
        assert((-x) * d == n * y) by (nonlinear_arith)
            requires
                x * d == m * y,
                n == -m,
        ;
    }
}

/// A fraction in lowest terms with the value `n / d` is `lowest(n, d)`.
pub proof fn lemma_lowest_is(n: int, d: nat, f: Fraction)
    requires
        d > 0,
        f.den > 0,
        gcd(magnitude(f.num), f.den) == 1,
        f.num * d == n * f.den,
    ensures
        Fraction::lowest(n, d) == f,
{
    let l = Fraction::lowest(n, d);
    lemma_lowest(n, d);
    // l.num * d == n * l.den and f.num * d == n * f.den, so l.num * f.den == f.num * l.den
    assert(l.num * f.den * d == f.num * l.den * d) by (nonlinear_arith)
        requires
            l.num * d == n * l.den,
            f.num * d == n * f.den,
    ;
    assert(l.num * f.den == f.num * l.den) by (nonlinear_arith)
        requires
            l.num * f.den * d == f.num * l.den * d,
            d > 0,
    ;
    assert((f.num < 0) == (n < 0) || f.num == 0 || n == 0) by (nonlinear_arith)
        requires
            f.num * d == n * f.den,
            d > 0,
            f.den > 0,
    ;
    assert(f.num == 0 <==> n == 0) by (nonlinear_arith)
        requires
            f.num * d == n * f.den,
            d > 0,
            f.den > 0,
    ;
    assert(l.num == 0 <==> n == 0) by (nonlinear_arith)
        requires
            l.num * d == n * l.den,
            d > 0,
            l.den > 0,
    ;
    let a1 = magnitude(l.num);
    let a2 = magnitude(f.num);
    assert(a1 * f.den == a2 * l.den) by (nonlinear_arith)
        requires
            l.num * f.den == f.num * l.den,
            (l.num < 0) == (f.num < 0) || (l.num == 0 && f.num == 0),
            a1 == if l.num < 0 { -l.num } else { l.num },
            a2 == if f.num < 0 { -f.num } else { f.num },
    ;
    lemma_lowest_terms_unique(a1, l.den, a2, f.den);
}

/// A number of the language.
#[derive(Clone, Copy, Debug, PartialEq, Eq, Structural)]
pub struct Number {
    num: i64,
    den: u64,
}

impl View for Number {
    type V = Fraction;

    closed spec fn view(&self) -> Fraction {
        Fraction { num: self.num as int, den: self.den as nat }
    }
}

impl Number {
    #[verifier::type_invariant]
    spec fn inv(self) -> bool {
        self@.wf()
    }

    /// Whether this is what is not a number. Every number is in lowest terms
    /// and within the limit.
    pub fn is_nan(&self) -> (r: bool)
        ensures
            r == self@.is_nan(),
            self@.wf(),
    {
        proof {
            use_type_invariant(self);
        }
        self.den == 0 && self.num == 0
    }

    /// Whether this is a finite number.
    pub fn is_finite(&self) -> (r: bool)
        ensures
            r == self@.finite(),
            self@.wf(),
    {
        proof {
            use_type_invariant(self);
        }
        self.den != 0
    }

    /// Whether this is one of the infinities.
    pub fn is_infinite(&self) -> (r: bool)
        ensures
            r == self@.is_infinite(),
            self@.wf(),
    {
        proof {
            use_type_invariant(self);
        }
        self.den == 0 && self.num != 0
    }

    /// The value that is not a number.
    pub fn nan() -> (r: Number)
        ensures
            r@ == Fraction::nan(),
    {
        Number { num: 0, den: 0 }
    }

    /// The infinity with the given sign.
    pub fn infinity(negative: bool) -> (r: Number)
        ensures
            r@ == Fraction::infinity(negative),
    {
        if negative {
            Number { num: -1, den: 0 }
        } else {
            Number { num: 1, den: 0 }
        }
    }

    /// What `r` holds, or what is not a number where it holds nothing.
    fn held(r: Option<Number>) -> (n: Number)
        ensures
            n@ == Fraction::held(model(r)),
    {
        match r {
            Some(x) => x,
            None => Number::nan(),
        }
    }

    /// The numerator in lowest terms; it carries the sign. It is 1 or -1 for
    /// an infinity, and 0 for what is not a number.
    pub fn numerator(&self) -> (r: i64)
        ensures
            r == self@.num,
            self@.wf(),
    {
        proof {
            use_type_invariant(self);
        }
        self.num
    }

    /// The denominator in lowest terms; 0 for an infinity and for what is not
    /// a number.
    pub fn denominator(&self) -> (r: u64)
        ensures
            r == self@.den,
            self@.wf(),
    {
        proof {
            use_type_invariant(self);
        }
        self.den
    }

    /// The fraction of magnitude `n / d`, negative where `negative` says so,
    /// in lowest terms.
    fn reduce(negative: bool, n: u128, d: u128) -> (r: Option<Number>)
        requires
            d > 0,
            negative ==> n > 0,
        ensures
            model(r) == Fraction::exact(if negative { -(n as int) } else { n as int }, d as nat),
    {
        let g = greatest_common_divisor(n, d);
        proof {
            lemma_gcd_positive(n as nat, d as nat);
            lemma_lowest(if negative { -(n as int) } else { n as int }, d as nat);
        }
        let x = n / g;
        let y = d / g;
        if x > LIMIT as u128 || y > LIMIT as u128 {
            None
        } else if negative {
            Some(Number { num: -(x as i64), den: y as u64 })
        } else {
            Some(Number { num: x as i64, den: y as u64 })
        }
    }

    /// `n / d` in lowest terms, where it fits.
    fn from_parts(n: i128, d: u128) -> (r: Option<Number>)
        requires
            d > 0,
            n > i128::MIN,
        ensures
            model(r) == Fraction::exact(n as int, d as nat),
    {
        if n < 0 {
            Number::reduce(true, (-n) as u128, d)
        } else {
            Number::reduce(false, n as u128, d)
        }
    }

    /// `num / den`, or not a number where `den` is 0 or the lowest terms do
    /// not fit.
    pub fn new(num: i64, den: i64) -> (r: Number)
        ensures
            r@ == Fraction::of(num as int, den as int),
    {
        if den == 0 {
            return Number::nan();
        }
        let negative = (num < 0) != (den < 0) && num != 0;
        let n: u128 = if num < 0 {
            (-(num as i128)) as u128
        } else {
            num as u128
        };
        let d: u128 = if den < 0 {
            (-(den as i128)) as u128
        } else {
            den as u128
        };
        match Number::reduce(negative, n, d) {
            Some(x) => x,
            None => Number::nan(),
        }
    }

    /// The whole number `n`; not a number where `n` is `i64::MIN`.
    pub fn integer(n: i64) -> (r: Number)
        ensures
            r@ == Fraction::of(n as int, 1),
    {
        Number::new(n, 1)
    }

    /// Whether two numbers are the same.
    pub fn same(&self, other: &Number) -> (r: bool)
        ensures
            r == (self@ == other@),
    {
        self.num == other.num && self.den == other.den
    }

    /// Whether this is a whole number.
    pub fn is_whole(&self) -> (r: bool)
        ensures
            r == self@.is_whole(),
    {
        self.den == 1
    }

    /// The exact sum, where both are finite and it fits.
    fn sum(&self, other: &Number) -> (r: Option<Number>)
        ensures
            model(r) == self@.sum(other@),
    {
        proof {
            use_type_invariant(self);
            use_type_invariant(other);
        }
        if self.den == 0 || other.den == 0 {
            return None;
        }
        proof {
            lemma_products_fit(self.num as int, other.den as int);
            lemma_products_fit(other.num as int, self.den as int);
            lemma_products_fit(self.den as int, other.den as int);
        }
        let n: i128 = (self.num as i128) * (other.den as i128) + (other.num as i128) * (
        self.den as i128);
        let d: u128 = (self.den as u128) * (other.den as u128);
        Number::from_parts(n, d)
    }

    /// The exact difference, where both are finite and it fits.
    fn difference(&self, other: &Number) -> (r: Option<Number>)
        ensures
            model(r) == self@.difference(other@),
    {
        proof {
            use_type_invariant(self);
            use_type_invariant(other);
        }
        if self.den == 0 || other.den == 0 {
            return None;
        }
        proof {
            lemma_products_fit(self.num as int, other.den as int);
            lemma_products_fit(other.num as int, self.den as int);
            lemma_products_fit(self.den as int, other.den as int);
        }
        let n: i128 = (self.num as i128) * (other.den as i128) - (other.num as i128) * (
        self.den as i128);
        let d: u128 = (self.den as u128) * (other.den as u128);
        Number::from_parts(n, d)
    }

    /// The exact product, where both are finite and it fits.
    fn product(&self, other: &Number) -> (r: Option<Number>)
        ensures
            model(r) == self@.product(other@),
    {
        proof {
            use_type_invariant(self);
            use_type_invariant(other);
        }
        if self.den == 0 || other.den == 0 {
            return None;
        }
        proof {
            lemma_products_fit(self.num as int, other.num as int);
            lemma_products_fit(self.den as int, other.den as int);
        }
        let n: i128 = (self.num as i128) * (other.num as i128);
        let d: u128 = (self.den as u128) * (other.den as u128);
        Number::from_parts(n, d)
    }

    /// The exact quotient, where both are finite, `other` is not 0 and it
    /// fits.
    fn quotient(&self, other: &Number) -> (r: Option<Number>)
        ensures
            model(r) == self@.quotient(other@),
    {
        proof {
            use_type_invariant(self);
            use_type_invariant(other);
        }
        if self.den == 0 || other.den == 0 || other.num == 0 {
            return None;
        }
        proof {
            lemma_products_fit(self.num as int, other.den as int);
            lemma_products_fit(self.den as int, other.num as int);
            lemma_products_fit(self.den as int, -(other.num as int));
        }
        let n: i128 = (self.num as i128) * (other.den as i128);
        if other.num < 0 {
            let d: u128 = (self.den as u128) * ((-(other.num as i128)) as u128);
            Number::from_parts(-n, d)
        } else {
            let d: u128 = (self.den as u128) * (other.num as u128);
            Number::from_parts(n, d)
        }
    }

    /// `-self`.
    pub fn neg(&self) -> (r: Number)
        ensures
            r@ == self@.negated(),
    {
        proof {
            use_type_invariant(self);
            if self.den > 0 {
                assert(magnitude(-(self.num as int)) == magnitude(self.num as int));
            }
        }
        Number { num: -self.num, den: self.den }
    }

    /// `self + other`.
    pub fn add(&self, other: &Number) -> (r: Number)
        ensures
            r@ == self@.added(other@),
    {
        proof {
            use_type_invariant(self);
            use_type_invariant(other);
        }
        if self.den != 0 && other.den != 0 {
            Number::held(self.sum(other))
        } else if (self.den == 0 && self.num == 0) || (other.den == 0 && other.num == 0) {
            Number::nan()
        } else if self.den != 0 {
            *other
        } else if other.den != 0 || self.num == other.num {
            *self
        } else {
            Number::nan()
        }
    }

    /// `self - other`.
    pub fn sub(&self, other: &Number) -> (r: Number)
        ensures
            r@ == self@.subtracted(other@),
    {
        proof {
            use_type_invariant(self);
            use_type_invariant(other);
        }
        if self.den != 0 && other.den != 0 {
            Number::held(self.difference(other))
        } else {
            let opposite = other.neg();
            self.add(&opposite)
        }
    }

    /// `self * other`.
    pub fn mul(&self, other: &Number) -> (r: Number)
        ensures
            r@ == self@.multiplied(other@),
    {
        proof {
            use_type_invariant(self);
            use_type_invariant(other);
        }
        if self.den != 0 && other.den != 0 {
            Number::held(self.product(other))
        } else if self.num == 0 || other.num == 0 {
            Number::nan()
        } else {
            Number::infinity((self.num < 0) != (other.num < 0))
        }
    }

    /// `self / other`.
    pub fn div(&self, other: &Number) -> (r: Number)
        ensures
            r@ == self@.divided(other@),
    {
        proof {
            use_type_invariant(self);
            use_type_invariant(other);
        }
        if self.den != 0 && other.den != 0 {
            if other.num != 0 {
                Number::held(self.quotient(other))
            } else if self.num == 0 {
                Number::nan()
            } else {
                Number::infinity(self.num < 0)
            }
        } else if (self.den == 0 && self.num == 0) || (other.den == 0 && other.num == 0) {
            Number::nan()
        } else if other.den != 0 {
            Number::infinity((self.num < 0) != (other.num < 0))
        } else if self.den != 0 {
            proof {
                assert(gcd(1, 0) == 1);
                assert(gcd(0, 1) == 1);
            }
            Number { num: 0, den: 1 }
        } else {
            Number::nan()
        }
    }

    /// The count that a whole number from 0 to `usize::MAX` stands for.
    pub fn count(&self) -> (r: Option<usize>)
        ensures
            match r {
                Some(n) => self@.count() == Some(n as nat),
                None => self@.count() is None,
            },
    {
        if self.den == 1 && self.num >= 0 {
            let n: u64 = self.num as u64;
            if n <= usize::MAX as u64 {
                return Some(n as usize);
            }
        }
        None
    }

    /// The whole number `n`, or what is not a number where it does not fit.
    pub fn from_count(n: usize) -> (r: Number)
        ensures
            r@ == Fraction::of(n as int, 1),
    {
        Number::held(Number::from_parts(n as i128, 1))
    }
}

/// The value of a number that may be missing.
pub open spec fn model(r: Option<Number>) -> Option<Fraction> {
    match r {
        Some(x) => Some(x@),
        None => None,
    }
}

/// The product of two integers within the limit stays far inside 128 bits.
proof fn lemma_products_fit(x: int, y: int)
    requires
        -(LIMIT as int) <= x <= LIMIT,
        -(LIMIT as int) <= y <= LIMIT,
    ensures
        -0x3fff_ffff_ffff_ffff_0000_0000_0000_0001 <= x * y
            <= 0x3fff_ffff_ffff_ffff_0000_0000_0000_0001,
        (x >= 0 && y >= 0) ==> x * y >= 0,
        (x > 0 && y > 0) ==> x * y > 0,
{
    assert(-0x3fff_ffff_ffff_ffff_0000_0000_0000_0001 <= x * y
        <= 0x3fff_ffff_ffff_ffff_0000_0000_0000_0001 && ((x >= 0 && y >= 0) ==> x * y >= 0) && ((x
        > 0 && y > 0) ==> x * y > 0)) by (nonlinear_arith)
        requires
            -0x7fff_ffff_ffff_ffff <= x <= 0x7fff_ffff_ffff_ffff,
            -0x7fff_ffff_ffff_ffff <= y <= 0x7fff_ffff_ffff_ffff,
    ;
}

} // verus!
