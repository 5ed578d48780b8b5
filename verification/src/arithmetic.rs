//! Laws of the arithmetic on numbers: each operation is undone by its
//! inverse, exactly.
use crate::gcd::gcd;
use crate::number::{lemma_lowest, lemma_lowest_is, magnitude, Fraction};
use vstd::prelude::*;

verus! {

/// What `exact` gives is well formed and has the value `n / d`.
pub proof fn lemma_exact(n: int, d: nat)
    requires
        Fraction::exact(n, d) is Some,
    ensures
        d > 0,
        Fraction::exact(n, d)->0.wf(),
        Fraction::exact(n, d)->0.den > 0,
        Fraction::exact(n, d)->0.num * d == n * Fraction::exact(n, d)->0.den,
{
    lemma_lowest(n, d);
}

/// The well-formed number of the value `n / d` is what `exact` gives.
pub proof fn lemma_exact_is(n: int, d: nat, f: Fraction)
    requires
        d > 0,
        f.wf(),
        f.den > 0,
        f.num * d == n * f.den,
    ensures
        Fraction::exact(n, d) == Some(f),
{
    lemma_lowest_is(n, d, f);
}

/// The denominators of two numbers multiply to a positive number.
proof fn lemma_den(a: Fraction, b: Fraction)
    requires
        a.finite(),
        b.finite(),
    ensures
        a.den * b.den > 0,
{
    assert(a.den * b.den > 0) by (nonlinear_arith)
        requires
            a.den > 0,
            b.den > 0,
    ;
}

/// A product of three factors does not depend on how it is written.
proof fn lemma_triple(a: int, b: int, c: int)
    ensures
        a * (b * c) == a * b * c,
        a * (c * b) == a * b * c,
        a * c * b == a * b * c,
        b * a * c == a * b * c,
        b * c * a == a * b * c,
        c * a * b == a * b * c,
        c * b * a == a * b * c,
        b * (a * c) == a * b * c,
        c * (a * b) == a * b * c,
        (-a) * b * c == -(a * b * c),
        a * (-b) * c == -(a * b * c),
        a * b * (-c) == -(a * b * c),
{
    assert(a * (b * c) == a * b * c) by (nonlinear_arith);
    assert(a * (c * b) == a * b * c) by (nonlinear_arith);
    assert(a * c * b == a * b * c) by (nonlinear_arith);
    assert(b * a * c == a * b * c) by (nonlinear_arith);
    assert(b * c * a == a * b * c) by (nonlinear_arith);
    assert(c * a * b == a * b * c) by (nonlinear_arith);
    assert(c * b * a == a * b * c) by (nonlinear_arith);
    assert(b * (a * c) == a * b * c) by (nonlinear_arith);
    assert(c * (a * b) == a * b * c) by (nonlinear_arith);
    assert((-a) * b * c == -(a * b * c)) by (nonlinear_arith);
    assert(a * (-b) * c == -(a * b * c)) by (nonlinear_arith);
    assert(a * b * (-c) == -(a * b * c)) by (nonlinear_arith);
}

/// A sum or a difference times a factor, multiplied out.
proof fn lemma_spread(u: int, v: int, d: int)
    ensures
        (u + v) * d == u * d + v * d,
        (u - v) * d == u * d - v * d,
        (-u) * d == -(u * d),
{
    assert((u + v) * d == u * d + v * d) by (nonlinear_arith);
    assert((u - v) * d == u * d - v * d) by (nonlinear_arith);
    assert((-u) * d == -(u * d)) by (nonlinear_arith);
}

/// Taking away what was added gives the other summand back.
pub proof fn lemma_sum_undone(p: Fraction, q: Fraction)
    requires
        p.wf(),
        q.wf(),
        p.sum(q) is Some,
    ensures
        p.sum(q)->0.wf(),
        p.sum(q)->0.difference(p) == Some(q),
        p.sum(q)->0.difference(q) == Some(p),
{
    let y = p.sum(q)->0;
    lemma_den(p, q);
    lemma_exact(p.num * q.den + q.num * p.den, p.den * q.den);
    lemma_den(y, p);
    lemma_den(y, q);
    let (yn, yd, pn, pd, qn, qd) = (y.num, y.den as int, p.num, p.den as int, q.num, q.den as int);
    // With X = yn pd qd, P = pn qd yd and Q = qn pd yd, the sum says X == P + Q.
    let x = yn * pd * qd;
    let pp = pn * qd * yd;
    let qq = qn * pd * yd;
    assert(x == pp + qq) by {
        assert(yn * (pd * qd) == (pn * qd + qn * pd) * yd);
        lemma_triple(yn, pd, qd);
        lemma_spread(pn * qd, qn * pd, yd);
    }
    assert(qn * (yd * pd) == (yn * pd - pn * yd) * qd) by {
        lemma_triple(qn, pd, yd);
        lemma_spread(yn * pd, pn * yd, qd);
        lemma_triple(pn, qd, yd);
    }
    lemma_exact_is(yn * pd - pn * yd, y.den * p.den, q);
    assert(pn * (yd * qd) == (yn * qd - qn * yd) * pd) by {
        lemma_triple(pn, qd, yd);
        lemma_spread(yn * qd, qn * yd, pd);
        lemma_triple(yn, pd, qd);
        lemma_triple(qn, pd, yd);
    }
    lemma_exact_is(yn * qd - qn * yd, y.den * q.den, p);
}

/// Adding what was taken away gives the number back, on either side, and
/// taking the difference away from the number gives what was taken away.
pub proof fn lemma_difference_undone(p: Fraction, q: Fraction)
    requires
        p.wf(),
        q.wf(),
        p.difference(q) is Some,
    ensures
        p.difference(q)->0.wf(),
        p.difference(q)->0.sum(q) == Some(p),
        q.sum(p.difference(q)->0) == Some(p),
        p.difference(p.difference(q)->0) == Some(q),
{
    let y = p.difference(q)->0;
    lemma_den(p, q);
    lemma_exact(p.num * q.den - q.num * p.den, p.den * q.den);
    lemma_den(y, q);
    lemma_den(q, y);
    lemma_den(p, y);
    let (yn, yd, pn, pd, qn, qd) = (y.num, y.den as int, p.num, p.den as int, q.num, q.den as int);
    // With X = yn pd qd, P = pn qd yd and Q = qn pd yd, the difference says X == P - Q.
    let x = yn * pd * qd;
    let pp = pn * qd * yd;
    let qq = qn * pd * yd;
    assert(x == pp - qq) by {
        assert(yn * (pd * qd) == (pn * qd - qn * pd) * yd);
        lemma_triple(yn, pd, qd);
        lemma_spread(pn * qd, qn * pd, yd);
    }
    assert(pn * (yd * qd) == (yn * qd + qn * yd) * pd) by {
        lemma_triple(pn, qd, yd);
        lemma_spread(yn * qd, qn * yd, pd);
        lemma_triple(yn, pd, qd);
        lemma_triple(qn, pd, yd);
    }
    lemma_exact_is(yn * qd + qn * yd, y.den * q.den, p);
    assert(pn * (qd * yd) == (qn * yd + yn * qd) * pd) by {
        lemma_triple(pn, qd, yd);
        lemma_spread(qn * yd, yn * qd, pd);
        lemma_triple(yn, pd, qd);
        lemma_triple(qn, pd, yd);
    }
    lemma_exact_is(qn * yd + yn * qd, q.den * y.den, p);
    assert(qn * (pd * yd) == (pn * yd - yn * pd) * qd) by {
        lemma_triple(qn, pd, yd);
        lemma_spread(pn * yd, yn * pd, qd);
        lemma_triple(pn, qd, yd);
        lemma_triple(yn, pd, qd);
    }
    lemma_exact_is(pn * yd - yn * pd, p.den * y.den, q);
}

/// Negating twice gives the number back.
pub proof fn lemma_negation_undone(p: Fraction)
    requires
        p.wf(),
    ensures
        p.negated().wf(),
        p.negated().negated() == p,
{
    assert(magnitude(-p.num) == magnitude(p.num));
}

/// A product of three factors none of which is 0 is not 0.
proof fn lemma_triple_nonzero(a: int, b: int, c: int)
    requires
        a != 0,
        b != 0,
        c != 0,
    ensures
        a * b * c != 0,
{
    assert(a * b != 0) by (nonlinear_arith)
        requires
            a != 0,
            b != 0,
    ;
    let ab = a * b;
    assert(ab * c != 0) by (nonlinear_arith)
        requires
            ab != 0,
            c != 0,
    ;
}

/// What the quotient of `p` by `q` says, without the sign of `q`.
proof fn lemma_quotient_value(p: Fraction, q: Fraction)
    requires
        p.wf(),
        q.wf(),
        p.quotient(q) is Some,
    ensures
        q.num != 0,
        p.quotient(q)->0.wf(),
        p.quotient(q)->0.den > 0,
        p.quotient(q)->0.num * p.den * q.num == p.num * q.den * p.quotient(q)->0.den,
{
    let y = p.quotient(q)->0;
    let (yn, yd, pn, pd, qn, qd) = (y.num, y.den as int, p.num, p.den as int, q.num, q.den as int);
    assert(pd * magnitude(qn) > 0) by (nonlinear_arith)
        requires
            pd > 0,
            magnitude(qn) > 0,
    ;
    if qn < 0 {
        lemma_exact(-(pn * qd), p.den * magnitude(qn));
        assert(yn * (pd * (-qn)) == (-(pn * qd)) * yd);
        lemma_triple(yn, pd, -qn);
        lemma_triple(yn, pd, qn);
        lemma_spread(pn * qd, 0, yd);
    } else {
        lemma_exact(pn * qd, p.den * magnitude(qn));
        assert(yn * (pd * qn) == (pn * qd) * yd);
        lemma_triple(yn, pd, qn);
    }
}

/// The well-formed number `f` with `f * q == p` is the quotient of `p` by
/// `q`.
proof fn lemma_quotient_is(p: Fraction, q: Fraction, f: Fraction)
    requires
        p.finite(),
        q.finite(),
        q.num != 0,
        f.wf(),
        f.den > 0,
        f.num * p.den * q.num == p.num * q.den * f.den,
    ensures
        p.quotient(q) == Some(f),
{
    let (fnum, fd, pn, pd, qn, qd) = (f.num, f.den as int, p.num, p.den as int, q.num, q.den as int);
    assert(pd * magnitude(qn) > 0) by (nonlinear_arith)
        requires
            pd > 0,
            magnitude(qn) > 0,
    ;
    if qn < 0 {
        assert(fnum * (pd * (-qn)) == (-(pn * qd)) * fd) by {
            lemma_triple(fnum, pd, -qn);
            lemma_triple(fnum, pd, qn);
            lemma_spread(pn * qd, 0, fd);
        }
        lemma_exact_is(-(pn * qd), p.den * magnitude(qn), f);
    } else {
        assert(fnum * (pd * qn) == (pn * qd) * fd) by {
            lemma_triple(fnum, pd, qn);
        }
        lemma_exact_is(pn * qd, p.den * magnitude(qn), f);
    }
}

/// Multiplying by what was divided by gives the number back, and dividing
/// the number by the quotient gives what was divided by, unless the number is
/// 0: then the quotient is 0 and nothing can be divided by it.
pub proof fn lemma_quotient_undone(p: Fraction, q: Fraction)
    requires
        p.wf(),
        q.wf(),
        p.quotient(q) is Some,
    ensures
        p.quotient(q)->0.wf(),
        p.quotient(q)->0.product(q) == Some(p),
        p.num != 0 ==> p.quotient(p.quotient(q)->0) == Some(q),
        p.num == 0 ==> p.quotient(p.quotient(q)->0) is None,
{
    let y = p.quotient(q)->0;
    lemma_quotient_value(p, q);
    let (yn, yd, pn, pd, qn, qd) = (y.num, y.den as int, p.num, p.den as int, q.num, q.den as int);
    lemma_den(y, q);
    assert(pn * (yd * qd) == (yn * qn) * pd) by {
        lemma_triple(pn, qd, yd);
        lemma_triple(yn, pd, qn);
    }
    lemma_exact_is(yn * qn, y.den * q.den, p);
    if pn != 0 {
        lemma_triple_nonzero(pn, qd, yd);
        if yn == 0 {
            assert(yn * pd * qn == 0) by (nonlinear_arith)
                requires
                    yn == 0,
            ;
        }
        assert(qn * p.den * yn == pn * yd * qd) by {
            lemma_triple(yn, pd, qn);
            lemma_triple(pn, qd, yd);
        }
        lemma_quotient_is(p, y, q);
    } else {
        assert(pn * qd * yd == 0) by (nonlinear_arith)
            requires
                pn == 0,
        ;
        if yn != 0 {
            lemma_triple_nonzero(yn, pd, qn);
        }
    }
}

/// Dividing by what was multiplied by gives the number back, unless that
/// is 0.
pub proof fn lemma_product_undone(p: Fraction, q: Fraction)
    requires
        p.wf(),
        q.wf(),
        p.product(q) is Some,
    ensures
        p.product(q)->0.wf(),
        q.num != 0 ==> p.product(q)->0.quotient(q) == Some(p),
        q.num == 0 ==> p.product(q)->0.quotient(q) is None,
{
    let y = p.product(q)->0;
    lemma_den(p, q);
    lemma_exact(p.num * q.num, p.den * q.den);
    let (yn, yd, pn, pd, qn, qd) = (y.num, y.den as int, p.num, p.den as int, q.num, q.den as int);
    if qn != 0 {
        assert(pn * yd * qn == yn * qd * pd) by {
            assert(yn * (pd * qd) == (pn * qn) * yd);
            lemma_triple(yn, pd, qd);
            lemma_triple(pn, qn, yd);
        }
        lemma_quotient_is(y, q, p);
    }
}

/// A product of well-formed numbers is well formed.
pub proof fn lemma_multiplied_wf(p: Fraction, q: Fraction)
    requires
        p.wf(),
        q.wf(),
    ensures
        p.multiplied(q).wf(),
{
    if p.product(q) is Some {
        lemma_product_undone(p, q);
    }
}

/// A quotient of well-formed numbers is well formed.
pub proof fn lemma_divided_wf(p: Fraction, q: Fraction)
    requires
        p.wf(),
        q.wf(),
    ensures
        p.divided(q).wf(),
{
    if p.quotient(q) is Some {
        lemma_quotient_undone(p, q);
    }
    assert(gcd(1, 0) == 1);
    assert(gcd(0, 1) == 1);
}

} // verus!
