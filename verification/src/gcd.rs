//! Greatest common divisors of natural numbers, and what the arithmetic on
//! fractions in lowest terms needs to know about them.
use vstd::arithmetic::div_mod::*;
use vstd::arithmetic::mul::*;
use vstd::prelude::*;

verus! {

/// The greatest common divisor of `a` and `b`, by Euclid's recursion.
/// `gcd(0, 0)` is 0.
pub open spec fn gcd(a: nat, b: nat) -> nat
    decreases b,
{
    if b == 0 {
        a
    } else {
        gcd(b, a % b)
    }
}

/// `d` divides `n`.
pub open spec fn divides(d: nat, n: nat) -> bool {
    d > 0 && n % d == 0
}

/// A multiple of `d` is divided by `d`.
pub proof fn lemma_divides_multiple(d: nat, k: nat)
    requires
        d > 0,
    ensures
        divides(d, d * k),
        divides(d, k * d),
{
    lemma_mod_multiples_basic(k as int, d as int);
    lemma_mul_is_commutative(d as int, k as int);
}

/// What `d` divides is `d` times the quotient.
pub proof fn lemma_divides_quotient(d: nat, n: nat)
    requires
        divides(d, n),
    ensures
        n == d * (n / d),
        n / d >= 0,
{
    lemma_fundamental_div_mod(n as int, d as int);
    lemma_div_pos_is_pos(n as int, d as int);
}

/// The gcd is positive unless both arguments are 0.
pub proof fn lemma_gcd_positive(a: nat, b: nat)
    requires
        a > 0 || b > 0,
    ensures
        gcd(a, b) > 0,
    decreases b,
{
    if b != 0 {
        lemma_gcd_positive(b, a % b);
    }
}

/// The gcd divides both arguments.
pub proof fn lemma_gcd_divides(a: nat, b: nat)
    requires
        a > 0 || b > 0,
    ensures
        divides(gcd(a, b), a),
        divides(gcd(a, b), b),
    decreases b,
{
    lemma_gcd_positive(a, b);
    let g = gcd(a, b);
    if b == 0 {
        lemma_mod_self_0(a as int);
        lemma_small_mod(0, g);
    } else {
        let r = a % b;
        lemma_gcd_divides(b, r);
        lemma_divides_quotient(g, b);
        lemma_divides_quotient(g, r);
        lemma_fundamental_div_mod(a as int, b as int);
        let q = a / b;
        let kb = b / g;
        let kr = r / g;
        lemma_div_pos_is_pos(a as int, b as int);
        assert(a == g * (kb * q + kr)) by (nonlinear_arith)
            requires
                a == b * q + r,
                b == g * kb,
                r == g * kr,
        ;
        assert(kb * q + kr >= 0) by (nonlinear_arith)
            requires
                kb >= 0,
                q >= 0,
                kr >= 0,
        ;
        lemma_divides_multiple(g, (kb * q + kr) as nat);
    }
}

/// Scaling both arguments scales the gcd.
pub proof fn lemma_gcd_scale(c: nat, a: nat, b: nat)
    requires
        c > 0,
    ensures
        gcd(c * a, c * b) == c * gcd(a, b),
    decreases b,
{
    if b == 0 {
        assert(c * b == 0) by (nonlinear_arith)
            requires
                b == 0,
        ;
    } else {
        assert(c * b > 0) by (nonlinear_arith)
            requires
                c > 0,
                b > 0,
        ;
        lemma_truncate_middle(a as int, c as int, b as int);
        assert((c * a) % (c * b) == c * (a % b));
        lemma_gcd_scale(c, b, a % b);
    }
}

/// Dividing both arguments by their gcd leaves nothing in common.
pub proof fn lemma_gcd_of_quotients(a: nat, b: nat)
    requires
        b > 0,
    ensures
        gcd(a / gcd(a, b), b / gcd(a, b)) == 1,
        a == gcd(a, b) * (a / gcd(a, b)),
        b == gcd(a, b) * (b / gcd(a, b)),
        b / gcd(a, b) > 0,
{
    let g = gcd(a, b);
    lemma_gcd_positive(a, b);
    lemma_gcd_divides(a, b);
    lemma_divides_quotient(g, a);
    lemma_divides_quotient(g, b);
    let x = a / g;
    let y = b / g;
    assert(y > 0) by (nonlinear_arith)
        requires
            b == g * y,
            b > 0,
            g > 0,
            y >= 0,
    ;
    lemma_gcd_scale(g, x, y);
    assert(g * gcd(x, y) == g);
    lemma_gcd_positive(x, y);
    assert(gcd(x, y) == 1) by (nonlinear_arith)
        requires
            g * gcd(x, y) == g,
            g > 0,
    ;
}

/// Two fractions in lowest terms with the same value are the same.
pub proof fn lemma_lowest_terms_unique(a1: nat, b1: nat, a2: nat, b2: nat)
    requires
        b1 > 0,
        b2 > 0,
        gcd(a1, b1) == 1,
        gcd(a2, b2) == 1,
        a1 * b2 == a2 * b1,
    ensures
        a1 == a2,
        b1 == b2,
{
    lemma_gcd_scale(b2, a1, b1);
    lemma_gcd_scale(b1, a2, b2);
    lemma_mul_is_commutative(b2 as int, a1 as int);
    lemma_mul_is_commutative(b1 as int, a2 as int);
    lemma_mul_is_commutative(b1 as int, b2 as int);
    assert(gcd(b2 * a1, b2 * b1) == b2 * 1);
    assert(gcd(b1 * a2, b1 * b2) == b1 * 1);
    assert(b1 == b2);
    assert(a1 == a2) by (nonlinear_arith)
        requires
            a1 * b2 == a2 * b1,
            b1 == b2,
            b1 > 0,
    ;
}

/// Euclid's algorithm.
pub fn greatest_common_divisor(a: u128, b: u128) -> (g: u128)
    ensures
        g == gcd(a as nat, b as nat),
{
    let mut x: u128 = a;
    let mut y: u128 = b;
    while y != 0
        invariant
            gcd(x as nat, y as nat) == gcd(a as nat, b as nat),
        decreases y,
    {
        let r: u128 = x % y;
        x = y;
        y = r;
    }
    x
}

} // verus!
