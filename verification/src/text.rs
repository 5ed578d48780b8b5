//! Numbers written out as text, and read back.
//!
//! A whole number is written in decimal digits, with `-` in front where it is
//! negative; any other finite number with a decimal point, where at most 18
//! digits behind the point write it out exactly, else as its numerator, `/`
//! and its denominator; the infinities as `inf` and `-inf`; what is not a
//! number as `NaN`. Reading takes those forms and, besides, `+` in front, a decimal
//! point among digits, an exponent of ten behind `e`, `infinity`, and capital
//! letters.
use crate::arithmetic::{lemma_divided_wf, lemma_exact, lemma_exact_is, lemma_multiplied_wf};
use crate::chars::slice_chars;
use crate::number::{magnitude, Fraction, Number, LIMIT};
use vstd::prelude::*;

verus! {

/// The character of the digit `d`.
pub open spec fn digit(d: nat) -> char {
    if d == 0 {
        '0'
    } else if d == 1 {
        '1'
    } else if d == 2 {
        '2'
    } else if d == 3 {
        '3'
    } else if d == 4 {
        '4'
    } else if d == 5 {
        '5'
    } else if d == 6 {
        '6'
    } else if d == 7 {
        '7'
    } else if d == 8 {
        '8'
    } else {
        '9'
    }
}

/// The digit that a character is, if it is one.
pub open spec fn digit_value(c: char) -> Option<nat> {
    if c == '0' {
        Some(0)
    } else if c == '1' {
        Some(1)
    } else if c == '2' {
        Some(2)
    } else if c == '3' {
        Some(3)
    } else if c == '4' {
        Some(4)
    } else if c == '5' {
        Some(5)
    } else if c == '6' {
        Some(6)
    } else if c == '7' {
        Some(7)
    } else if c == '8' {
        Some(8)
    } else if c == '9' {
        Some(9)
    } else {
        None
    }
}

/// `n` in decimal digits, without leading zeros.
pub open spec fn decimal(n: nat) -> Seq<char>
    decreases n,
{
    if n < 10 {
        seq![digit(n)]
    } else {
        decimal(n / 10).push(digit(n % 10))
    }
}

/// The number that a string of decimal digits stands for. There is none where
/// the string is empty, holds anything but digits, or stands for more than
/// [`LIMIT`].
pub open spec fn decimal_value(s: Seq<char>) -> Option<nat>
    decreases s.len(),
{
    if s.len() == 0 {
        None
    } else {
        match digit_value(s.last()) {
            None => None,
            Some(d) => if s.len() == 1 {
                Some(d)
            } else {
                match decimal_value(s.drop_last()) {
                    Some(v) => if v * 10 + d <= LIMIT {
                        Some(v * 10 + d)
                    } else {
                        None
                    },
                    None => None,
                }
            },
        }
    }
}

/// Where the first `.` or `/` stands in `s` at or after `from`; the length of
/// `s` where there is none.
pub open spec fn separator(s: Seq<char>, from: nat) -> nat
    decreases s.len() - from,
{
    if from >= s.len() {
        s.len()
    } else if s[from as int] == '.' || s[from as int] == '/' {
        from
    } else {
        separator(s, from + 1)
    }
}

/// 1 followed by `k` zeros, where that is at most [`LIMIT`].
pub open spec fn power_of_ten(k: nat) -> Option<nat>
    decreases k,
{
    if k == 0 {
        Some(1)
    } else {
        match power_of_ten((k - 1) as nat) {
            Some(p) => if p * 10 <= LIMIT {
                Some(p * 10)
            } else {
                None
            },
            None => None,
        }
    }
}

/// How many digits behind the decimal point write out a number with the
/// denominator `den`: the least number of them from `k` to 18, where there is
/// one.
pub open spec fn places(den: nat, k: nat) -> Option<nat>
    decreases 19 - k,
{
    if k > 18 || den == 0 {
        None
    } else {
        match power_of_ten(k) {
            Some(p) => if p % den == 0 {
                Some(k)
            } else {
                places(den, k + 1)
            },
            None => places(den, k + 1),
        }
    }
}

/// `n` in `k` decimal digits, with zeros in front where it has fewer.
pub open spec fn padded(n: nat, k: nat) -> Seq<char>
    decreases k,
{
    if k == 0 {
        Seq::empty()
    } else {
        padded(n / 10, (k - 1) as nat).push(digit(n % 10))
    }
}

/// `m / den` written with a decimal point, where 18 digits behind the point
/// are enough and the digits without the point say no more than [`LIMIT`]:
/// the number that those digits say, and how many of them stand behind the
/// point.
pub open spec fn pointed(m: nat, den: nat) -> Option<(nat, nat)> {
    match places(den, 1) {
        Some(k) => match power_of_ten(k) {
            Some(p) => if m * (p / den) <= LIMIT {
                Some((m * (p / den), k))
            } else {
                None
            },
            None => None,
        },
        None => None,
    }
}

/// Whether `c` is the letter given, small or capital.
pub open spec fn either(c: char, small: char, capital: char) -> bool {
    c == small || c == capital
}

/// Whether `s` spells `inf` or `infinity`, in small or capital letters.
pub open spec fn says_infinity(s: Seq<char>) -> bool {
    &&& s.len() == 3 || s.len() == 8
    &&& either(s[0], 'i', 'I')
    &&& either(s[1], 'n', 'N')
    &&& either(s[2], 'f', 'F')
    &&& s.len() == 8 ==> {
        &&& either(s[3], 'i', 'I')
        &&& either(s[4], 'n', 'N')
        &&& either(s[5], 'i', 'I')
        &&& either(s[6], 't', 'T')
        &&& either(s[7], 'y', 'Y')
    }
}

/// Where the first `e` or `E` stands in `s` at or after `from`; the length
/// of `s` where there is none.
pub open spec fn exponent_mark(s: Seq<char>, from: nat) -> nat
    decreases s.len() - from,
{
    if from >= s.len() {
        s.len()
    } else if s[from as int] == 'e' || s[from as int] == 'E' {
        from
    } else {
        exponent_mark(s, from + 1)
    }
}

impl Fraction {
    /// The number written out.
    pub open spec fn text(self) -> Seq<char> {
        if self.is_nan() {
            seq!['N', 'a', 'N']
        } else if self.is_infinite() {
            if self.num < 0 {
                seq!['-', 'i', 'n', 'f']
            } else {
                seq!['i', 'n', 'f']
            }
        } else {
            let sign = if self.num < 0 {
                seq!['-']
            } else {
                Seq::<char>::empty()
            };
            let m = magnitude(self.num);
            if self.den == 1 {
                sign + decimal(m)
            } else {
                match pointed(m, self.den) {
                    Some((all, k)) => {
                        let p = power_of_ten(k)->0;
                        sign + decimal(all / p) + seq!['.'] + padded(all % p, k)
                    },
                    None => sign + decimal(m) + seq!['/'] + decimal(self.den),
                }
            }
        }
    }

    /// The number that `s` says, unsigned: digits; digits, `/` and digits;
    /// or digits, `.` and digits, where the digits may be missing on one side
    /// of the point. Anything else is not a number.
    pub open spec fn parse_unsigned(s: Seq<char>, negative: bool) -> Fraction {
        let cut = separator(s, 0);
        if cut >= s.len() {
            match decimal_value(s) {
                Some(n) => Fraction::of(if negative { -(n as int) } else { n as int }, 1),
                None => Fraction::nan(),
            }
        } else {
            let head = s.subrange(0, cut as int);
            let tail = s.subrange(cut as int + 1, s.len() as int);
            if s[cut as int] == '/' {
                match (decimal_value(head), decimal_value(tail)) {
                    (Some(n), Some(d)) => Fraction::of(
                        if negative { -(n as int) } else { n as int },
                        d as int,
                    ),
                    _ => Fraction::nan(),
                }
            } else {
                let whole = head.len() == 0 || decimal_value(head) is Some;
                let part = tail.len() == 0 || decimal_value(tail) is Some;
                match (decimal_value(head + tail), power_of_ten(tail.len())) {
                    (Some(n), Some(p)) => if whole && part {
                        Fraction::of(if negative { -(n as int) } else { n as int }, p as int)
                    } else {
                        Fraction::nan()
                    },
                    _ => Fraction::nan(),
                }
            }
        }
    }

    /// `mantissa` times the power of ten that `exponent` says: digits, with
    /// `+` or `-` in front or without. It is not a number where `exponent`
    /// says nothing, or the power of ten is more than [`LIMIT`].
    pub open spec fn scaled(mantissa: Fraction, exponent: Seq<char>) -> Fraction {
        let signed = exponent.len() > 0 && (exponent[0] == '-' || exponent[0] == '+');
        let digits = if signed {
            exponent.subrange(1, exponent.len() as int)
        } else {
            exponent
        };
        match decimal_value(digits) {
            Some(e) => match power_of_ten(e) {
                Some(p) => if signed && exponent[0] == '-' {
                    mantissa.divided(Fraction::of(p as int, 1))
                } else {
                    mantissa.multiplied(Fraction::of(p as int, 1))
                },
                None => Fraction::nan(),
            },
            None => Fraction::nan(),
        }
    }

    /// The number that `s` says, with the sign given: an infinity, a number
    /// as `parse_unsigned` reads it, or such a number, `e` or `E`, and an
    /// exponent of ten.
    pub open spec fn parse_body(s: Seq<char>, negative: bool) -> Fraction {
        if says_infinity(s) {
            Fraction::infinity(negative)
        } else {
            let mark = exponent_mark(s, 0);
            if mark >= s.len() {
                Fraction::parse_unsigned(s, negative)
            } else {
                Fraction::scaled(
                    Fraction::parse_unsigned(s.subrange(0, mark as int), negative),
                    s.subrange(mark as int + 1, s.len() as int),
                )
            }
        }
    }

    /// The number that `s` says, with `+` or `-` in front or without; what
    /// says none is not a number.
    pub open spec fn parse(s: Seq<char>) -> Fraction {
        if s.len() > 0 && s[0] == '-' {
            Fraction::parse_body(s.subrange(1, s.len() as int), true)
        } else if s.len() > 0 && s[0] == '+' {
            Fraction::parse_body(s.subrange(1, s.len() as int), false)
        } else {
            Fraction::parse_body(s, false)
        }
    }
}

fn digit_char(d: u64) -> (c: char)
    requires
        d < 10,
    ensures
        c == digit(d as nat),
{
    if d == 0 {
        '0'
    } else if d == 1 {
        '1'
    } else if d == 2 {
        '2'
    } else if d == 3 {
        '3'
    } else if d == 4 {
        '4'
    } else if d == 5 {
        '5'
    } else if d == 6 {
        '6'
    } else if d == 7 {
        '7'
    } else if d == 8 {
        '8'
    } else {
        '9'
    }
}

fn value_of_digit(c: char) -> (r: Option<u64>)
    ensures
        match r {
            Some(d) => digit_value(c) == Some(d as nat) && d < 10,
            None => digit_value(c) is None,
        },
{
    if c == '0' {
        Some(0)
    } else if c == '1' {
        Some(1)
    } else if c == '2' {
        Some(2)
    } else if c == '3' {
        Some(3)
    } else if c == '4' {
        Some(4)
    } else if c == '5' {
        Some(5)
    } else if c == '6' {
        Some(6)
    } else if c == '7' {
        Some(7)
    } else if c == '8' {
        Some(8)
    } else if c == '9' {
        Some(9)
    } else {
        None
    }
}

/// Appends `n` in decimal digits.
fn push_decimal(out: &mut Vec<char>, n: u64)
    ensures
        final(out)@ == old(out)@ + decimal(n as nat),
    decreases n,
{
    if n >= 10 {
        push_decimal(out, n / 10);
    }
    out.push(digit_char(n % 10));
    assert(out@ =~= old(out)@ + decimal(n as nat));
}

/// Appends `n` in `k` decimal digits, with zeros in front where it has
/// fewer.
fn push_padded(out: &mut Vec<char>, n: u64, k: usize)
    ensures
        final(out)@ == old(out)@ + padded(n as nat, k as nat),
    decreases k,
{
    if k > 0 {
        push_padded(out, n / 10, k - 1);
        out.push(digit_char(n % 10));
    }
    assert(out@ =~= old(out)@ + padded(n as nat, k as nat));
}

/// The powers of ten up to the eighteenth are within the limit.
proof fn lemma_powers_of_ten(k: nat)
    requires
        k <= 18,
    ensures
        power_of_ten(k) is Some,
{
    assert(power_of_ten(0) == Some(1nat));
    assert(power_of_ten(1) == Some(10nat));
    assert(power_of_ten(2) == Some(100nat));
    assert(power_of_ten(3) == Some(1_000nat));
    assert(power_of_ten(4) == Some(10_000nat));
    assert(power_of_ten(5) == Some(100_000nat));
    assert(power_of_ten(6) == Some(1_000_000nat));
    assert(power_of_ten(7) == Some(10_000_000nat));
    assert(power_of_ten(8) == Some(100_000_000nat));
    assert(power_of_ten(9) == Some(1_000_000_000nat));
    assert(power_of_ten(10) == Some(10_000_000_000nat));
    assert(power_of_ten(11) == Some(100_000_000_000nat));
    assert(power_of_ten(12) == Some(1_000_000_000_000nat));
    assert(power_of_ten(13) == Some(10_000_000_000_000nat));
    assert(power_of_ten(14) == Some(100_000_000_000_000nat));
    assert(power_of_ten(15) == Some(1_000_000_000_000_000nat));
    assert(power_of_ten(16) == Some(10_000_000_000_000_000nat));
    assert(power_of_ten(17) == Some(100_000_000_000_000_000nat));
    assert(power_of_ten(18) == Some(1_000_000_000_000_000_000nat));
}

/// How many digits behind the decimal point write out a number with the
/// denominator `den`, and the power of ten with as many zeros.
fn decimal_places(den: u64) -> (r: Option<(usize, u64)>)
    requires
        den > 0,
    ensures
        match r {
            Some((k, p)) => places(den as nat, 1) == Some(k as nat) && power_of_ten(k as nat)
                == Some(p as nat) && p % den == 0 && 1 <= k <= 18 && p > 0,
            None => places(den as nat, 1) is None,
        },
{
    let mut k: usize = 1;
    let mut p: u64 = 10;
    proof {
        lemma_powers_of_ten(1);
        assert(power_of_ten(0) == Some(1nat));
    }
    while k <= 18
        invariant
            1 <= k <= 19,
            den > 0,
            p > 0,
            k <= 18 ==> power_of_ten(k as nat) == Some(p as nat),
            places(den as nat, 1) == places(den as nat, k as nat),
        decreases 19 - k,
    {
        if p % den == 0 {
            return Some((k, p));
        }
        k = k + 1;
        if k <= 18 {
            proof {
                lemma_powers_of_ten(k as nat);
            }
            p = p * 10;
        }
    }
    None
}

/// `m / den` written with a decimal point, where it can be: the number that
/// the digits say, how many of them stand behind the point, and the power of
/// ten with as many zeros.
fn point_form(m: u64, den: u64) -> (r: Option<(u64, usize, u64)>)
    requires
        den > 0,
        m <= LIMIT,
    ensures
        match r {
            Some((all, k, p)) => pointed(m as nat, den as nat) == Some((all as nat, k as nat))
                && power_of_ten(k as nat) == Some(p as nat) && p > 0,
            None => pointed(m as nat, den as nat) is None,
        },
{
    match decimal_places(den) {
        Some((k, p)) => {
            let q = p / den;
            assert((m as int) * (q as int) <= 0x7fff_ffff_ffff_ffff * 0x7fff_ffff_ffff_ffff)
                by (nonlinear_arith)
                requires
                    0 <= m <= 0x7fff_ffff_ffff_ffff,
                    0 <= q <= 0x7fff_ffff_ffff_ffff,
            ;
            let all: u128 = (m as u128) * (q as u128);
            if all <= LIMIT as u128 {
                Some((all as u64, k, p))
            } else {
                None
            }
        },
        None => None,
    }
}

/// The number that the digits of `s` from `from` to `to` stand for.
fn read_decimal(s: &Vec<char>, from: usize, to: usize) -> (r: Option<u64>)
    requires
        from <= to <= s.len(),
    ensures
        match r {
            Some(n) => decimal_value(s@.subrange(from as int, to as int)) == Some(n as nat),
            None => decimal_value(s@.subrange(from as int, to as int)) is None,
        },
{
    if from == to {
        return None;
    }
    let mut acc: u64 = 0;
    let mut i: usize = from;
    while i < to
        invariant
            from <= i <= to <= s.len(),
            acc <= LIMIT,
            i > from ==> decimal_value(s@.subrange(from as int, i as int)) == Some(acc as nat),
            i == from ==> acc == 0,
        decreases to - i,
    {
        let ghost part = s@.subrange(from as int, i + 1);
        proof {
            assert(part.last() == s@[i as int]);
            assert(part.drop_last() =~= s@.subrange(from as int, i as int));
        }
        match value_of_digit(s[i]) {
            None => {
                proof {
                    assert(s@.subrange(from as int, to as int).subrange(0, i + 1 - from)
                        =~= part);
                    assert(decimal_value(part) is None);
                    lemma_decimal_value_prefix(s@.subrange(from as int, to as int), i + 1 - from);
                }
                return None;
            },
            Some(d) => {
                let next: u128 = (acc as u128) * 10 + (d as u128);
                if next > LIMIT as u128 {
                    proof {
                        assert(s@.subrange(from as int, to as int).subrange(0, i + 1 - from)
                            =~= part);
                        assert(decimal_value(part) is None);
                        lemma_decimal_value_prefix(
                            s@.subrange(from as int, to as int),
                            i + 1 - from,
                        );
                    }
                    return None;
                }
                acc = next as u64;
            },
        }
        i = i + 1;
    }
    Some(acc)
}

/// Where no number is read from the start of a string of digits, none is read
/// from the whole.
proof fn lemma_decimal_value_prefix(s: Seq<char>, n: int)
    requires
        0 < n <= s.len(),
        decimal_value(s.subrange(0, n)) is None,
    ensures
        decimal_value(s) is None,
    decreases s.len(),
{
    if n < s.len() {
        assert(s.drop_last().subrange(0, n) =~= s.subrange(0, n));
        lemma_decimal_value_prefix(s.drop_last(), n);
    } else {
        assert(s.subrange(0, n) =~= s);
    }
}

impl Number {
    /// The number written out.
    pub fn to_chars(&self) -> (r: Vec<char>)
        ensures
            r@ == self@.text(),
    {
        let mut out: Vec<char> = Vec::new();
        if self.is_nan() {
            out.push('N');
            out.push('a');
            out.push('N');
            assert(out@ =~= seq!['N', 'a', 'N']);
            return out;
        }
        if self.is_infinite() {
            if self.numerator() < 0 {
                out.push('-');
            }
            out.push('i');
            out.push('n');
            out.push('f');
            assert(out@ =~= self@.text());
            return out;
        }
        let num = self.numerator();
        let den = self.denominator();
        let m: u64 = if num < 0 {
            out.push('-');
            (-num) as u64
        } else {
            num as u64
        };
        if den == 1 {
            push_decimal(&mut out, m);
            assert(out@ =~= self@.text());
            return out;
        }
        match point_form(m, den) {
            Some((all, k, p)) => {
                push_decimal(&mut out, all / p);
                out.push('.');
                push_padded(&mut out, all % p, k);
            },
            None => {
                push_decimal(&mut out, m);
                out.push('/');
                push_decimal(&mut out, den);
            },
        }
        assert(out@ =~= self@.text());
        out
    }

    /// The number that the characters of `s` from `from` on say, with the
    /// sign given.
    fn parse_unsigned(s: &Vec<char>, from: usize, negative: bool) -> (r: Number)
        requires
            from <= s.len(),
        ensures
            r@ == Fraction::parse_unsigned(s@.subrange(from as int, s.len() as int), negative),
    {
        let ghost body = s@.subrange(from as int, s.len() as int);
        let mut cut: usize = from;
        while cut < s.len() && s[cut] != '.' && s[cut] != '/'
            invariant
                from <= cut <= s.len(),
                body == s@.subrange(from as int, s.len() as int),
                separator(body, 0) == separator(body, (cut - from) as nat),
            decreases s.len() - cut,
        {
            assert(body[cut - from] == s@[cut as int]);
            cut = cut + 1;
        }
        proof {
            if cut < s.len() {
                assert(body[cut - from] == s@[cut as int]);
            }
            assert(separator(body, 0) == cut - from);
        }
        if cut >= s.len() {
            return match read_decimal(s, from, s.len()) {
                Some(n) => {
                    if negative {
                        Number::new(-(n as i64), 1)
                    } else {
                        Number::new(n as i64, 1)
                    }
                },
                None => Number::nan(),
            };
        }
        proof {
            assert(body.subrange(0, cut - from) =~= s@.subrange(from as int, cut as int));
            assert(body.subrange(cut - from + 1, body.len() as int) =~= s@.subrange(
                cut + 1,
                s.len() as int,
            ));
        }
        let head = read_decimal(s, from, cut);
        let tail = read_decimal(s, cut + 1, s.len());
        if s[cut] == '/' {
            return match (head, tail) {
                (Some(n), Some(d)) => {
                    if negative {
                        Number::new(-(n as i64), d as i64)
                    } else {
                        Number::new(n as i64, d as i64)
                    }
                },
                _ => Number::nan(),
            };
        }
        if (cut > from && head.is_none()) || (cut + 1 < s.len() && tail.is_none()) {
            return Number::nan();
        }
        // The digits on both sides of the point, read as one number.
        let mut joined: Vec<char> = Vec::new();
        let mut i: usize = from;
        while i < cut
            invariant
                from <= i <= cut < s.len(),
                joined@ == s@.subrange(from as int, i as int),
            decreases cut - i,
        {
            joined.push(s[i]);
            i = i + 1;
        }
        let mut scale: u64 = 1;
        let mut fits = true;
        let mut j: usize = cut + 1;
        while j < s.len()
            invariant
                cut < j <= s.len(),
                joined@ == s@.subrange(from as int, cut as int) + s@.subrange(cut + 1, j as int),
                fits ==> power_of_ten((j - cut - 1) as nat) == Some(scale as nat),
                !fits ==> power_of_ten((j - cut - 1) as nat) is None,
                scale <= LIMIT,
            decreases s.len() - j,
        {
            joined.push(s[j]);
            if fits {
                if scale > LIMIT / 10 {
                    fits = false;
                } else {
                    scale = scale * 10;
                }
            }
            j = j + 1;
        }
        let n = read_decimal(&joined, 0, joined.len());
        proof {
            assert(joined@.subrange(0, joined.len() as int) =~= joined@);
        }
        match n {
            Some(n) => {
                if fits {
                    if negative {
                        Number::new(-(n as i64), scale as i64)
                    } else {
                        Number::new(n as i64, scale as i64)
                    }
                } else {
                    Number::nan()
                }
            },
            None => Number::nan(),
        }
    }

    /// `self` times the power of ten that `exponent` says.
    fn scaled(&self, exponent: &Vec<char>) -> (r: Number)
        ensures
            r@ == Fraction::scaled(self@, exponent@),
    {
        let signed = exponent.len() > 0 && (exponent[0] == '-' || exponent[0] == '+');
        let from: usize = if signed {
            1
        } else {
            0
        };
        proof {
            if !signed {
                assert(exponent@.subrange(0, exponent.len() as int) =~= exponent@);
            }
        }
        match read_decimal(exponent, from, exponent.len()) {
            Some(e) => match ten_to(e) {
                Some(p) => {
                    let power = Number::new(p as i64, 1);
                    if signed && exponent[0] == '-' {
                        self.div(&power)
                    } else {
                        self.mul(&power)
                    }
                },
                None => Number::nan(),
            },
            None => Number::nan(),
        }
    }

    /// The number that `s` says, with the sign given.
    fn parse_body(s: &Vec<char>, negative: bool) -> (r: Number)
        ensures
            r@ == Fraction::parse_body(s@, negative),
    {
        if spells_infinity(s) {
            return Number::infinity(negative);
        }
        let mut mark: usize = 0;
        while mark < s.len() && s[mark] != 'e' && s[mark] != 'E'
            invariant
                mark <= s.len(),
                exponent_mark(s@, 0) == exponent_mark(s@, mark as nat),
            decreases s.len() - mark,
        {
            mark = mark + 1;
        }
        if mark >= s.len() {
            proof {
                assert(s@.subrange(0, s.len() as int) =~= s@);
            }
            Number::parse_unsigned(s, 0, negative)
        } else {
            let front = slice_chars(s, 0, mark);
            let back = slice_chars(s, mark + 1, s.len());
            proof {
                assert(front@.subrange(0, front.len() as int) =~= front@);
            }
            let mantissa = Number::parse_unsigned(&front, 0, negative);
            mantissa.scaled(&back)
        }
    }

    /// The number that `s` says; what says none is not a number.
    pub fn parse(s: &Vec<char>) -> (r: Number)
        ensures
            r@ == Fraction::parse(s@),
    {
        if s.len() > 0 && (s[0] == '-' || s[0] == '+') {
            let body = slice_chars(s, 1, s.len());
            Number::parse_body(&body, s[0] == '-')
        } else {
            Number::parse_body(s, false)
        }
    }
}

/// Whether `c` is the letter given, small or capital.
fn is_either(c: char, small: char, capital: char) -> (r: bool)
    ensures
        r == either(c, small, capital),
{
    c == small || c == capital
}

/// Whether `s` spells `inf` or `infinity`, in small or capital letters.
fn spells_infinity(s: &Vec<char>) -> (r: bool)
    ensures
        r == says_infinity(s@),
{
    if s.len() != 3 && s.len() != 8 {
        return false;
    }
    if !(is_either(s[0], 'i', 'I') && is_either(s[1], 'n', 'N') && is_either(s[2], 'f', 'F')) {
        return false;
    }
    if s.len() == 3 {
        return true;
    }
    is_either(s[3], 'i', 'I') && is_either(s[4], 'n', 'N') && is_either(s[5], 'i', 'I')
        && is_either(s[6], 't', 'T') && is_either(s[7], 'y', 'Y')
}

/// 1 followed by `k` zeros, where that is at most [`LIMIT`].
fn ten_to(k: u64) -> (r: Option<u64>)
    ensures
        match r {
            Some(p) => power_of_ten(k as nat) == Some(p as nat),
            None => power_of_ten(k as nat) is None,
        },
{
    let mut p: u64 = 1;
    let mut i: u64 = 0;
    while i < k
        invariant
            i <= k,
            p <= LIMIT,
            power_of_ten(i as nat) == Some(p as nat),
        decreases k - i,
    {
        if p > LIMIT / 10 {
            proof {
                assert(power_of_ten((i + 1) as nat) is None);
                lemma_power_of_ten_none((i + 1) as nat, k as nat);
            }
            return None;
        }
        p = p * 10;
        i = i + 1;
    }
    Some(p)
}

/// Where a power of ten is more than the limit, so are the greater ones.
proof fn lemma_power_of_ten_none(j: nat, k: nat)
    requires
        j <= k,
        power_of_ten(j) is None,
    ensures
        power_of_ten(k) is None,
    decreases k,
{
    if j < k {
        lemma_power_of_ten_none(j, (k - 1) as nat);
    }
}

/// `n / d` is well formed.
pub proof fn lemma_of_wf(n: int, d: int)
    ensures
        Fraction::of(n, d).wf(),
{
    if d < 0 {
        if Fraction::exact(-n, (-d) as nat) is Some {
            lemma_exact(-n, (-d) as nat);
        }
    } else {
        if Fraction::exact(n, d as nat) is Some {
            lemma_exact(n, d as nat);
        }
    }
}

/// The number that a string says is well formed.
pub proof fn lemma_parse_wf(s: Seq<char>)
    ensures
        Fraction::parse(s).wf(),
{
    assert forall|n: int, d: int| (#[trigger] Fraction::of(n, d)).wf() by {
        lemma_of_wf(n, d);
    }
    assert forall|t: Seq<char>, negative: bool| (#[trigger] Fraction::parse_unsigned(
        t,
        negative,
    )).wf() by {}
    assert forall|m: Fraction, t: Seq<char>| m.wf() implies (#[trigger] Fraction::scaled(
        m,
        t,
    )).wf() by {
        assert forall|p: int| (#[trigger] m.multiplied(Fraction::of(p, 1))).wf() by {
            lemma_multiplied_wf(m, Fraction::of(p, 1));
        }
        assert forall|p: int| (#[trigger] m.divided(Fraction::of(p, 1))).wf() by {
            lemma_divided_wf(m, Fraction::of(p, 1));
        }
    }
}

/// The digits that `decimal` writes are digits, and they say the number
/// written.
pub proof fn lemma_decimal(m: nat)
    ensures
        decimal(m).len() > 0,
        forall|i: int| 0 <= i < decimal(m).len() ==> digit_value(#[trigger] decimal(m)[i]) is Some,
        m <= LIMIT ==> decimal_value(decimal(m)) == Some(m),
    decreases m,
{
    if m >= 10 {
        lemma_decimal(m / 10);
        let front = decimal(m / 10);
        let all = decimal(m);
        assert(all.drop_last() =~= front);
        assert(all.last() == digit(m % 10));
        assert forall|i: int| 0 <= i < all.len() implies digit_value(#[trigger] all[i]) is Some by {
            if i < front.len() {
                assert(all[i] == front[i]);
            }
        }
    }
}

/// The first `.` or `/` is not among digits.
proof fn lemma_separator(s: Seq<char>, from: nat, to: nat)
    requires
        from <= to <= s.len(),
        forall|i: int| from <= i < to ==> digit_value(#[trigger] s[i]) is Some,
        to < s.len() ==> s[to as int] == '.' || s[to as int] == '/',
    ensures
        separator(s, from) == to,
    decreases to - from,
{
    if from < to {
        assert(digit_value(s[from as int]) is Some);
        lemma_separator(s, from + 1, to);
    }
}

/// Digits alone are read as the whole number that they say.
proof fn lemma_parse_whole(m: nat, negative: bool)
    requires
        m <= LIMIT,
    ensures
        Fraction::parse_unsigned(decimal(m), negative) == Fraction::of(
            if negative {
                -(m as int)
            } else {
                m as int
            },
            1,
        ),
{
    let body = decimal(m);
    lemma_decimal(m);
    lemma_separator(body, 0, body.len());
}

/// Digits, `/` and digits are read as the fraction that they say.
proof fn lemma_parse_fraction(m: nat, d: nat, negative: bool)
    requires
        m <= LIMIT,
        d <= LIMIT,
    ensures
        Fraction::parse_unsigned(decimal(m) + seq!['/'] + decimal(d), negative) == Fraction::of(
            if negative {
                -(m as int)
            } else {
                m as int
            },
            d as int,
        ),
{
    let digits = decimal(m);
    let body = digits + seq!['/'] + decimal(d);
    lemma_decimal(m);
    lemma_decimal(d);
    assert forall|i: int| 0 <= i < digits.len() implies digit_value(#[trigger] body[i]) is Some by {
        assert(body[i] == digits[i]);
    }
    assert(body[digits.len() as int] == '/');
    lemma_separator(body, 0, digits.len());
    assert(body.subrange(0, digits.len() as int) =~= digits);
    assert(body.subrange(digits.len() as int + 1, body.len() as int) =~= decimal(d));
}

/// Digits behind a number's digits: together they say the number times the
/// power of ten, and what the digits behind say.
proof fn lemma_joined(x: Seq<char>, v: nat, b: nat, k: nat)
    requires
        decimal_value(x) == Some(v),
        power_of_ten(k) is Some,
        b < power_of_ten(k)->0,
        v * power_of_ten(k)->0 + b <= LIMIT,
    ensures
        decimal_value(x + padded(b, k)) == Some(v * power_of_ten(k)->0 + b),
        padded(b, k).len() == k,
        forall|i: int| 0 <= i < k ==> digit_value(#[trigger] padded(b, k)[i]) is Some,
    decreases k,
{
    if k == 0 {
        assert(x + padded(b, k) =~= x);
    } else {
        let q = power_of_ten((k - 1) as nat)->0;
        let p = power_of_ten(k)->0;
        assert(p == q * 10);
        assert(v * p == v * q * 10) by (nonlinear_arith)
            requires
                p == q * 10,
        ;
        lemma_joined(x, v, b / 10, (k - 1) as nat);
        let front = padded(b / 10, (k - 1) as nat);
        let y = x + padded(b, k);
        assert(y.drop_last() =~= x + front);
        assert(y.last() == digit(b % 10));
        assert(digit_value(digit(b % 10)) == Some(b % 10));
        assert forall|i: int| 0 <= i < k implies digit_value(#[trigger] padded(b, k)[i])
            is Some by {
            if i < k - 1 {
                assert(padded(b, k)[i] == front[i]);
            }
        }
    }
}

/// Digits with zeros in front say the number that they were written for.
proof fn lemma_padded(b: nat, k: nat)
    requires
        k >= 1,
        power_of_ten(k) is Some,
        b < power_of_ten(k)->0,
    ensures
        decimal_value(padded(b, k)) == Some(b),
    decreases k,
{
    let y = padded(b, k);
    let front = padded(b / 10, (k - 1) as nat);
    assert(y.drop_last() =~= front);
    assert(y.last() == digit(b % 10));
    assert(digit_value(digit(b % 10)) == Some(b % 10));
    if k == 1 {
        assert(power_of_ten(0) == Some(1nat));
        assert(front.len() == 0);
        assert(y.len() == 1);
    } else {
        lemma_padded(b / 10, (k - 1) as nat);
        lemma_joined(seq!['0'], 0, b, k);
    }
}

/// Digits, `.` and digits are read as the number that they say.
proof fn lemma_parse_point(all: nat, k: nat, negative: bool)
    requires
        1 <= k,
        power_of_ten(k) is Some,
        all <= LIMIT,
    ensures
        Fraction::parse_unsigned(
            decimal(all / power_of_ten(k)->0) + seq!['.'] + padded(all % power_of_ten(k)->0, k),
            negative,
        ) == Fraction::of(
            if negative {
                -(all as int)
            } else {
                all as int
            },
            power_of_ten(k)->0 as int,
        ),
{
    let p = power_of_ten(k)->0;
    assert(p > 0) by {
        lemma_power_positive(k);
    }
    let a = all / p;
    let b = all % p;
    let head = decimal(a);
    let tail = padded(b, k);
    let body = head + seq!['.'] + tail;
    assert(a * p + b == all) by (nonlinear_arith)
        requires
            a == all / p,
            b == all % p,
            p > 0,
    ;
    assert(a <= all) by (nonlinear_arith)
        requires
            a * p + b == all,
            p > 0,
            a >= 0,
            b >= 0,
    ;
    lemma_decimal(a);
    lemma_joined(head, a, b, k);
    lemma_padded(b, k);
    assert forall|i: int| 0 <= i < head.len() implies digit_value(#[trigger] body[i]) is Some by {
        assert(body[i] == head[i]);
    }
    assert(body[head.len() as int] == '.');
    lemma_separator(body, 0, head.len());
    assert(body.subrange(0, head.len() as int) =~= head);
    assert(body.subrange(head.len() as int + 1, body.len() as int) =~= tail);
}

/// A power of ten is not 0.
proof fn lemma_power_positive(k: nat)
    requires
        power_of_ten(k) is Some,
    ensures
        power_of_ten(k)->0 > 0,
    decreases k,
{
    if k > 0 {
        lemma_power_positive((k - 1) as nat);
    }
}

/// Where no `e` and no `E` stands, no exponent is marked.
proof fn lemma_no_mark(s: Seq<char>, from: nat)
    requires
        from <= s.len(),
        forall|i: int| from <= i < s.len() ==> #[trigger] s[i] != 'e' && s[i] != 'E',
    ensures
        exponent_mark(s, from) == s.len(),
    decreases s.len() - from,
{
    if from < s.len() {
        assert(s[from as int] != 'e' && s[from as int] != 'E');
        lemma_no_mark(s, from + 1);
    }
}

/// What the sign and the body of a written number are read as.
proof fn lemma_parse_signed(body: Seq<char>, negative: bool)
    requires
        body.len() > 0,
        digit_value(body[0]) is Some,
        forall|i: int| 0 <= i < body.len() ==> #[trigger] body[i] != 'e' && body[i] != 'E',
    ensures
        Fraction::parse(
            if negative {
                seq!['-'] + body
            } else {
                body
            },
        ) == Fraction::parse_unsigned(body, negative),
{
    lemma_no_mark(body, 0);
    assert(!says_infinity(body));
    if negative {
        let s = seq!['-'] + body;
        assert(s[0] == '-');
        assert(s.subrange(1, s.len() as int) =~= body);
    }
}

/// Reading a number that was written out with a decimal point gives the
/// number.
proof fn lemma_parse_text_point(n: Fraction)
    requires
        n.wf(),
        n.finite(),
        n.den != 1,
        pointed(magnitude(n.num), n.den) is Some,
    ensures
        Fraction::parse(n.text()) == n,
{
    let s = n.text();
    let m = magnitude(n.num);
    let negative = n.num < 0;
    let (all, k) = pointed(m, n.den)->0;
    lemma_places(n.den, 1);
    let p = power_of_ten(k)->0;
    lemma_power_positive(k);
    let head = decimal(all / p);
    let tail = padded(all % p, k);
    let body = head + seq!['.'] + tail;
    lemma_decimal(all / p);
    lemma_parse_point(all, k, negative);
    lemma_padded_digits(all % p, k);
    assert(body[0] == head[0]);
    assert forall|i: int| 0 <= i < body.len() implies #[trigger] body[i] != 'e' && body[i]
        != 'E' by {
        if i < head.len() {
            assert(body[i] == head[i]);
            assert(digit_value(head[i]) is Some);
        } else if i > head.len() {
            assert(body[i] == tail[i - head.len() - 1]);
            assert(digit_value(tail[i - head.len() - 1]) is Some);
        }
    }
    lemma_parse_signed(body, negative);
    assert(s =~= if negative {
        seq!['-'] + body
    } else {
        body
    });
    let signed = if negative {
        -(all as int)
    } else {
        all as int
    };
    assert(Fraction::parse(s) == Fraction::of(signed, p as int));
    lemma_point_value(n, all, p);
    lemma_exact_is(signed, p, n);
}

/// The digits of a number written with a decimal point say the number times
/// the power of ten.
proof fn lemma_point_value(n: Fraction, all: nat, p: nat)
    requires
        n.den > 0,
        p % n.den == 0,
        all == magnitude(n.num) * (p / n.den),
    ensures
        n.num * p == (if n.num < 0 {
            -(all as int)
        } else {
            all as int
        }) * n.den,
{
    let m = magnitude(n.num) as int;
    let d = n.den as int;
    let q = (p / n.den) as int;
    assert(q * d == p) by (nonlinear_arith)
        requires
            q == (p as int) / d,
            (p as int) % d == 0,
            d > 0,
    ;
    assert(all * d == m * p) by (nonlinear_arith)
        requires
            all == m * q,
            q * d == p,
    ;
    if n.num < 0 {
        assert(n.num * p == (-(all as int)) * d) by (nonlinear_arith)
            requires
                all * d == m * p,
                n.num == -m,
        ;
    }
}

/// Reading a number that was written out as a fraction gives the number.
proof fn lemma_parse_text_fraction(n: Fraction)
    requires
        n.wf(),
        n.finite(),
        n.den != 1,
        pointed(magnitude(n.num), n.den) is None,
    ensures
        Fraction::parse(n.text()) == n,
{
    let s = n.text();
    let m = magnitude(n.num);
    let negative = n.num < 0;
    lemma_decimal(m);
    let body = decimal(m) + seq!['/'] + decimal(n.den);
    lemma_decimal(n.den);
    assert(body[0] == decimal(m)[0]);
    assert forall|i: int| 0 <= i < body.len() implies #[trigger] body[i] != 'e' && body[i]
        != 'E' by {
        if i < decimal(m).len() {
            assert(digit_value(decimal(m)[i]) is Some);
        } else if i > decimal(m).len() {
            assert(body[i] == decimal(n.den)[i - decimal(m).len() - 1]);
            assert(digit_value(decimal(n.den)[i - decimal(m).len() - 1]) is Some);
        }
    }
    lemma_parse_signed(body, negative);
    lemma_parse_fraction(m, n.den, negative);
    assert(s =~= if negative {
        seq!['-'] + body
    } else {
        body
    });
    lemma_exact_is(n.num, n.den, n);
}

/// Reading a number that was written out gives the number.
pub proof fn lemma_parse_text(n: Fraction)
    requires
        n.wf(),
    ensures
        Fraction::parse(n.text()) == n,
{
    let s = n.text();
    if n.is_nan() {
        assert(s[0] == 'N');
        lemma_separator_none(s);
        lemma_no_mark(s, 0);
        assert(digit_value(s.last()) is None);
    } else if n.is_infinite() {
        if n.num < 0 {
            assert(s.subrange(1, s.len() as int) =~= seq!['i', 'n', 'f']);
        }
    } else if n.den == 1 {
        let m = magnitude(n.num);
        let negative = n.num < 0;
        lemma_decimal(m);
        let body = decimal(m);
        lemma_parse_signed(body, negative);
        lemma_parse_whole(m, negative);
        assert(s =~= if negative {
            seq!['-'] + body
        } else {
            body
        });
        lemma_exact_is(n.num, 1, n);
    } else if pointed(magnitude(n.num), n.den) is Some {
        lemma_parse_text_point(n);
    } else {
        lemma_parse_text_fraction(n);
    }
}

/// Digits with zeros in front are digits, as many as asked for.
proof fn lemma_padded_digits(b: nat, k: nat)
    ensures
        padded(b, k).len() == k,
        forall|i: int| 0 <= i < k ==> digit_value(#[trigger] padded(b, k)[i]) is Some,
    decreases k,
{
    if k > 0 {
        lemma_padded_digits(b / 10, (k - 1) as nat);
        let front = padded(b / 10, (k - 1) as nat);
        assert(digit_value(digit(b % 10)) == Some(b % 10));
        assert forall|i: int| 0 <= i < k implies digit_value(#[trigger] padded(b, k)[i])
            is Some by {
            if i < k - 1 {
                assert(padded(b, k)[i] == front[i]);
            }
        }
    }
}

/// The places found are places at which the denominator divides the power of
/// ten.
proof fn lemma_places(den: nat, k: nat)
    requires
        places(den, k) is Some,
    ensures
        k <= places(den, k)->0 <= 18,
        power_of_ten(places(den, k)->0) is Some,
        power_of_ten(places(den, k)->0)->0 % den == 0,
        den > 0,
    decreases 19 - k,
{
    if k <= 18 && den > 0 {
        match power_of_ten(k) {
            Some(p) => {
                if p % den != 0 {
                    lemma_places(den, k + 1);
                }
            },
            None => {
                lemma_places(den, k + 1);
            },
        }
    }
}

/// The text of what is not a number has no `.` and no `/`.
proof fn lemma_separator_none(s: Seq<char>)
    requires
        s == seq!['N', 'a', 'N'],
    ensures
        separator(s, 0) == 3,
{
    assert(separator(s, 3) == 3);
    assert(separator(s, 2) == 3);
    assert(separator(s, 1) == 3);
}

} // verus!
