use interpreter::number::{Number, LIMIT};

fn chars(s: &str) -> Vec<char> {
    s.chars().collect()
}

fn text(n: Number) -> String {
    n.to_chars().into_iter().collect()
}

#[test]
fn new_reduces_to_lowest_terms() {
    let n = Number::new(6, 4);
    assert_eq!(n.numerator(), 3);
    assert_eq!(n.denominator(), 2);
    assert_eq!(n, Number::new(3, 2));
}

#[test]
fn new_carries_the_sign_in_the_numerator() {
    let n = Number::new(3, -6);
    assert_eq!(n.numerator(), -1);
    assert_eq!(n.denominator(), 2);
    assert_eq!(Number::new(-3, -6), Number::new(1, 2));
    assert_eq!(Number::new(0, -5), Number::integer(0));
}

#[test]
fn zero_denominator_is_not_a_number() {
    assert!(Number::new(1, 0).is_nan());
    assert!(Number::new(0, 0).is_nan());
    assert_eq!(Number::new(7, 0), Number::nan());
    assert!(!Number::infinity(false).is_nan());
}

#[test]
fn the_smallest_integer_does_not_fit() {
    assert!(Number::integer(i64::MIN).is_nan());
    assert!(!Number::integer(i64::MIN + 1).is_nan());
    assert_eq!(Number::integer(i64::MAX).numerator() as u64, LIMIT);
}

#[test]
fn sums_are_exact() {
    let third = Number::new(1, 3);
    let sixth = Number::new(1, 6);
    assert_eq!(third.add(&sixth), Number::new(1, 2));
    let tenth = Number::new(1, 10);
    let fifth = Number::new(2, 10);
    assert_eq!(tenth.add(&fifth), Number::new(3, 10));
}

#[test]
fn differences_products_and_quotients_are_exact() {
    let a = Number::new(3, 4);
    let b = Number::new(5, 6);
    assert_eq!(a.sub(&b), Number::new(-1, 12));
    assert_eq!(a.mul(&b), Number::new(5, 8));
    assert_eq!(a.div(&b), Number::new(9, 10));
    assert_eq!(a.div(&Number::integer(-3)), Number::new(-1, 4));
    assert_eq!(a.neg(), Number::new(-3, 4));
}

#[test]
fn adding_and_taking_away_gives_the_number_back() {
    let x = Number::new(7, 9);
    let k = Number::new(22, 7);
    let there = x.add(&k);
    assert_eq!(there.sub(&k), x);
    let there = x.div(&k);
    assert_eq!(there.mul(&k), x);
}

#[test]
fn division_by_zero_is_infinite() {
    let zero = Number::integer(0);
    assert_eq!(Number::integer(1).div(&zero), Number::infinity(false));
    assert_eq!(Number::new(-3, 4).div(&zero), Number::infinity(true));
    assert!(zero.div(&zero).is_nan());
    assert!(Number::integer(1).div(&zero).is_infinite());
    assert!(!Number::integer(1).div(&zero).is_finite());
    assert!(Number::integer(1).is_finite());
}

#[test]
fn what_is_not_a_number_stays_so() {
    let nan = Number::nan();
    let one = Number::integer(1);
    let up = Number::infinity(false);
    assert!(nan.add(&one).is_nan());
    assert!(one.sub(&nan).is_nan());
    assert!(nan.mul(&nan).is_nan());
    assert!(one.div(&nan).is_nan());
    assert!(nan.neg().is_nan());
    assert!(nan.add(&up).is_nan());
    assert!(up.div(&nan).is_nan());
}

#[test]
fn the_infinities_behave_as_limits() {
    let up = Number::infinity(false);
    let down = Number::infinity(true);
    let two = Number::integer(2);
    let zero = Number::integer(0);
    assert_eq!(up.neg(), down);
    assert_eq!(up.add(&two), up);
    assert_eq!(two.add(&down), down);
    assert_eq!(up.add(&up), up);
    assert!(up.add(&down).is_nan());
    assert_eq!(two.sub(&up), down);
    assert_eq!(up.sub(&down), up);
    assert!(up.sub(&up).is_nan());
    assert_eq!(up.mul(&two), up);
    assert_eq!(two.neg().mul(&up), down);
    assert_eq!(down.mul(&down), up);
    assert!(up.mul(&zero).is_nan());
    assert_eq!(up.div(&two), up);
    assert_eq!(up.div(&two.neg()), down);
    assert_eq!(down.div(&zero), down);
    assert_eq!(two.div(&up), zero);
    assert_eq!(two.div(&down), zero);
    assert!(up.div(&down).is_nan());
}

#[test]
fn results_that_do_not_fit_are_not_a_number() {
    let big = Number::integer(i64::MAX);
    assert!(big.add(&Number::integer(1)).is_nan());
    assert!(big.mul(&Number::integer(2)).is_nan());
    let tiny = Number::new(1, i64::MAX);
    assert!(tiny.div(&Number::integer(2)).is_nan());
    assert_eq!(big.sub(&Number::integer(1)), Number::integer(i64::MAX - 1));
}

#[test]
fn count_is_for_whole_numbers_from_zero() {
    assert_eq!(Number::integer(3).count(), Some(3));
    assert_eq!(Number::integer(0).count(), Some(0));
    assert_eq!(Number::integer(-1).count(), None);
    assert_eq!(Number::new(1, 2).count(), None);
    assert_eq!(Number::nan().count(), None);
    assert_eq!(Number::from_count(12), Number::integer(12));
}

#[test]
fn whole_numbers_are_told_apart() {
    assert!(Number::integer(4).is_whole());
    assert!(Number::new(8, 2).is_whole());
    assert!(!Number::new(1, 2).is_whole());
    assert!(!Number::nan().is_whole());
}

#[test]
fn what_no_decimal_point_writes_out_is_written_as_a_fraction() {
    assert_eq!(text(Number::new(1, 3)), "1/3");
    assert_eq!(text(Number::new(-22, 7)), "-22/7");
    assert_eq!(text(Number::new(5, 6)), "5/6");
    // 19 digits behind the point would be needed.
    assert_eq!(text(Number::new(1, 1 << 19)), "1/524288");
    // The digits without the point would say more than the limit.
    assert_eq!(text(Number::new(i64::MAX, 2)), "9223372036854775807/2");
    assert_eq!(
        text(Number::new(1, i64::MAX)),
        "1/9223372036854775807"
    );
}

#[test]
fn numbers_are_written_out() {
    assert_eq!(text(Number::integer(0)), "0");
    assert_eq!(text(Number::integer(15)), "15");
    assert_eq!(text(Number::integer(-207)), "-207");
    assert_eq!(text(Number::new(1, 2)), "0.5");
    assert_eq!(text(Number::new(-10, 4)), "-2.5");
    assert_eq!(text(Number::new(1, 8)), "0.125");
    assert_eq!(text(Number::new(1, 10)), "0.1");
    assert_eq!(text(Number::new(5, 100)), "0.05");
    assert_eq!(text(Number::new(12345, 1000)), "12.345");
    assert_eq!(text(Number::new(1, 1_000_000_000_000_000_000)), "0.000000000000000001");
    assert_eq!(text(Number::nan()), "NaN");
    assert_eq!(text(Number::infinity(false)), "inf");
    assert_eq!(text(Number::infinity(true)), "-inf");
    assert_eq!(text(Number::integer(i64::MAX)), "9223372036854775807");
}

#[test]
fn digits_are_read_as_a_whole_number() {
    assert_eq!(Number::parse(&chars("42")), Number::integer(42));
    assert_eq!(Number::parse(&chars("-42")), Number::integer(-42));
    assert_eq!(Number::parse(&chars("007")), Number::integer(7));
    assert_eq!(Number::parse(&chars("-0")), Number::integer(0));
}

#[test]
fn a_decimal_point_is_read_exactly() {
    assert_eq!(Number::parse(&chars("1.5")), Number::new(3, 2));
    assert_eq!(Number::parse(&chars("0.125")), Number::new(1, 8));
    assert_eq!(Number::parse(&chars("-2.50")), Number::new(-5, 2));
    assert_eq!(Number::parse(&chars("3.0")), Number::integer(3));
}

#[test]
fn digits_may_be_missing_on_one_side_of_the_point() {
    assert_eq!(Number::parse(&chars("1.")), Number::integer(1));
    assert_eq!(Number::parse(&chars(".5")), Number::new(1, 2));
    assert_eq!(Number::parse(&chars("-.25")), Number::new(-1, 4));
    assert_eq!(Number::parse(&chars("+1")), Number::integer(1));
    assert_eq!(Number::parse(&chars("+0.5")), Number::new(1, 2));
}

#[test]
fn an_exponent_of_ten_is_read() {
    assert_eq!(Number::parse(&chars("1e5")), Number::integer(100_000));
    assert_eq!(Number::parse(&chars("1E5")), Number::integer(100_000));
    assert_eq!(Number::parse(&chars("1.5e3")), Number::integer(1500));
    assert_eq!(Number::parse(&chars("-2e+2")), Number::integer(-200));
    assert_eq!(Number::parse(&chars("25e-1")), Number::new(5, 2));
    assert_eq!(Number::parse(&chars("1e-3")), Number::new(1, 1000));
    assert_eq!(Number::parse(&chars("0e0")), Number::integer(0));
    assert_eq!(Number::parse(&chars("1e18")), Number::integer(1_000_000_000_000_000_000));
    // A power of ten beyond the limit, and a product beyond it.
    assert!(Number::parse(&chars("1e19")).is_nan());
    assert!(Number::parse(&chars("10e18")).is_nan());
}

#[test]
fn the_infinities_are_read() {
    for s in ["inf", "+inf", "INF", "Infinity", "infinity", "+INFINITY"] {
        assert_eq!(Number::parse(&chars(s)), Number::infinity(false), "{:?}", s);
    }
    for s in ["-inf", "-Inf", "-infinity"] {
        assert_eq!(Number::parse(&chars(s)), Number::infinity(true), "{:?}", s);
    }
}

#[test]
fn a_fraction_is_read_and_reduced() {
    assert_eq!(Number::parse(&chars("1/2")), Number::new(1, 2));
    assert_eq!(Number::parse(&chars("-6/4")), Number::new(-3, 2));
    assert!(Number::parse(&chars("1/0")).is_nan());
}

#[test]
fn what_says_no_number_is_not_a_number() {
    for s in [
        "", "-", "+", ".", "abc", "1/", "/2", "1.2.3", "1/2/3", " 1", "1 ", "--1", "+-1", "NaN",
        "nan", "e5", "1e", "1e+", "1e5.0", "1e1e1", "in", "infinit", "1_000",
    ] {
        assert!(Number::parse(&chars(s)).is_nan(), "{:?}", s);
    }
}

#[test]
fn digits_beyond_the_limit_are_not_a_number() {
    assert_eq!(Number::parse(&chars("9223372036854775807")), Number::integer(i64::MAX));
    assert!(Number::parse(&chars("9223372036854775808")).is_nan());
    assert!(Number::parse(&chars("0.0000000000000000001")).is_nan());
    assert_eq!(
        Number::parse(&chars("0.000000000000000001")),
        Number::new(1, 1_000_000_000_000_000_000)
    );
}

#[test]
fn reading_undoes_writing() {
    for n in [
        Number::integer(0),
        Number::integer(-1),
        Number::integer(i64::MAX),
        Number::new(1, 3),
        Number::new(-22, 7),
        Number::new(3, 2),
        Number::new(-1, 1024),
        Number::new(7, 1_000_000_000_000_000_000),
        Number::new(i64::MAX, 2),
        Number::new(i64::MAX, 10),
        Number::new(1, i64::MAX),
        Number::nan(),
        Number::infinity(false),
        Number::infinity(true),
    ] {
        assert_eq!(Number::parse(&n.to_chars()), n);
    }
}
