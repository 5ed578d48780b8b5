use interpreter::ast::Type;
use interpreter::error::{LangErrorT, RuntimeError};
use interpreter::number::Number;
use interpreter::value::Value;

fn string(s: &str) -> Value {
    Value::String(s.chars().collect())
}

fn number(n: i64) -> Value {
    Value::Number(Number::integer(n))
}

fn ratio(n: i64, d: i64) -> Value {
    Value::Number(Number::new(n, d))
}

fn all_kinds() -> Vec<Value> {
    vec![
        number(1),
        string("a"),
        Value::Array(vec![number(1)]),
        Value::Tuple(vec![number(1)]),
        Value::Bool(true),
    ]
}

#[test]
fn to_type_names_the_kind() {
    assert_eq!(number(1).to_type(), Type::Number);
    assert_eq!(string("a").to_type(), Type::String);
    assert_eq!(Value::Array(vec![]).to_type(), Type::Array);
    assert_eq!(Value::Tuple(vec![]).to_type(), Type::Tuple);
    assert_eq!(Value::Bool(false).to_type(), Type::Bool);
}

#[test]
fn equality_is_by_kind_and_content() {
    assert_eq!(Value::Array(vec![number(1), string("x")]), Value::Array(vec![number(1), string("x")]));
    assert_ne!(Value::Array(vec![number(1)]), Value::Tuple(vec![number(1)]));
    assert_ne!(Value::Array(vec![number(1)]), Value::Array(vec![number(1), number(1)]));
    assert_ne!(string("1"), number(1));
    assert_eq!(ratio(2, 4), ratio(1, 2));
    assert_eq!(Value::Number(Number::nan()), Value::Number(Number::nan()));
}

#[test]
fn duplicate_copies_deeply() {
    let v = Value::Tuple(vec![Value::Array(vec![string("ab"), number(3)]), Value::Bool(true)]);
    assert_eq!(v.duplicate(), v);
}

#[test]
fn add_sums_numbers_and_joins_strings_and_arrays() {
    assert_eq!(number(2).add(&ratio(1, 2)).unwrap(), ratio(5, 2));
    assert_eq!(string("ab").add(&string("cd")).unwrap(), string("abcd"));
    assert_eq!(
        Value::Array(vec![number(1)]).add(&Value::Array(vec![string("x"), number(2)])).unwrap(),
        Value::Array(vec![number(1), string("x"), number(2)])
    );
}

#[test]
fn add_of_other_pairs_is_a_value_error() {
    assert!(matches!(number(1).add(&string("a")), Err(RuntimeError::ValueErrorT)));
    assert!(matches!(string("a").add(&number(1)), Err(RuntimeError::ValueErrorT)));
    assert!(matches!(
        Value::Tuple(vec![]).add(&Value::Tuple(vec![])),
        Err(RuntimeError::ValueErrorT)
    ));
    assert!(matches!(Value::Bool(true).add(&Value::Bool(true)), Err(RuntimeError::ValueErrorT)));
    assert!(matches!(
        Value::Array(vec![]).add(&Value::Tuple(vec![])),
        Err(RuntimeError::ValueErrorT)
    ));
}

#[test]
fn sub_and_div_are_for_numbers_only() {
    assert_eq!(number(15).sub(&number(10)).unwrap(), number(5));
    assert_eq!(number(1).div(&number(4)).unwrap(), ratio(1, 4));
    for v in all_kinds() {
        if v.to_type() != Type::Number {
            assert!(matches!(v.sub(&v), Err(RuntimeError::ValueErrorT)));
            assert!(matches!(v.div(&v), Err(RuntimeError::ValueErrorT)));
            assert!(matches!(number(1).sub(&v), Err(RuntimeError::ValueErrorT)));
            assert!(matches!(number(1).div(&v), Err(RuntimeError::ValueErrorT)));
        }
    }
}

#[test]
fn a_quotient_by_zero_is_infinite() {
    assert_eq!(number(1).div(&number(0)).unwrap(), Value::Number(Number::infinity(false)));
    assert_eq!(number(-1).div(&number(0)).unwrap(), Value::Number(Number::infinity(true)));
    assert_eq!(number(0).div(&number(0)).unwrap(), Value::Number(Number::nan()));
}

#[test]
fn arithmetic_on_what_is_not_a_number_gives_what_is_not_a_number() {
    let nan = string("hello").cast(&Type::Number, &Type::String).unwrap();
    assert_eq!(nan.add(&number(1)).unwrap(), Value::Number(Number::nan()));
    assert_eq!(number(1).add(&nan).unwrap(), Value::Number(Number::nan()));
    assert_eq!(nan.sub(&number(1)).unwrap(), Value::Number(Number::nan()));
    assert_eq!(nan.mul(&number(2)).unwrap(), Value::Number(Number::nan()));
    assert_eq!(number(2).div(&nan).unwrap(), Value::Number(Number::nan()));
}

#[test]
fn a_sum_that_does_not_fit_is_not_a_number() {
    let big = number(i64::MAX);
    assert_eq!(big.add(&number(1)).unwrap(), Value::Number(Number::nan()));
    assert_eq!(big.add(&number(-1)).unwrap(), number(i64::MAX - 1));
}

#[test]
fn and_and_or_are_for_booleans_only() {
    assert_eq!(Value::Bool(true).and(&Value::Bool(false)).unwrap(), Value::Bool(false));
    assert_eq!(Value::Bool(true).and(&Value::Bool(true)).unwrap(), Value::Bool(true));
    assert_eq!(Value::Bool(false).or(&Value::Bool(true)).unwrap(), Value::Bool(true));
    assert_eq!(Value::Bool(false).or(&Value::Bool(false)).unwrap(), Value::Bool(false));
    for v in all_kinds() {
        if v.to_type() != Type::Bool {
            assert!(matches!(v.and(&Value::Bool(true)), Err(RuntimeError::ValueErrorT)));
            assert!(matches!(Value::Bool(true).or(&v), Err(RuntimeError::ValueErrorT)));
        }
    }
}

#[test]
fn cast_from_another_type_than_the_value_has_is_a_type_mismatch() {
    let r = number(1).cast(&Type::String, &Type::Bool);
    assert!(matches!(r, Err(RuntimeError::TypeMismatchT(Type::Bool, Type::Number))));
    let r = string("1").cast(&Type::String, &Type::Number);
    assert!(matches!(r, Err(RuntimeError::TypeMismatchT(Type::Number, Type::String))));
}

#[test]
fn cast_to_its_own_type_is_the_value() {
    for v in all_kinds() {
        let t = v.to_type();
        assert_eq!(v.cast(&t, &t).unwrap(), v);
    }
}

#[test]
fn cast_between_number_and_string() {
    assert_eq!(number(15).cast(&Type::String, &Type::Number).unwrap(), string("15"));
    assert_eq!(ratio(-3, 4).cast(&Type::String, &Type::Number).unwrap(), string("-0.75"));
    assert_eq!(ratio(1, 3).cast(&Type::String, &Type::Number).unwrap(), string("1/3"));
    assert_eq!(string("1e3").cast(&Type::Number, &Type::String).unwrap(), number(1000));
    assert_eq!(
        string("inf").cast(&Type::Number, &Type::String).unwrap(),
        Value::Number(Number::infinity(false))
    );
    assert_eq!(string("15").cast(&Type::Number, &Type::String).unwrap(), number(15));
    assert_eq!(string("2.5").cast(&Type::Number, &Type::String).unwrap(), ratio(5, 2));
}

#[test]
fn a_string_that_says_no_number_casts_to_what_is_not_a_number() {
    let r = string("hello").cast(&Type::Number, &Type::String).unwrap();
    assert_eq!(r, Value::Number(Number::nan()));
}

#[test]
fn cast_between_string_and_array_or_tuple() {
    assert_eq!(
        string("abc").cast(&Type::Array, &Type::String).unwrap(),
        Value::Array(vec![string("a"), string("b"), string("c")])
    );
    assert_eq!(
        string("ab").cast(&Type::Tuple, &Type::String).unwrap(),
        Value::Tuple(vec![string("a"), string("b")])
    );
    assert_eq!(string("").cast(&Type::Array, &Type::String).unwrap(), Value::Array(vec![]));
    assert_eq!(
        Value::Array(vec![string("ab"), string(""), string("c")])
            .cast(&Type::String, &Type::Array)
            .unwrap(),
        string("abc")
    );
    assert_eq!(
        Value::Tuple(vec![string("x"), string("y")]).cast(&Type::String, &Type::Tuple).unwrap(),
        string("xy")
    );
    assert!(matches!(
        Value::Array(vec![string("a"), number(1)]).cast(&Type::String, &Type::Array),
        Err(RuntimeError::ValueErrorT)
    ));
}

#[test]
fn cast_of_a_boolean_to_a_string() {
    assert_eq!(Value::Bool(true).cast(&Type::String, &Type::Bool).unwrap(), string("true"));
    assert_eq!(Value::Bool(false).cast(&Type::String, &Type::Bool).unwrap(), string("false"));
}

#[test]
fn cast_between_number_and_array_or_tuple_is_a_value_error() {
    assert!(matches!(number(1).cast(&Type::Array, &Type::Number), Err(RuntimeError::ValueErrorT)));
    assert!(matches!(number(1).cast(&Type::Tuple, &Type::Number), Err(RuntimeError::ValueErrorT)));
    assert!(matches!(
        Value::Array(vec![]).cast(&Type::Number, &Type::Array),
        Err(RuntimeError::ValueErrorT)
    ));
    assert!(matches!(
        Value::Tuple(vec![]).cast(&Type::Number, &Type::Tuple),
        Err(RuntimeError::ValueErrorT)
    ));
}

#[test]
fn casts_that_do_not_exist_are_value_errors() {
    assert!(matches!(string("true").cast(&Type::Bool, &Type::String), Err(RuntimeError::ValueErrorT)));
    assert!(matches!(number(1).cast(&Type::Bool, &Type::Number), Err(RuntimeError::ValueErrorT)));
    assert!(matches!(
        Value::Bool(true).cast(&Type::Number, &Type::Bool),
        Err(RuntimeError::ValueErrorT)
    ));
    assert!(matches!(
        Value::Array(vec![]).cast(&Type::Tuple, &Type::Array),
        Err(RuntimeError::ValueErrorT)
    ));
    assert!(matches!(
        Value::Tuple(vec![]).cast(&Type::Array, &Type::Tuple),
        Err(RuntimeError::ValueErrorT)
    ));
}

#[test]
fn types_are_named() {
    assert_eq!(Type::from_str("string"), Ok(Type::String));
    assert_eq!(Type::from_str("number"), Ok(Type::Number));
    assert_eq!(Type::from_str("tuple"), Ok(Type::Tuple));
    assert_eq!(Type::from_str("array"), Ok(Type::Array));
    assert_eq!(Type::from_str("bool"), Ok(Type::Bool));
    for s in ["", "String", "strin", "strings", "boo", "int", "#bool"] {
        assert_eq!(Type::from_str(s), Err(LangErrorT::SyntaxError), "{:?}", s);
    }
}

#[test]
fn types_give_their_names() {
    for (t, n) in [
        (Type::String, "string"),
        (Type::Number, "number"),
        (Type::Tuple, "tuple"),
        (Type::Array, "array"),
        (Type::Bool, "bool"),
    ] {
        assert_eq!(t.name(), n);
        assert_eq!(Type::from_str(&t.name()), Ok(t));
    }
}

#[test]
fn mul_multiplies_numbers_and_repeats_with_a_count_on_either_side() {
    assert_eq!(number(4).mul(&ratio(3, 8)).unwrap(), ratio(3, 2));
    assert_eq!(string("ab").mul(&number(3)).unwrap(), string("ababab"));
    assert_eq!(number(3).mul(&string("ab")).unwrap(), string("ababab"));
    assert_eq!(
        Value::Array(vec![number(1), string("x")]).mul(&number(2)).unwrap(),
        Value::Array(vec![number(1), string("x"), number(1), string("x")])
    );
    assert_eq!(number(0).mul(&Value::Array(vec![number(1)])).unwrap(), Value::Array(vec![]));
    assert_eq!(string("ab").mul(&number(0)).unwrap(), string(""));
    assert_eq!(string("ab").mul(&number(1)).unwrap(), string("ab"));
}

#[test]
fn mul_by_what_is_no_whole_count_is_a_value_error() {
    assert!(matches!(string("ab").mul(&ratio(1, 2)), Err(RuntimeError::ValueErrorT)));
    assert!(matches!(string("ab").mul(&number(-1)), Err(RuntimeError::ValueErrorT)));
    assert!(matches!(
        string("ab").mul(&Value::Number(Number::nan())),
        Err(RuntimeError::ValueErrorT)
    ));
    assert!(matches!(string("ab").mul(&string("ab")), Err(RuntimeError::ValueErrorT)));
    assert!(matches!(Value::Bool(true).mul(&Value::Bool(true)), Err(RuntimeError::ValueErrorT)));
}

#[test]
fn what_cannot_be_added_is_repeated_once_at_most() {
    let t = Value::Tuple(vec![number(1)]);
    assert_eq!(t.mul(&number(1)).unwrap(), t);
    assert!(matches!(t.mul(&number(2)), Err(RuntimeError::ValueErrorT)));
    assert!(matches!(t.mul(&number(0)), Err(RuntimeError::ValueErrorT)));
    assert_eq!(Value::Bool(true).replicated(&Number::integer(1)).unwrap(), Value::Bool(true));
}
