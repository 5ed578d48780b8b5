use interpreter::ast::{Expr, Functions, Operator, Transformation, Type, UnaryOperator};
use interpreter::destruct_algebra::{
    add_left_destruct, add_right_destruct, div_left_destruct, div_right_destruct,
    mul_left_destruct, mul_right_destruct, sub_left_destruct, sub_right_destruct,
};
use interpreter::error::RuntimeError;
use interpreter::number::Number;
use interpreter::value::Value;
use interpreter::variables::Variables;

fn name(s: &str) -> Vec<char> {
    s.chars().collect()
}

fn ident(s: &str) -> Expr {
    Expr::Ident(name(s))
}

fn num(n: i64) -> Expr {
    Expr::Number(Number::integer(n))
}

fn text(s: &str) -> Expr {
    Expr::String(name(s), None)
}

fn number(n: i64) -> Value {
    Value::Number(Number::integer(n))
}

fn ratio(n: i64, d: i64) -> Value {
    Value::Number(Number::new(n, d))
}

fn string(s: &str) -> Value {
    Value::String(name(s))
}

fn array(items: &[i64]) -> Value {
    Value::Array(items.iter().map(|n| number(*n)).collect())
}

fn op(op: Operator, a: Expr, b: Expr) -> Expr {
    Expr::Operator(op, Box::new(a), Box::new(b))
}

fn take(e: &Expr, target: &Value, env: &mut Variables) -> Result<Option<Value>, RuntimeError> {
    e.destruct(target, env, &Functions::new(), 4)
}

/// What `x` is bound to after `solve` has matched it.
fn solved(
    solve: fn(&Value, &Expr, &Value, &mut Variables, &Functions, usize) -> Result<(), RuntimeError>,
    known: &Value,
    target: &Value,
) -> Result<Value, RuntimeError> {
    let mut env = Variables::new();
    solve(known, &ident("x"), target, &mut env, &Functions::new(), 4)?;
    Ok(env.get(&name("x")).unwrap().duplicate())
}

#[test]
fn a_literal_matches_itself_only() {
    let mut env = Variables::new();
    assert_eq!(take(&num(7), &number(7), &mut env).unwrap(), Some(number(7)));
    assert!(matches!(take(&num(7), &number(8), &mut env), Err(RuntimeError::PatternMismatchT)));
    assert!(matches!(take(&num(7), &string("7"), &mut env), Err(RuntimeError::PatternMismatchT)));
    assert_eq!(take(&text("a"), &string("a"), &mut env).unwrap(), Some(string("a")));
    assert!(matches!(take(&text("a"), &string("b"), &mut env), Err(RuntimeError::PatternMismatchT)));
    assert!(matches!(take(&text("a"), &number(1), &mut env), Err(RuntimeError::PatternMismatchT)));
    assert_eq!(
        take(&Expr::Bool(true), &Value::Bool(true), &mut env).unwrap(),
        Some(Value::Bool(true))
    );
    assert!(matches!(
        take(&Expr::Bool(true), &Value::Bool(false), &mut env),
        Err(RuntimeError::PatternMismatchT)
    ));
}

#[test]
fn an_identifier_binds_the_target() {
    let mut env = Variables::new();
    assert_eq!(take(&ident("x"), &string("v"), &mut env).unwrap(), None);
    assert_eq!(env.get(&name("x")), Some(&string("v")));
}

#[test]
fn a_polyident_captures_every_target() {
    let mut env = Variables::new();
    let p = Expr::PolyIdent(name("p"));
    assert_eq!(take(&p, &number(1), &mut env).unwrap(), None);
    assert_eq!(take(&p, &number(1), &mut env).unwrap(), None);
    assert_eq!(take(&p, &number(2), &mut env).unwrap(), None);
    assert_eq!(env.take_polyident(&name("p")).unwrap(), Some(number(1)));
    assert_eq!(env.take_polyident(&name("p")).unwrap(), Some(number(1)));
    assert_eq!(env.take_polyident(&name("p")).unwrap(), Some(number(2)));
}

#[test]
fn the_wildcard_matches_anything_and_binds_nothing() {
    let mut env = Variables::new();
    assert_eq!(take(&Expr::Any, &array(&[1, 2]), &mut env).unwrap(), None);
    assert_eq!(take(&Expr::Any, &Value::Bool(false), &mut env).unwrap(), None);
    assert!(env.drained());
}

#[test]
fn an_array_matches_item_by_item() {
    let mut env = Variables::new();
    let e = Expr::Array(vec![ident("a"), num(2), Expr::Any]);
    assert_eq!(take(&e, &array(&[1, 2, 3]), &mut env).unwrap(), None);
    assert_eq!(env.get(&name("a")), Some(&number(1)));
    let all_known = Expr::Array(vec![num(1), num(2)]);
    assert_eq!(take(&all_known, &array(&[1, 2]), &mut env).unwrap(), Some(array(&[1, 2])));
}

#[test]
fn an_array_of_another_length_or_kind_is_a_mismatch() {
    let mut env = Variables::new();
    let e = Expr::Array(vec![ident("a"), ident("b")]);
    assert!(matches!(take(&e, &array(&[1]), &mut env), Err(RuntimeError::PatternMismatchT)));
    assert!(matches!(take(&e, &array(&[1, 2, 3]), &mut env), Err(RuntimeError::PatternMismatchT)));
    assert!(matches!(
        take(&e, &Value::Tuple(vec![number(1), number(2)]), &mut env),
        Err(RuntimeError::PatternMismatchT)
    ));
    assert!(matches!(take(&e, &string("ab"), &mut env), Err(RuntimeError::PatternMismatchT)));
    let t = Expr::Tuple(vec![ident("a"), num(2)]);
    assert!(matches!(take(&t, &array(&[1, 2]), &mut env), Err(RuntimeError::PatternMismatchT)));
    assert!(matches!(
        take(&t, &Value::Tuple(vec![number(1), number(3)]), &mut env),
        Err(RuntimeError::PatternMismatchT)
    ));
}

#[test]
fn a_tuple_matches_item_by_item() {
    let mut env = Variables::new();
    let t = Expr::Tuple(vec![ident("a"), ident("b")]);
    let target = Value::Tuple(vec![string("l"), string("r")]);
    assert_eq!(take(&t, &target, &mut env).unwrap(), None);
    assert_eq!(env.get(&name("a")), Some(&string("l")));
    assert_eq!(env.get(&name("b")), Some(&string("r")));
}

#[test]
fn one_identifier_twice_asks_for_equal_values() {
    let e = Expr::Array(vec![ident("a"), ident("a")]);
    let mut env = Variables::new();
    assert_eq!(take(&e, &array(&[4, 4]), &mut env).unwrap(), None);
    assert_eq!(env.get(&name("a")), Some(&number(4)));
    let mut env = Variables::new();
    assert!(matches!(take(&e, &array(&[4, 5]), &mut env), Err(RuntimeError::ValueErrorT)));
    assert_eq!(env.get(&name("a")), Some(&number(4)));
}

#[test]
fn two_known_sides_assert_what_the_operator_makes() {
    let mut env = Variables::new();
    let e = op(Operator::Add, num(2), num(3));
    assert_eq!(take(&e, &number(5), &mut env).unwrap(), Some(number(5)));
    assert!(matches!(take(&e, &number(6), &mut env), Err(RuntimeError::PatternMismatchT)));
    let e = op(Operator::Mul, text("ab"), num(2));
    assert_eq!(take(&e, &string("abab"), &mut env).unwrap(), Some(string("abab")));
    assert!(matches!(take(&e, &string("ab"), &mut env), Err(RuntimeError::PatternMismatchT)));
    let e = op(Operator::And, Expr::Bool(true), Expr::Bool(true));
    assert_eq!(take(&e, &Value::Bool(true), &mut env).unwrap(), Some(Value::Bool(true)));
    let e = op(Operator::Add, num(2), text("a"));
    assert!(matches!(take(&e, &number(5), &mut env), Err(RuntimeError::ValueErrorT)));
}

#[test]
fn one_known_side_is_solved_for_the_other() {
    let mut env = Variables::new();
    let e = op(Operator::Sub, num(10), ident("x"));
    assert_eq!(take(&e, &number(4), &mut env).unwrap(), None);
    assert_eq!(env.get(&name("x")), Some(&number(6)));
    let mut env = Variables::new();
    let e = op(Operator::Div, ident("x"), num(4));
    assert_eq!(take(&e, &number(3), &mut env).unwrap(), None);
    assert_eq!(env.get(&name("x")), Some(&number(12)));
}

#[test]
fn nested_operators_are_solved_from_the_outside_in() {
    // (a * 4 - 6) + 10 against 16 binds a to 3.
    let inner = op(Operator::Sub, op(Operator::Mul, ident("a"), num(4)), num(6));
    let e = op(Operator::Add, inner, num(10));
    let mut env = Variables::new();
    assert_eq!(take(&e, &number(16), &mut env).unwrap(), None);
    assert_eq!(env.get(&name("a")), Some(&number(3)));
}

#[test]
fn a_logical_operator_with_one_known_side_is_a_value_error() {
    for o in [Operator::And, Operator::Or] {
        let mut env = Variables::new();
        let e = op(o, Expr::Bool(true), ident("x"));
        assert!(matches!(take(&e, &Value::Bool(true), &mut env), Err(RuntimeError::ValueErrorT)));
        let e = op(o, ident("x"), Expr::Bool(false));
        assert!(matches!(take(&e, &Value::Bool(false), &mut env), Err(RuntimeError::ValueErrorT)));
    }
}

#[test]
fn two_unknown_sides_are_a_value_error_for_every_operator() {
    for o in [Operator::Add, Operator::Sub, Operator::Mul, Operator::Div, Operator::And, Operator::Or] {
        let mut env = Variables::new();
        env.insert(name("x"), number(1)).unwrap();
        let e = op(o, ident("x"), ident("y"));
        assert!(matches!(take(&e, &number(3), &mut env), Err(RuntimeError::ValueErrorT)));
        let e = op(o, Expr::Any, ident("y"));
        assert!(matches!(take(&e, &number(3), &mut env), Err(RuntimeError::ValueErrorT)));
    }
}

#[test]
fn a_cast_casts_the_target_back() {
    let mut env = Variables::new();
    let e = Expr::Cast(Box::new(ident("n")), Type::String, Type::Number);
    assert_eq!(take(&e, &string("12"), &mut env).unwrap(), None);
    assert_eq!(env.get(&name("n")), Some(&number(12)));
    let mut env = Variables::new();
    assert!(matches!(
        take(&e, &number(12), &mut env),
        Err(RuntimeError::TypeMismatchT(Type::String, Type::Number))
    ));
    let e = Expr::Cast(Box::new(ident("s")), Type::Array, Type::String);
    let letters = Value::Array(vec![string("a"), string("b")]);
    assert_eq!(take(&e, &letters, &mut env).unwrap(), None);
    assert_eq!(env.get(&name("s")), Some(&string("ab")));
}

#[test]
fn a_unary_operator_is_undone_on_the_target() {
    let mut env = Variables::new();
    let e = Expr::UnaryOp(UnaryOperator::Neg, Box::new(ident("n")));
    assert_eq!(take(&e, &number(5), &mut env).unwrap(), None);
    assert_eq!(env.get(&name("n")), Some(&number(-5)));
    let e = Expr::UnaryOp(UnaryOperator::Not, Box::new(ident("b")));
    assert_eq!(take(&e, &Value::Bool(true), &mut env).unwrap(), None);
    assert_eq!(env.get(&name("b")), Some(&Value::Bool(false)));
    assert!(matches!(take(&e, &number(1), &mut env), Err(RuntimeError::ValueErrorT)));
    let e = Expr::UnaryOp(UnaryOperator::Neg, Box::new(ident("m")));
    assert!(matches!(take(&e, &Value::Bool(true), &mut env), Err(RuntimeError::ValueErrorT)));
}

#[test]
fn a_call_is_matched_by_running_the_function_in_reverse() {
    let mut functions = Functions::new();
    functions.insert(
        name("greet"),
        vec![Transformation::Forced {
            destruct: ident("who"),
            construct: op(Operator::Add, text("hello "), ident("who")),
        }],
    );
    let e = Expr::Call(name("greet"), Box::new(ident("x")));
    let mut env = Variables::new();
    assert_eq!(e.destruct(&string("hello you"), &mut env, &functions, 4).unwrap(), None);
    assert_eq!(env.get(&name("x")), Some(&string("you")));
    let mut env = Variables::new();
    assert!(matches!(
        e.destruct(&string("bye you"), &mut env, &functions, 4),
        Err(RuntimeError::PatternMismatchT)
    ));
    assert!(matches!(
        e.destruct(&string("hello you"), &mut env, &functions, 0),
        Err(RuntimeError::ValueErrorT)
    ));
}

#[test]
fn add_with_the_left_side_known() {
    assert_eq!(solved(add_left_destruct, &number(10), &number(15)).unwrap(), number(5));
    assert_eq!(solved(add_left_destruct, &string("hello"), &string("hello world")).unwrap(), string(" world"));
    assert_eq!(solved(add_left_destruct, &string(""), &string("ab")).unwrap(), string("ab"));
    assert_eq!(solved(add_left_destruct, &string("ab"), &string("ab")).unwrap(), string(""));
    assert_eq!(solved(add_left_destruct, &array(&[1, 2]), &array(&[1, 2, 3])).unwrap(), array(&[3]));
    assert!(matches!(
        solved(add_left_destruct, &string("hello"), &string("goodbye")),
        Err(RuntimeError::PatternMismatchT)
    ));
    assert!(matches!(
        solved(add_left_destruct, &string("abc"), &string("ab")),
        Err(RuntimeError::PatternMismatchT)
    ));
    assert!(matches!(
        solved(add_left_destruct, &array(&[2]), &array(&[1, 2])),
        Err(RuntimeError::PatternMismatchT)
    ));
    assert!(matches!(
        solved(add_left_destruct, &number(1), &string("1a")),
        Err(RuntimeError::ValueErrorT)
    ));
    assert!(matches!(
        solved(add_left_destruct, &Value::Bool(true), &Value::Bool(true)),
        Err(RuntimeError::ValueErrorT)
    ));
}

#[test]
fn add_with_the_right_side_known() {
    assert_eq!(solved(add_right_destruct, &number(10), &number(15)).unwrap(), number(5));
    assert_eq!(solved(add_right_destruct, &string("world"), &string("hello world")).unwrap(), string("hello "));
    assert_eq!(solved(add_right_destruct, &array(&[3]), &array(&[1, 2, 3])).unwrap(), array(&[1, 2]));
    assert!(matches!(
        solved(add_right_destruct, &string("hello"), &string("hello world")),
        Err(RuntimeError::PatternMismatchT)
    ));
    assert!(matches!(
        solved(add_right_destruct, &array(&[1]), &array(&[1, 2])),
        Err(RuntimeError::PatternMismatchT)
    ));
    assert!(matches!(
        solved(add_right_destruct, &string("a"), &array(&[1])),
        Err(RuntimeError::ValueErrorT)
    ));
}

#[test]
fn sub_with_one_side_known() {
    // 10 - x = 4
    assert_eq!(solved(sub_left_destruct, &number(10), &number(4)).unwrap(), number(6));
    // x - 10 = 4
    assert_eq!(solved(sub_right_destruct, &number(10), &number(4)).unwrap(), number(14));
    assert!(matches!(
        solved(sub_left_destruct, &string("a"), &string("a")),
        Err(RuntimeError::ValueErrorT)
    ));
    assert!(matches!(
        solved(sub_right_destruct, &number(1), &string("a")),
        Err(RuntimeError::ValueErrorT)
    ));
}

#[test]
fn div_with_one_side_known() {
    // 12 / x = 4
    assert_eq!(solved(div_left_destruct, &number(12), &number(4)).unwrap(), number(3));
    // x / 12 = 4
    assert_eq!(solved(div_right_destruct, &number(12), &number(4)).unwrap(), number(48));
    // 1 / x = 3
    assert_eq!(solved(div_left_destruct, &number(1), &number(3)).unwrap(), ratio(1, 3));
    // 12 / x = 0: x is infinite
    assert_eq!(
        solved(div_left_destruct, &number(12), &number(0)).unwrap(),
        Value::Number(Number::infinity(false))
    );
    assert_eq!(
        solved(div_left_destruct, &number(1), &number(0)).unwrap(),
        Value::Number(Number::infinity(false))
    );
    assert_eq!(
        solved(div_left_destruct, &number(-1), &number(0)).unwrap(),
        Value::Number(Number::infinity(true))
    );
    // 0 / x = 0: x is not a number
    assert_eq!(
        solved(div_left_destruct, &number(0), &number(0)).unwrap(),
        Value::Number(Number::nan())
    );
    // x / 0 = 4: x is 0
    assert_eq!(solved(div_right_destruct, &number(0), &number(4)).unwrap(), number(0));
    assert!(matches!(
        solved(div_left_destruct, &array(&[1]), &number(1)),
        Err(RuntimeError::ValueErrorT)
    ));
    assert!(matches!(
        solved(div_right_destruct, &number(1), &Value::Bool(true)),
        Err(RuntimeError::ValueErrorT)
    ));
}

#[test]
fn mul_with_a_number_known() {
    // 4 * x = 6
    assert_eq!(solved(mul_left_destruct, &number(4), &number(6)).unwrap(), ratio(3, 2));
    // x * 4 = 6
    assert_eq!(solved(mul_right_destruct, &number(4), &number(6)).unwrap(), ratio(3, 2));
    // 0 * x = 6: x is infinite
    assert_eq!(
        solved(mul_left_destruct, &number(0), &number(6)).unwrap(),
        Value::Number(Number::infinity(false))
    );
    assert!(matches!(
        solved(mul_left_destruct, &number(3), &array(&[1, 1, 1])),
        Err(RuntimeError::ValueErrorT)
    ));
    assert!(matches!(
        solved(mul_right_destruct, &string("a"), &string("aaa")),
        Err(RuntimeError::ValueErrorT)
    ));
}

#[test]
fn mul_with_the_repeated_piece_known() {
    assert_eq!(solved(mul_left_destruct, &array(&[1, 2]), &array(&[1, 2, 1, 2, 1, 2])).unwrap(), number(3));
    assert_eq!(solved(mul_left_destruct, &string("ab"), &string("abab")).unwrap(), number(2));
    assert_eq!(solved(mul_left_destruct, &string("ab"), &string("")).unwrap(), number(0));
    assert!(matches!(
        solved(mul_left_destruct, &string("ab"), &string("aba")),
        Err(RuntimeError::PatternMismatchT)
    ));
    assert!(matches!(
        solved(mul_left_destruct, &string("ab"), &string("abba")),
        Err(RuntimeError::PatternMismatchT)
    ));
    assert!(matches!(
        solved(mul_left_destruct, &array(&[1, 2]), &array(&[1, 2, 1, 3])),
        Err(RuntimeError::PatternMismatchT)
    ));
    assert!(matches!(
        solved(mul_left_destruct, &string(""), &string("ab")),
        Err(RuntimeError::PatternMismatchT)
    ));
    assert!(matches!(
        solved(mul_left_destruct, &array(&[]), &array(&[])),
        Err(RuntimeError::PatternMismatchT)
    ));
}

#[test]
fn mul_with_the_count_known() {
    assert_eq!(solved(mul_right_destruct, &number(3), &array(&[1, 2, 1, 2, 1, 2])).unwrap(), array(&[1, 2]));
    assert_eq!(solved(mul_right_destruct, &number(2), &string("abab")).unwrap(), string("ab"));
    assert_eq!(solved(mul_right_destruct, &number(1), &string("abc")).unwrap(), string("abc"));
    assert_eq!(solved(mul_right_destruct, &number(3), &string("aaa")).unwrap(), string("a"));
    // The pieces are not equal.
    assert!(matches!(
        solved(mul_right_destruct, &number(3), &array(&[1, 2, 3, 4, 5, 6])),
        Err(RuntimeError::PatternMismatchT)
    ));
    // The length is not divisible by the count.
    assert!(matches!(
        solved(mul_right_destruct, &number(2), &string("aba")),
        Err(RuntimeError::PatternMismatchT)
    ));
    // The count is more than the length.
    assert!(matches!(
        solved(mul_right_destruct, &number(4), &string("aa")),
        Err(RuntimeError::PatternMismatchT)
    ));
    // The count is not positive.
    assert!(matches!(
        solved(mul_right_destruct, &number(0), &string("aa")),
        Err(RuntimeError::PatternMismatchT)
    ));
    assert!(matches!(
        solved(mul_right_destruct, &number(-2), &string("aa")),
        Err(RuntimeError::PatternMismatchT)
    ));
    assert!(matches!(
        solved(mul_right_destruct, &number(1), &string("")),
        Err(RuntimeError::PatternMismatchT)
    ));
    // The count is no whole number.
    assert!(matches!(
        solved(mul_right_destruct, &ratio(3, 2), &string("aaa")),
        Err(RuntimeError::ValueErrorT)
    ));
    assert!(matches!(
        solved(mul_right_destruct, &Value::Number(Number::nan()), &array(&[1])),
        Err(RuntimeError::ValueErrorT)
    ));
}

#[test]
fn what_is_solved_for_is_matched_against_the_unknown_side() {
    let mut env = Variables::new();
    env.insert(name("x"), number(1)).unwrap();
    let r = add_left_destruct(&number(10), &ident("x"), &number(15), &mut env, &Functions::new(), 4);
    assert!(matches!(r, Err(RuntimeError::ValueErrorT)));
    let r = add_left_destruct(&number(10), &num(5), &number(15), &mut env, &Functions::new(), 4);
    assert!(r.is_ok());
    let r = add_left_destruct(&number(10), &num(6), &number(15), &mut env, &Functions::new(), 4);
    assert!(matches!(r, Err(RuntimeError::PatternMismatchT)));
}
