use interpreter::ast::{Expr, Functions, Operator, Transformation, Type, UnaryOperator};
use interpreter::error::RuntimeError;
use interpreter::interpret::repeat;
use interpreter::number::Number;
use interpreter::value::Value;
use interpreter::variables::Variables;

fn name(s: &str) -> Vec<char> {
    s.chars().collect()
}

fn ident(s: &str) -> Expr {
    Expr::Ident(name(s))
}

fn poly(s: &str) -> Expr {
    Expr::PolyIdent(name(s))
}

fn num(n: i64) -> Expr {
    Expr::Number(Number::integer(n))
}

fn text(s: &str) -> Expr {
    Expr::String(name(s), None)
}

fn number(n: i64) -> Value {
    Value::Number(Number::integer(n))
}

fn string(s: &str) -> Value {
    Value::String(name(s))
}

fn op(op: Operator, a: Expr, b: Expr) -> Expr {
    Expr::Operator(op, Box::new(a), Box::new(b))
}

fn make(e: &Expr, env: &mut Variables) -> Result<Value, RuntimeError> {
    e.construct(env, &Functions::new(), 4)
}

#[test]
fn literals_make_themselves() {
    let mut env = Variables::new();
    assert_eq!(make(&num(7), &mut env).unwrap(), number(7));
    assert_eq!(make(&text("hi"), &mut env).unwrap(), string("hi"));
    assert_eq!(make(&Expr::Bool(true), &mut env).unwrap(), Value::Bool(true));
    let flagged = Expr::String(name("hi"), Some(interpreter::ast::StringFlag::Format));
    assert_eq!(make(&flagged, &mut env).unwrap(), string("hi"));
}

#[test]
fn an_identifier_makes_what_it_is_bound_to() {
    let mut env = Variables::new();
    env.insert(name("x"), string("v")).unwrap();
    assert_eq!(make(&ident("x"), &mut env).unwrap(), string("v"));
    assert_eq!(make(&ident("x"), &mut env).unwrap(), string("v"));
}

#[test]
fn an_unbound_identifier_is_a_value_error() {
    let mut env = Variables::new();
    assert!(matches!(make(&ident("x"), &mut env), Err(RuntimeError::ValueErrorT)));
}

#[test]
fn a_polyident_makes_its_values_in_turn() {
    let mut env = Variables::new();
    env.insert_polyident(name("p"), number(1)).unwrap();
    env.insert_polyident(name("p"), number(2)).unwrap();
    let both = Expr::Array(vec![poly("p"), poly("p")]);
    assert_eq!(make(&both, &mut env).unwrap(), Value::Array(vec![number(1), number(2)]));
    assert!(env.drained());
    assert!(matches!(make(&poly("p"), &mut env), Err(RuntimeError::ValueErrorT)));
}

#[test]
fn a_polyident_that_never_captured_is_a_value_error() {
    let mut env = Variables::new();
    assert!(matches!(make(&poly("p"), &mut env), Err(RuntimeError::ValueErrorT)));
}

#[test]
fn arrays_and_tuples_make_their_items_in_order() {
    let mut env = Variables::new();
    env.insert(name("x"), number(1)).unwrap();
    let items = || vec![ident("x"), text("s"), Expr::Tuple(vec![])];
    assert_eq!(
        make(&Expr::Array(items()), &mut env).unwrap(),
        Value::Array(vec![number(1), string("s"), Value::Tuple(vec![])])
    );
    assert_eq!(
        make(&Expr::Tuple(items()), &mut env).unwrap(),
        Value::Tuple(vec![number(1), string("s"), Value::Tuple(vec![])])
    );
}

#[test]
fn an_item_that_fails_fails_the_array() {
    let mut env = Variables::new();
    let e = Expr::Array(vec![num(1), ident("missing"), num(2)]);
    assert!(matches!(make(&e, &mut env), Err(RuntimeError::ValueErrorT)));
}

#[test]
fn operators_apply_to_what_both_sides_make() {
    let mut env = Variables::new();
    env.insert(name("x"), number(6)).unwrap();
    assert_eq!(make(&op(Operator::Add, ident("x"), num(4)), &mut env).unwrap(), number(10));
    assert_eq!(make(&op(Operator::Sub, ident("x"), num(4)), &mut env).unwrap(), number(2));
    assert_eq!(
        make(&op(Operator::Div, ident("x"), num(4)), &mut env).unwrap(),
        Value::Number(Number::new(3, 2))
    );
    assert_eq!(make(&op(Operator::Mul, ident("x"), num(4)), &mut env).unwrap(), number(24));
    assert_eq!(
        make(&op(Operator::And, Expr::Bool(true), Expr::Bool(false)), &mut env).unwrap(),
        Value::Bool(false)
    );
    assert_eq!(
        make(&op(Operator::Or, Expr::Bool(true), Expr::Bool(false)), &mut env).unwrap(),
        Value::Bool(true)
    );
    assert_eq!(make(&op(Operator::Add, text("a"), text("b")), &mut env).unwrap(), string("ab"));
}

#[test]
fn operators_on_kinds_they_are_not_for_are_value_errors() {
    let mut env = Variables::new();
    assert!(matches!(
        make(&op(Operator::Add, num(1), text("a")), &mut env),
        Err(RuntimeError::ValueErrorT)
    ));
    assert!(matches!(
        make(&op(Operator::Sub, text("a"), text("a")), &mut env),
        Err(RuntimeError::ValueErrorT)
    ));
    assert!(matches!(
        make(&op(Operator::And, num(1), Expr::Bool(true)), &mut env),
        Err(RuntimeError::ValueErrorT)
    ));
}

#[test]
fn a_string_times_a_count_is_repeated() {
    let mut env = Variables::new();
    assert_eq!(make(&op(Operator::Mul, text("ab"), num(3)), &mut env).unwrap(), string("ababab"));
    assert_eq!(make(&op(Operator::Mul, text("ab"), num(1)), &mut env).unwrap(), string("ab"));
    assert_eq!(make(&op(Operator::Mul, text("ab"), num(0)), &mut env).unwrap(), string(""));
}

#[test]
fn an_array_times_a_count_is_repeated() {
    let mut env = Variables::new();
    let pair = || Expr::Array(vec![num(1), num(2)]);
    assert_eq!(
        make(&op(Operator::Mul, pair(), num(2)), &mut env).unwrap(),
        Value::Array(vec![number(1), number(2), number(1), number(2)])
    );
    assert_eq!(make(&op(Operator::Mul, pair(), num(0)), &mut env).unwrap(), Value::Array(vec![]));
}

#[test]
fn repetition_constructs_the_left_side_each_time() {
    let mut env = Variables::new();
    env.insert_polyident(name("p"), string("a")).unwrap();
    env.insert_polyident(name("p"), string("b")).unwrap();
    env.insert_polyident(name("p"), string("c")).unwrap();
    assert_eq!(make(&op(Operator::Mul, poly("p"), num(3)), &mut env).unwrap(), string("abc"));
    assert!(env.drained());
}

#[test]
fn a_count_that_is_no_whole_number_from_zero_is_a_value_error() {
    let mut env = Variables::new();
    let half = Expr::Number(Number::new(1, 2));
    assert!(matches!(
        make(&op(Operator::Mul, text("ab"), half), &mut env),
        Err(RuntimeError::ValueErrorT)
    ));
    assert!(matches!(
        make(&op(Operator::Mul, text("ab"), num(-1)), &mut env),
        Err(RuntimeError::ValueErrorT)
    ));
    assert!(matches!(
        make(&op(Operator::Mul, text("ab"), Expr::Number(Number::nan())), &mut env),
        Err(RuntimeError::ValueErrorT)
    ));
}

#[test]
fn a_count_times_a_string_or_an_array_is_repeated_too() {
    let mut env = Variables::new();
    assert_eq!(make(&op(Operator::Mul, num(3), text("ab")), &mut env).unwrap(), string("ababab"));
    assert_eq!(make(&op(Operator::Mul, num(0), text("ab")), &mut env).unwrap(), string(""));
    let pair = Expr::Array(vec![num(1), num(2)]);
    assert_eq!(
        make(&op(Operator::Mul, num(2), pair), &mut env).unwrap(),
        Value::Array(vec![number(1), number(2), number(1), number(2)])
    );
    let half = Expr::Number(Number::new(1, 2));
    assert!(matches!(
        make(&op(Operator::Mul, half, text("ab")), &mut env),
        Err(RuntimeError::ValueErrorT)
    ));
}

#[test]
fn a_product_without_a_number_is_a_value_error() {
    let mut env = Variables::new();
    let r = make(&op(Operator::Mul, text("ab"), text("cd")), &mut env);
    assert!(matches!(r, Err(RuntimeError::ValueErrorT)));
    let r = repeat(&text("ab"), &Value::Bool(true), &mut env, &Functions::new(), 4);
    assert!(matches!(r, Err(RuntimeError::ValueErrorT)));
    let r = repeat(&num(2), &Value::Bool(true), &mut env, &Functions::new(), 4);
    assert!(matches!(r, Err(RuntimeError::ValueErrorT)));
    let r = repeat(&num(1), &Value::Bool(true), &mut env, &Functions::new(), 4);
    assert_eq!(r.unwrap(), Value::Bool(true));
}

#[test]
fn what_cannot_be_added_is_repeated_once_only() {
    let mut env = Variables::new();
    let t = || Expr::Tuple(vec![num(1)]);
    assert_eq!(
        make(&op(Operator::Mul, t(), num(1)), &mut env).unwrap(),
        Value::Tuple(vec![number(1)])
    );
    assert!(matches!(make(&op(Operator::Mul, t(), num(2)), &mut env), Err(RuntimeError::ValueErrorT)));
    assert!(matches!(make(&op(Operator::Mul, t(), num(0)), &mut env), Err(RuntimeError::ValueErrorT)));
}

#[test]
fn unary_operators_apply_to_their_kind() {
    let mut env = Variables::new();
    let neg = |e| Expr::UnaryOp(UnaryOperator::Neg, Box::new(e));
    let not = |e| Expr::UnaryOp(UnaryOperator::Not, Box::new(e));
    assert_eq!(make(&neg(num(5)), &mut env).unwrap(), number(-5));
    assert_eq!(make(&not(Expr::Bool(true)), &mut env).unwrap(), Value::Bool(false));
    assert!(matches!(make(&neg(Expr::Bool(true)), &mut env), Err(RuntimeError::ValueErrorT)));
    assert!(matches!(make(&not(num(1)), &mut env), Err(RuntimeError::ValueErrorT)));
}

#[test]
fn a_cast_casts_what_its_operand_makes() {
    let mut env = Variables::new();
    let e = Expr::Cast(Box::new(num(12)), Type::String, Type::Number);
    assert_eq!(make(&e, &mut env).unwrap(), string("12"));
    let e = Expr::Cast(Box::new(num(12)), Type::String, Type::String);
    assert!(matches!(
        make(&e, &mut env),
        Err(RuntimeError::TypeMismatchT(Type::String, Type::Number))
    ));
}

#[test]
fn the_wildcard_cannot_be_constructed() {
    let mut env = Variables::new();
    assert!(matches!(make(&Expr::Any, &mut env), Err(RuntimeError::ValueErrorT)));
}

#[test]
fn a_call_runs_the_function_on_its_argument() {
    let mut functions = Functions::new();
    functions.insert(
        name("twice"),
        vec![Transformation::Forced {
            destruct: ident("s"),
            construct: op(Operator::Add, ident("s"), ident("s")),
        }],
    );
    let call = Expr::Call(name("twice"), Box::new(text("ab")));
    let mut env = Variables::new();
    assert_eq!(call.construct(&mut env, &functions, 4).unwrap(), string("abab"));
    let missing = Expr::Call(name("thrice"), Box::new(text("ab")));
    assert!(matches!(missing.construct(&mut env, &functions, 4), Err(RuntimeError::ValueErrorT)));
    assert!(matches!(call.construct(&mut env, &functions, 0), Err(RuntimeError::ValueErrorT)));
}
