use interpreter::ast::{Expr, Functions, Operator, TopLevel, Transformation};
use interpreter::error::RuntimeError;
use interpreter::interpret::interpret;
use interpreter::number::Number;
use interpreter::value::Value;
use interpreter::variables::Variables;

fn name(s: &str) -> Vec<char> {
    s.chars().collect()
}

fn ident(s: &str) -> Expr {
    Expr::Ident(name(s))
}

fn num(n: i64) -> Expr {
    Expr::Number(Number::integer(n))
}

fn number(n: i64) -> Value {
    Value::Number(Number::integer(n))
}

fn string(s: &str) -> Value {
    Value::String(name(s))
}

fn op(op: Operator, a: Expr, b: Expr) -> Expr {
    Expr::Operator(op, Box::new(a), Box::new(b))
}

#[test]
fn numeric_inversion_binds_the_difference() {
    let pattern = op(Operator::Add, ident("x"), num(10));
    let mut env = Variables::new();
    let functions = Functions::new();
    let r = pattern.destruct(&number(15), &mut env, &functions, 8);
    assert!(r.is_ok());
    assert_eq!(env.get(&name("x")), Some(&number(5)));
}

#[test]
fn string_inversion_strips_the_known_prefix() {
    let pattern = op(Operator::Add, Expr::String(name("hello"), None), ident("x"));
    let functions = Functions::new();
    let mut env = Variables::new();
    let r = pattern.destruct(&string("hello world"), &mut env, &functions, 8);
    assert!(r.is_ok());
    assert_eq!(env.get(&name("x")), Some(&string(" world")));

    let mut env = Variables::new();
    let r = pattern.destruct(&string("goodbye"), &mut env, &functions, 8);
    assert!(matches!(r, Err(RuntimeError::PatternMismatchT)));
}

#[test]
fn array_tiling_inversion_finds_the_piece() {
    let pattern = op(Operator::Mul, ident("x"), num(3));
    let functions = Functions::new();
    let tiled = Value::Array(vec![number(1), number(2), number(1), number(2), number(1), number(2)]);
    let mut env = Variables::new();
    let r = pattern.destruct(&tiled, &mut env, &functions, 8);
    assert!(r.is_ok());
    assert_eq!(env.get(&name("x")), Some(&Value::Array(vec![number(1), number(2)])));

    let other = Value::Array(vec![number(1), number(2), number(3), number(4), number(5), number(6)]);
    let mut env = Variables::new();
    let r = pattern.destruct(&other, &mut env, &functions, 8);
    assert!(matches!(r, Err(RuntimeError::PatternMismatchT)));
}

#[test]
fn function_pipeline_applies_rules_in_order() {
    let mut functions = Functions::new();
    functions.insert(
        name("main"),
        vec![
            Transformation::Forced {
                destruct: ident("x"),
                construct: op(Operator::Add, ident("x"), num(1)),
            },
            Transformation::Forced {
                destruct: ident("x"),
                construct: op(Operator::Mul, ident("x"), num(2)),
            },
        ],
    );
    let r = interpret(TopLevel { functions }, number(3));
    assert_eq!(r.unwrap(), number(8));
}

#[test]
fn two_unknowns_are_a_value_error() {
    let pattern = op(Operator::Add, ident("x"), ident("y"));
    let functions = Functions::new();
    for target in [number(1), string("ab"), Value::Bool(true), Value::Array(vec![])] {
        let mut env = Variables::new();
        let r = pattern.destruct(&target, &mut env, &functions, 8);
        assert!(matches!(r, Err(RuntimeError::ValueErrorT)));
    }
}
