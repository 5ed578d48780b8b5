use interpreter::ast::{Expr, Functions};
use interpreter::error::RuntimeError;
use interpreter::number::Number;
use interpreter::traits::{Maths, Structure};
use interpreter::value::Value;
use interpreter::variables::Variables;

fn number(n: i64) -> Value {
    Value::Number(Number::integer(n))
}

fn sum_of<T: Maths>(a: &T, b: &T) -> Result<Value, RuntimeError> {
    a.add(b)
}

fn difference_of<T: Maths>(a: &T, b: &T) -> Result<Value, RuntimeError> {
    a.sub(b)
}

fn quotient_of<T: Maths>(a: &T, b: &T) -> Result<Value, RuntimeError> {
    a.div(b)
}

fn made_by<T: Structure>(e: &T) -> Result<Value, RuntimeError> {
    e.construct(&mut Variables::new(), &Functions::new(), 1)
}

fn matched_by<T: Structure>(e: &T, v: &Value, env: &mut Variables) -> Result<Option<Value>, RuntimeError> {
    e.destruct(v, env, &Functions::new(), 1)
}

#[test]
fn values_do_arithmetic_through_the_trait() {
    assert_eq!(sum_of(&number(2), &number(3)).unwrap(), number(5));
    assert_eq!(difference_of(&number(2), &number(3)).unwrap(), number(-1));
    assert_eq!(quotient_of(&number(6), &number(3)).unwrap(), number(2));
    assert!(matches!(sum_of(&number(2), &Value::Bool(true)), Err(RuntimeError::ValueErrorT)));
}

#[test]
fn expressions_make_and_match_through_the_trait() {
    let seven = Expr::Number(Number::integer(7));
    assert_eq!(made_by(&seven).unwrap(), number(7));
    let x: Vec<char> = "x".chars().collect();
    let mut env = Variables::new();
    assert_eq!(matched_by(&Expr::Ident(x.clone()), &number(7), &mut env).unwrap(), None);
    assert_eq!(env.get(&x), Some(&number(7)));
    assert!(matches!(
        matched_by(&seven, &number(8), &mut env),
        Err(RuntimeError::PatternMismatchT)
    ));
}
