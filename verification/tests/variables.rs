use interpreter::error::RuntimeError;
use interpreter::number::Number;
use interpreter::value::Value;
use interpreter::variables::Variables;

fn name(s: &str) -> Vec<char> {
    s.chars().collect()
}

fn number(n: i64) -> Value {
    Value::Number(Number::integer(n))
}

#[test]
fn new_holds_nothing() {
    let env = Variables::new();
    assert_eq!(env.get(&name("x")), None);
    assert!(env.drained());
}

#[test]
fn insert_binds_and_get_finds() {
    let mut env = Variables::new();
    assert!(env.insert(name("x"), number(5)).is_ok());
    assert!(env.insert(name("y"), Value::Bool(true)).is_ok());
    assert_eq!(env.get(&name("x")), Some(&number(5)));
    assert_eq!(env.get(&name("y")), Some(&Value::Bool(true)));
    assert_eq!(env.get(&name("z")), None);
}

#[test]
fn insert_of_the_same_value_again_succeeds() {
    let mut env = Variables::new();
    env.insert(name("x"), number(5)).unwrap();
    assert!(env.insert(name("x"), number(5)).is_ok());
    assert_eq!(env.get(&name("x")), Some(&number(5)));
}

#[test]
fn insert_of_another_value_is_a_value_error_and_changes_nothing() {
    let mut env = Variables::new();
    env.insert(name("x"), number(5)).unwrap();
    let r = env.insert(name("x"), number(6));
    assert!(matches!(r, Err(RuntimeError::ValueErrorT)));
    assert_eq!(env.get(&name("x")), Some(&number(5)));
}

#[test]
fn a_polyident_gives_back_in_the_order_of_capture() {
    let mut env = Variables::new();
    env.insert_polyident(name("p"), number(1)).unwrap();
    env.insert_polyident(name("p"), number(2)).unwrap();
    env.insert_polyident(name("q"), number(9)).unwrap();
    env.insert_polyident(name("p"), number(3)).unwrap();
    assert!(!env.drained());
    assert_eq!(env.take_polyident(&name("p")).unwrap(), Some(number(1)));
    assert_eq!(env.take_polyident(&name("p")).unwrap(), Some(number(2)));
    assert_eq!(env.take_polyident(&name("q")).unwrap(), Some(number(9)));
    assert!(!env.drained());
    assert_eq!(env.take_polyident(&name("p")).unwrap(), Some(number(3)));
    assert!(env.drained());
}

#[test]
fn a_polyident_that_never_captured_gives_none() {
    let mut env = Variables::new();
    assert!(matches!(env.take_polyident(&name("p")), Ok(None)));
    env.insert(name("p"), number(1)).unwrap();
    assert!(matches!(env.take_polyident(&name("p")), Ok(None)));
}

#[test]
fn a_polyident_used_up_is_a_value_error() {
    let mut env = Variables::new();
    env.insert_polyident(name("p"), number(1)).unwrap();
    env.take_polyident(&name("p")).unwrap();
    assert!(matches!(env.take_polyident(&name("p")), Err(RuntimeError::ValueErrorT)));
    assert!(env.drained());
}

#[test]
fn identifiers_and_polyidents_of_one_name_do_not_meet() {
    let mut env = Variables::new();
    env.insert(name("x"), number(1)).unwrap();
    env.insert_polyident(name("x"), number(2)).unwrap();
    assert_eq!(env.get(&name("x")), Some(&number(1)));
    assert_eq!(env.take_polyident(&name("x")).unwrap(), Some(number(2)));
}

#[test]
fn default_holds_nothing() {
    let env = Variables::default();
    assert_eq!(env.get(&name("x")), None);
    assert!(env.drained());
}
