use interpreter::ast::{Expr, Functions, Operator, TopLevel, Transformation, Type, UnaryOperator};
use interpreter::duality::{are_invertible_rules, is_invertible, loses_nothing};
use interpreter::reversal::{are_plain_rules, is_ground, is_plain, keeps_names, names_it};
use interpreter::engine::{apply_rule, reverse_run_func, run_func};
use interpreter::error::RuntimeError;
use interpreter::interpret::{interpret, MAX_CALL_DEPTH};
use interpreter::number::Number;
use interpreter::span::{Sp, Span};
use interpreter::value::Value;

fn name(s: &str) -> Vec<char> {
    s.chars().collect()
}

fn ident(s: &str) -> Expr {
    Expr::Ident(name(s))
}

fn poly(s: &str) -> Expr {
    Expr::PolyIdent(name(s))
}

fn num(n: i64) -> Expr {
    Expr::Number(Number::integer(n))
}

fn text(s: &str) -> Expr {
    Expr::String(name(s), None)
}

fn number(n: i64) -> Value {
    Value::Number(Number::integer(n))
}

fn string(s: &str) -> Value {
    Value::String(name(s))
}

fn op(op: Operator, a: Expr, b: Expr) -> Expr {
    Expr::Operator(op, Box::new(a), Box::new(b))
}

fn rule(destruct: Expr, construct: Expr) -> Transformation {
    Transformation::Forced { destruct, construct }
}

fn program(functions: Vec<(&str, Vec<Transformation>)>) -> Functions {
    let mut table = Functions::new();
    for (n, rules) in functions {
        table.insert(name(n), rules);
    }
    table
}

#[test]
fn a_function_without_rules_gives_its_input() {
    let fns = program(vec![("id", vec![])]);
    assert_eq!(run_func(&name("id"), number(3), &fns, 1).unwrap(), number(3));
    assert_eq!(reverse_run_func(&name("id"), number(3), &fns, 1).unwrap(), number(3));
}

#[test]
fn a_missing_function_is_a_value_error() {
    let fns = program(vec![("id", vec![])]);
    assert!(matches!(run_func(&name("other"), number(3), &fns, 4), Err(RuntimeError::ValueErrorT)));
    assert!(matches!(
        reverse_run_func(&name("other"), number(3), &fns, 4),
        Err(RuntimeError::ValueErrorT)
    ));
    let r = interpret(TopLevel { functions: fns }, number(3));
    assert!(matches!(r, Err(RuntimeError::ValueErrorT)));
}

#[test]
fn a_call_with_no_depth_left_is_a_value_error() {
    let fns = program(vec![
        ("id", vec![]),
        ("ask", vec![rule(ident("x"), Expr::Call(name("id"), Box::new(ident("x"))))]),
    ]);
    assert_eq!(run_func(&name("id"), number(3), &fns, 0).unwrap(), number(3));
    assert!(matches!(run_func(&name("ask"), number(3), &fns, 0), Err(RuntimeError::ValueErrorT)));
    assert!(matches!(
        reverse_run_func(&name("ask"), number(3), &fns, 0),
        Err(RuntimeError::ValueErrorT)
    ));
    assert_eq!(run_func(&name("ask"), number(3), &fns, 1).unwrap(), number(3));
}

#[test]
fn a_later_definition_replaces_an_earlier_one() {
    let fns = program(vec![
        ("f", vec![rule(Expr::Any, num(1))]),
        ("f", vec![rule(Expr::Any, num(2))]),
    ]);
    assert_eq!(run_func(&name("f"), number(0), &fns, 1).unwrap(), number(2));
    assert_eq!(fns.get(&name("f")).unwrap().len(), 1);
    assert!(fns.get(&name("g")).is_none());
}

#[test]
fn rules_run_in_order_and_in_reverse_order() {
    // x -> x + 1, then x -> x * 2
    let fns = program(vec![(
        "main",
        vec![
            rule(ident("x"), op(Operator::Add, ident("x"), num(1))),
            rule(ident("x"), op(Operator::Mul, ident("x"), num(2))),
        ],
    )]);
    assert_eq!(run_func(&name("main"), number(3), &fns, 1).unwrap(), number(8));
    assert_eq!(reverse_run_func(&name("main"), number(8), &fns, 1).unwrap(), number(3));
    assert_eq!(interpret(TopLevel { functions: fns }, number(3)).unwrap(), number(8));
}

#[test]
fn each_rule_starts_without_bindings() {
    let fns = program(vec![(
        "main",
        vec![rule(ident("x"), ident("x")), rule(Expr::Any, ident("x"))],
    )]);
    assert!(matches!(run_func(&name("main"), number(3), &fns, 1), Err(RuntimeError::ValueErrorT)));
}

#[test]
fn reverse_undoes_run() {
    // [a, b] -> [b, "<" + a + ">"], then [x, y] -> (y, x - 10)
    let fns = program(vec![(
        "main",
        vec![
            rule(
                Expr::Array(vec![ident("a"), ident("b")]),
                Expr::Array(vec![
                    ident("b"),
                    op(Operator::Add, op(Operator::Add, text("<"), ident("a")), text(">")),
                ]),
            ),
            rule(
                Expr::Array(vec![ident("x"), ident("y")]),
                Expr::Tuple(vec![ident("y"), op(Operator::Sub, ident("x"), num(10))]),
            ),
        ],
    )]);
    let input = Value::Array(vec![string("tag"), number(25)]);
    let output = run_func(&name("main"), input.duplicate(), &fns, 1).unwrap();
    assert_eq!(output, Value::Tuple(vec![string("<tag>"), number(15)]));
    assert_eq!(reverse_run_func(&name("main"), output, &fns, 1).unwrap(), input);
}

#[test]
fn reverse_undoes_run_with_division_and_casts() {
    // n -> (n / 4)::#number ~> #string
    let fns = program(vec![(
        "main",
        vec![rule(
            ident("n"),
            Expr::Cast(
                Box::new(op(Operator::Div, ident("n"), num(4))),
                Type::String,
                Type::Number,
            ),
        )],
    )]);
    let output = run_func(&name("main"), number(6), &fns, 1).unwrap();
    assert_eq!(output, string("1.5"));
    assert_eq!(reverse_run_func(&name("main"), output, &fns, 1).unwrap(), number(6));
}

#[test]
fn polyidents_carry_captures_from_pattern_to_constructor() {
    // [p*, p*, p*] -> (p*, [p*, p*])
    let r = apply_rule(
        &Expr::Array(vec![poly("p"), poly("p"), poly("p")]),
        &Expr::Tuple(vec![poly("p"), Expr::Array(vec![poly("p"), poly("p")])]),
        &Value::Array(vec![number(1), number(2), number(3)]),
        &Functions::new(),
        1,
    );
    assert_eq!(
        r.unwrap(),
        Value::Tuple(vec![number(1), Value::Array(vec![number(2), number(3)])])
    );
}

#[test]
fn captures_left_over_are_a_value_error() {
    let r = apply_rule(
        &Expr::Array(vec![poly("p"), poly("p")]),
        &poly("p"),
        &Value::Array(vec![number(1), number(2)]),
        &Functions::new(),
        1,
    );
    assert!(matches!(r, Err(RuntimeError::ValueErrorT)));
}

#[test]
fn more_uses_than_captures_are_a_value_error() {
    let r = apply_rule(
        &Expr::Array(vec![poly("p")]),
        &Expr::Array(vec![poly("p"), poly("p")]),
        &Value::Array(vec![number(1)]),
        &Functions::new(),
        1,
    );
    assert!(matches!(r, Err(RuntimeError::ValueErrorT)));
}

#[test]
fn the_drain_check_holds_in_reverse_too() {
    // p* -> [p*, p*] cannot run forward; in reverse it captures two and uses one.
    let fns = program(vec![("f", vec![rule(poly("p"), Expr::Array(vec![poly("p"), poly("p")]))])]);
    assert!(matches!(run_func(&name("f"), number(1), &fns, 1), Err(RuntimeError::ValueErrorT)));
    let given = Value::Array(vec![number(1), number(2)]);
    assert!(matches!(reverse_run_func(&name("f"), given, &fns, 1), Err(RuntimeError::ValueErrorT)));
}

#[test]
fn a_failing_rule_fails_the_run_with_its_error() {
    let fns = program(vec![(
        "main",
        vec![rule(num(1), num(2)), rule(num(3), num(4)), rule(Expr::Any, Expr::Any)],
    )]);
    assert!(matches!(
        run_func(&name("main"), number(1), &fns, 1),
        Err(RuntimeError::PatternMismatchT)
    ));
    assert!(matches!(
        run_func(&name("main"), number(0), &fns, 1),
        Err(RuntimeError::PatternMismatchT)
    ));
}

#[test]
fn calls_nest_down_to_the_depth_given() {
    // down(n) = down(n - 1), with no end: every depth runs out.
    let fns = program(vec![(
        "down",
        vec![rule(
            ident("n"),
            Expr::Call(name("down"), Box::new(op(Operator::Sub, ident("n"), num(1)))),
        )],
    )]);
    assert!(matches!(run_func(&name("down"), number(0), &fns, 5), Err(RuntimeError::ValueErrorT)));
    // inc calls nothing; twice calls inc two levels deep.
    let fns = program(vec![
        ("inc", vec![rule(ident("n"), op(Operator::Add, ident("n"), num(1)))]),
        (
            "twice",
            vec![rule(
                ident("n"),
                Expr::Call(name("inc"), Box::new(Expr::Call(name("inc"), Box::new(ident("n"))))),
            )],
        ),
    ]);
    assert_eq!(run_func(&name("twice"), number(5), &fns, 1).unwrap(), number(7));
    assert!(matches!(run_func(&name("twice"), number(5), &fns, 0), Err(RuntimeError::ValueErrorT)));
    assert_eq!(reverse_run_func(&name("twice"), number(7), &fns, 1).unwrap(), number(5));
    assert!(matches!(
        reverse_run_func(&name("twice"), number(7), &fns, 0),
        Err(RuntimeError::ValueErrorT)
    ));
    // outer calls twice, which calls inc: two calls deep.
    let mut fns = fns;
    fns.insert(
        name("outer"),
        vec![rule(ident("n"), Expr::Call(name("twice"), Box::new(ident("n"))))],
    );
    assert_eq!(run_func(&name("outer"), number(5), &fns, 2).unwrap(), number(7));
    assert!(matches!(run_func(&name("outer"), number(5), &fns, 1), Err(RuntimeError::ValueErrorT)));
}

#[test]
fn a_function_that_calls_nothing_runs_at_depth_zero() {
    let fns = program(vec![
        ("inc", vec![rule(ident("n"), op(Operator::Add, ident("n"), num(1)))]),
        ("same", vec![]),
    ]);
    assert_eq!(run_func(&name("inc"), number(5), &fns, 0).unwrap(), number(6));
    assert_eq!(reverse_run_func(&name("inc"), number(6), &fns, 0).unwrap(), number(5));
    assert_eq!(run_func(&name("same"), number(5), &fns, 0).unwrap(), number(5));
    assert_eq!(reverse_run_func(&name("same"), number(5), &fns, 0).unwrap(), number(5));
    assert!(matches!(run_func(&name("none"), number(5), &fns, 0), Err(RuntimeError::ValueErrorT)));
}

#[test]
fn interpret_lets_main_call_to_the_depth_limit() {
    assert_eq!(MAX_CALL_DEPTH, usize::MAX);
    let fns = program(vec![
        ("main", vec![rule(ident("s"), Expr::Call(name("wrap"), Box::new(ident("s"))))]),
        (
            "wrap",
            vec![rule(ident("s"), op(Operator::Add, op(Operator::Add, text("["), ident("s")), text("]")))],
        ),
    ]);
    assert_eq!(interpret(TopLevel { functions: fns }, string("x")).unwrap(), string("[x]"));
}

#[test]
fn interpret_lets_calls_nest_deeper_than_a_hundred() {
    // A chain of 150 functions, each calling the next; the last adds 1.
    let mut functions = Functions::new();
    for i in 0..150 {
        let body = if i == 149 {
            op(Operator::Add, ident("n"), num(1))
        } else {
            Expr::Call(name(&format!("f{}", i + 1)), Box::new(ident("n")))
        };
        functions.insert(name(&format!("f{}", i)), vec![rule(ident("n"), body)]);
    }
    functions.insert(
        name("main"),
        vec![rule(ident("n"), Expr::Call(name("f0"), Box::new(ident("n"))))],
    );
    assert_eq!(interpret(TopLevel { functions }, number(1)).unwrap(), number(2));
}

#[test]
fn errors_are_placed_in_the_source() {
    let file = Some("prog.txt".to_string());
    let e = RuntimeError::new(RuntimeError::PatternMismatchT, (2, 7), file.clone(), "no match");
    assert!(matches!(
        &e,
        RuntimeError::PatternMismatch { pos: (2, 7), message, file: Some(f) }
            if message == "no match" && f == "prog.txt"
    ));
    let e = RuntimeError::new(RuntimeError::ValueErrorT, (0, 1), None, "bad operands");
    assert!(matches!(
        &e,
        RuntimeError::ValueError { pos: (0, 1), message, file: None } if message == "bad operands"
    ));
    let e = RuntimeError::new(
        RuntimeError::TypeMismatchT(Type::Number, Type::String),
        (3, 4),
        None,
        "ignored",
    );
    assert!(matches!(
        e,
        RuntimeError::TypeMismatch {
            pos: (3, 4),
            expected: Type::Number,
            found: Type::String,
            file: None
        }
    ));
    let placed = RuntimeError::new(e, (9, 9), file, "again");
    assert!(matches!(placed, RuntimeError::TypeMismatch { pos: (3, 4), file: None, .. }));
}

#[test]
fn spans_keep_their_ends() {
    let span = Span::new(3, 9);
    assert_eq!(span.start(), 3);
    assert_eq!(span.end(), 9);
    let sp = Sp::new("token", span);
    assert_eq!(*sp.data(), "token");
    assert_eq!(sp.span(), span);
}

#[test]
fn a_rule_that_drops_its_input_cannot_be_undone() {
    // x -> 1 makes 1 of everything; in reverse nothing binds x.
    let fns = program(vec![("f", vec![rule(ident("x"), num(1))])]);
    assert!(are_invertible_rules(fns.get(&name("f")).unwrap()));
    assert_eq!(run_func(&name("f"), number(5), &fns, 1).unwrap(), number(1));
    assert!(matches!(
        reverse_run_func(&name("f"), number(1), &fns, 1),
        Err(RuntimeError::ValueErrorT)
    ));
    // _ -> 1 cannot be undone either: the wildcard makes no value.
    let fns = program(vec![("f", vec![rule(Expr::Any, num(1))])]);
    assert_eq!(run_func(&name("f"), number(5), &fns, 1).unwrap(), number(1));
    assert!(matches!(
        reverse_run_func(&name("f"), number(1), &fns, 1),
        Err(RuntimeError::ValueErrorT)
    ));
}

#[test]
fn a_cast_that_loses_something_is_not_undone() {
    // s::#number ~> #string as a pattern reads the number that a string says.
    let pattern = Expr::Cast(Box::new(ident("n")), Type::String, Type::Number);
    assert!(!is_invertible(&pattern, true));
    assert!(is_invertible(&pattern, false));
    let fns = program(vec![("f", vec![rule(pattern, ident("n"))])]);
    assert_eq!(run_func(&name("f"), string("007"), &fns, 1).unwrap(), number(7));
    assert_eq!(reverse_run_func(&name("f"), number(7), &fns, 1).unwrap(), string("7"));
}

#[test]
fn what_can_be_undone_is_told() {
    let sum = op(Operator::Add, ident("x"), num(1));
    assert!(is_invertible(&sum, true));
    assert!(is_invertible(&sum, false));
    assert!(is_invertible(&Expr::Array(vec![poly("p"), Expr::Any, text("s")]), true));
    assert!(is_invertible(&Expr::UnaryOp(UnaryOperator::Neg, Box::new(ident("x"))), true));
    assert!(!is_invertible(&op(Operator::Mul, ident("x"), num(2)), true));
    assert!(!is_invertible(&op(Operator::And, ident("x"), Expr::Bool(true)), false));
    assert!(!is_invertible(&Expr::Call(name("f"), Box::new(ident("x"))), true));
    assert!(!is_invertible(&Expr::Tuple(vec![ident("x"), op(Operator::Or, ident("x"), ident("y"))]), true));
    assert!(loses_nothing(&Type::Number, &Type::String));
    assert!(loses_nothing(&Type::String, &Type::Array));
    assert!(loses_nothing(&Type::String, &Type::Tuple));
    assert!(loses_nothing(&Type::Bool, &Type::Bool));
    assert!(!loses_nothing(&Type::String, &Type::Number));
    assert!(!loses_nothing(&Type::Array, &Type::String));
    assert!(!loses_nothing(&Type::Bool, &Type::String));
    let fns = program(vec![(
        "f",
        vec![rule(ident("x"), sum), rule(ident("x"), op(Operator::Mul, ident("x"), num(2)))],
    )]);
    assert!(!are_invertible_rules(fns.get(&name("f")).unwrap()));
}

#[test]
fn a_function_that_calls_itself_without_end_runs_out_of_depth() {
    // main(x) = main(x + 1)
    let fns = program(vec![(
        "main",
        vec![rule(
            ident("x"),
            Expr::Call(name("main"), Box::new(op(Operator::Add, ident("x"), num(1)))),
        )],
    )]);
    let r = run_func(&name("main"), number(0), &fns, 50);
    assert!(matches!(r, Err(RuntimeError::ValueErrorT)));
    // The same in reverse: main^-1(y) needs main^-1 of what the call made.
    let fns = program(vec![(
        "main",
        vec![rule(
            Expr::Call(name("main"), Box::new(op(Operator::Add, ident("x"), num(1)))),
            ident("x"),
        )],
    )]);
    let r = run_func(&name("main"), number(0), &fns, 50);
    assert!(matches!(r, Err(RuntimeError::ValueErrorT)));
}

#[test]
fn plain_rules_are_told() {
    let sum = op(Operator::Add, ident("x"), num(1));
    assert!(is_plain(&sum, true));
    assert!(is_plain(&Expr::Array(vec![poly("p"), text("s"), ident("a")]), false));
    assert!(is_plain(&Expr::UnaryOp(UnaryOperator::Not, Box::new(ident("b"))), true));
    // Two sides that hold identifiers, the wildcard, and `/` are not plain.
    assert!(!is_plain(&op(Operator::Add, ident("x"), ident("y")), true));
    assert!(!is_plain(&Expr::Any, true));
    assert!(!is_plain(&op(Operator::Div, ident("x"), num(2)), true));
    assert!(!is_plain(&op(Operator::Mul, ident("x"), num(2)), false));
    assert!(!is_plain(&Expr::Call(name("f"), Box::new(num(1))), false));
    let cast = Expr::Cast(Box::new(ident("n")), Type::String, Type::Number);
    assert!(is_plain(&cast, false));
    assert!(!is_plain(&cast, true));
    assert!(is_ground(&op(Operator::Add, num(1), text("a"))));
    assert!(is_ground(&Expr::Tuple(vec![Expr::Bool(true), Expr::Array(vec![])])));
    assert!(!is_ground(&Expr::Array(vec![num(1), ident("x")])));
    assert!(!is_ground(&poly("p")));
    assert!(!is_ground(&Expr::Any));
    assert!(names_it(&Expr::Array(vec![num(1), sum]), &name("x")));
    let sum = op(Operator::Add, ident("x"), num(1));
    assert!(!names_it(&sum, &name("y")));
    assert!(!names_it(&poly("x"), &name("x")));
    assert!(keeps_names(&Expr::Array(vec![ident("a"), ident("b")]), &Expr::Tuple(vec![ident("b"), ident("a"), ident("c")])));
    assert!(!keeps_names(&Expr::Array(vec![ident("a"), ident("b")]), &ident("a")));
    assert!(keeps_names(&num(1), &num(2)));
}

#[test]
fn plain_functions_run_in_reverse_for_sure() {
    // [a, b] -> ("<" + a, b - 10), then (s, n) -> [-n, s::#string ~> #array]
    let fns = program(vec![(
        "main",
        vec![
            rule(
                Expr::Array(vec![ident("a"), ident("b")]),
                Expr::Tuple(vec![
                    op(Operator::Add, text("<"), ident("a")),
                    op(Operator::Sub, ident("b"), num(10)),
                ]),
            ),
            rule(
                Expr::Tuple(vec![ident("s"), ident("n")]),
                Expr::Array(vec![
                    Expr::UnaryOp(UnaryOperator::Neg, Box::new(ident("n"))),
                    Expr::Cast(Box::new(ident("s")), Type::Array, Type::String),
                ]),
            ),
        ],
    )]);
    assert!(are_plain_rules(fns.get(&name("main")).unwrap()));
    let input = Value::Array(vec![string("ab"), number(3)]);
    let output = run_func(&name("main"), input.duplicate(), &fns, 1).unwrap();
    assert_eq!(
        output,
        Value::Array(vec![
            number(7),
            Value::Array(vec![string("<"), string("a"), string("b")]),
        ])
    );
    assert_eq!(reverse_run_func(&name("main"), output, &fns, 1).unwrap(), input);
    // A rule that drops a name is not plain.
    let fns = program(vec![("f", vec![rule(ident("x"), num(1))])]);
    assert!(!are_plain_rules(fns.get(&name("f")).unwrap()));
}

#[test]
fn a_run_that_is_not_exact_is_not_undone() {
    // x -> x + 1 on the largest number: the sum does not fit.
    let fns = program(vec![("main", vec![rule(ident("x"), op(Operator::Add, ident("x"), num(1)))])]);
    let made = run_func(&name("main"), number(i64::MAX), &fns, 4).unwrap();
    assert_eq!(made, Value::Number(Number::nan()));
    let back = reverse_run_func(&name("main"), made, &fns, 4).unwrap();
    assert_eq!(back, Value::Number(Number::nan()));
    // One less, and the run is exact.
    let made = run_func(&name("main"), number(i64::MAX - 1), &fns, 4).unwrap();
    assert_eq!(made, number(i64::MAX));
    let back = reverse_run_func(&name("main"), made, &fns, 4).unwrap();
    assert_eq!(back, number(i64::MAX - 1));
}

#[test]
fn dividing_by_zero_in_a_rule_gives_an_infinity() {
    // x -> 1 / x
    let fns = program(vec![("main", vec![rule(ident("x"), op(Operator::Div, num(1), ident("x")))])]);
    let made = run_func(&name("main"), number(0), &fns, 4).unwrap();
    assert_eq!(made, Value::Number(Number::infinity(false)));
    // 1 / x = 0 in reverse: x is infinite.
    let back = reverse_run_func(&name("main"), number(0), &fns, 4).unwrap();
    assert_eq!(back, Value::Number(Number::infinity(false)));
}
