use interpreter::ast::{Expr, Operator, StringFlag, TopLevel, Transformation, Type, UnaryOperator};
use interpreter::error::{LangError, LangErrorT};
use interpreter::interpret::interpret;
use interpreter::number::Number;
use interpreter::parser::{strip_quotes, Lexer, Token, Tokens};
use interpreter::span::{Sp, Span};
use interpreter::value::Value;

fn chars(s: &str) -> Vec<char> {
    s.chars().collect()
}

fn ident(s: &str) -> Tokens {
    Tokens::Ident(chars(s))
}

fn number(s: &str) -> Tokens {
    Tokens::Number(chars(s))
}

fn name(s: &str) -> Expr {
    Expr::Ident(chars(s))
}

fn num(n: i64) -> Expr {
    Expr::Number(Number::integer(n))
}

fn op(op: Operator, a: Expr, b: Expr) -> Expr {
    Expr::Operator(op, Box::new(a), Box::new(b))
}

/// The tokens, each one character wide, one behind the other.
fn spanned(tokens: Vec<Tokens>) -> Vec<Token> {
    tokens.into_iter().enumerate().map(|(i, t)| Sp::new(t, Span::new(i, i + 1))).collect()
}

fn reader(tokens: Vec<Tokens>) -> Lexer {
    Lexer::new(spanned(tokens), None)
}

fn parsed(tokens: Vec<Tokens>) -> Result<Expr, LangError> {
    reader(tokens).parse_expr()
}

fn same(found: Result<Expr, LangError>, expected: Expr) -> bool {
    format!("{:?}", found.unwrap()) == format!("{:?}", expected)
}

fn fault(found: Result<Expr, LangError>) -> ((usize, usize), String) {
    match found {
        Err(LangError::SyntaxError { pos, message, file: None }) => (pos, message),
        other => panic!("{:?}", other),
    }
}

fn rules_of(top: TopLevel) -> Vec<String> {
    top.functions.get(&chars("main")).unwrap().iter().map(|r| format!("{:?}", r)).collect()
}

#[test]
fn tokens() {
    // [a, b] -> [b, a]
    // [a, b] -> a + b
    let pair = |x: &str, y: &str| vec![Tokens::Lbracket, ident(x), Tokens::Comma, ident(y), Tokens::Rbracket];
    let mut source = vec![Tokens::Newline];
    source.extend(pair("a", "b"));
    source.push(Tokens::Rarrow);
    source.extend(pair("b", "a"));
    source.push(Tokens::Newline);
    source.extend(pair("a", "b"));
    source.extend(vec![Tokens::Rarrow, ident("a"), Tokens::Plus, ident("b")]);
    source.extend(vec![Tokens::Newline, Tokens::Newline]);
    let r = Lexer::new(spanned(source), None).parse();
    assert!(matches!(
        r,
        Err(LangError::SyntaxError { message, .. }) if message == "Expected Semi"
    ));
}

#[test]
fn literals_identifiers_and_the_wildcard_are_expressions() {
    assert!(same(parsed(vec![number("12")]), num(12)));
    assert!(same(parsed(vec![number("1_000")]), Expr::Number(Number::nan())));
    assert!(same(parsed(vec![number("2.5")]), Expr::Number(Number::new(5, 2))));
    assert!(same(parsed(vec![Tokens::True]), Expr::Bool(true)));
    assert!(same(parsed(vec![Tokens::False]), Expr::Bool(false)));
    assert!(same(parsed(vec![ident("x")]), name("x")));
    assert!(same(parsed(vec![Tokens::Underscore]), Expr::Any));
    assert!(same(
        parsed(vec![Tokens::StringLiteral(chars("\"hi\""), None)]),
        Expr::String(chars("hi"), None)
    ));
    assert!(same(
        parsed(vec![Tokens::StringLiteral(chars("\"\""), Some(StringFlag::Format))]),
        Expr::String(chars(""), Some(StringFlag::Format))
    ));
}

#[test]
fn quotes_are_taken_off() {
    assert_eq!(strip_quotes(&chars("\"a b\"")), chars("a b"));
    assert_eq!(strip_quotes(&chars("\"\"")), chars(""));
    assert_eq!(strip_quotes(&chars("\"")), chars(""));
    assert_eq!(strip_quotes(&chars("")), chars(""));
}

#[test]
fn unary_operators_bind_to_the_first_part() {
    // -a + b is (-a) + b
    let found = parsed(vec![Tokens::Minus, ident("a"), Tokens::Plus, ident("b")]);
    let neg = Expr::UnaryOp(UnaryOperator::Neg, Box::new(name("a")));
    assert!(same(found, op(Operator::Add, neg, name("b"))));
    let found = parsed(vec![Tokens::Exclamation, Tokens::True]);
    assert!(same(found, Expr::UnaryOp(UnaryOperator::Not, Box::new(Expr::Bool(true)))));
}

#[test]
fn operators_take_everything_to_their_right() {
    // a * b + c is a * (b + c)
    let found = parsed(vec![ident("a"), Tokens::Star, ident("b"), Tokens::Plus, ident("c")]);
    let expected = op(Operator::Mul, name("a"), op(Operator::Add, name("b"), name("c")));
    assert!(same(found, expected));
    let found = parsed(vec![ident("a"), Tokens::Minus, number("1")]);
    assert!(same(found, op(Operator::Sub, name("a"), num(1))));
    let found = parsed(vec![ident("a"), Tokens::Fslash, number("2")]);
    assert!(same(found, op(Operator::Div, name("a"), num(2))));
}

#[test]
fn arrays_hold_their_items() {
    assert!(same(parsed(vec![Tokens::Lbracket, Tokens::Rbracket]), Expr::Array(vec![])));
    let found = parsed(vec![
        Tokens::Lbracket,
        ident("a"),
        Tokens::Comma,
        Tokens::Newline,
        number("1"),
        Tokens::Plus,
        ident("b"),
        Tokens::Rbracket,
    ]);
    let expected = Expr::Array(vec![name("a"), op(Operator::Add, num(1), name("b"))]);
    assert!(same(found, expected));
    // What stands behind an array with items belongs to the expression.
    let found = parsed(vec![Tokens::Lbracket, ident("a"), Tokens::Rbracket, Tokens::Plus, ident("b")]);
    assert!(same(found, op(Operator::Add, Expr::Array(vec![name("a")]), name("b"))));
}

#[test]
fn an_empty_array_and_parentheses_end_the_expression() {
    let mut lexer = reader(vec![Tokens::Lbracket, Tokens::Rbracket, Tokens::Plus, ident("b")]);
    assert!(same(lexer.parse_expr(), Expr::Array(vec![])));
    assert!(matches!(lexer.peek().map(|t| format!("{:?}", t.data())), Some(s) if s == "Plus"));
    let mut lexer = reader(vec![Tokens::Minus, Tokens::Lparen, ident("a"), Tokens::Rparen, Tokens::Plus]);
    assert!(same(lexer.parse_expr(), name("a")));
    assert!(matches!(lexer.peek().map(|t| format!("{:?}", t.data())), Some(s) if s == "Plus"));
}

#[test]
fn tuples_hold_two_items_or_more() {
    let found = parsed(vec![Tokens::Lparen, ident("a"), Tokens::Comma, ident("b"), Tokens::Rparen]);
    assert!(same(found, Expr::Tuple(vec![name("a"), name("b")])));
    let found = parsed(vec![
        Tokens::Lparen,
        ident("a"),
        Tokens::Comma,
        ident("b"),
        Tokens::Comma,
        Tokens::Underscore,
        Tokens::Rparen,
    ]);
    assert!(same(found, Expr::Tuple(vec![name("a"), name("b"), Expr::Any])));
}

#[test]
fn casts_name_the_type_from_and_the_type_to() {
    // x::#string ~> #number
    let found = parsed(vec![
        ident("x"),
        Tokens::DoubleColon,
        Tokens::Type(chars("#string")),
        Tokens::WavyArrow,
        Tokens::Type(chars("#number")),
    ]);
    assert!(same(found, Expr::Cast(Box::new(name("x")), Type::Number, Type::String)));
}

#[test]
fn syntax_errors_say_what_and_where() {
    assert_eq!(fault(parsed(vec![])), ((0, 0), "Unexpected end of input".to_string()));
    assert_eq!(
        fault(parsed(vec![Tokens::Newline, Tokens::Newline])),
        ((2, 0), "Unexpected end of input".to_string())
    );
    assert_eq!(fault(parsed(vec![Tokens::Semi])), ((0, 1), "Unexpected token".to_string()));
    assert_eq!(
        fault(parsed(vec![ident("a"), Tokens::Plus])),
        ((0, 2), "Unexpected end of input".to_string())
    );
    assert_eq!(
        fault(parsed(vec![Tokens::Lbracket, ident("a"), Tokens::Semi])),
        ((0, 3), "Expected tokens `]` or `,`".to_string())
    );
    assert_eq!(
        fault(parsed(vec![Tokens::Lbracket, ident("a"), Tokens::Rparen])),
        ((0, 3), "Expected tokens `]` or `,`".to_string())
    );
    assert_eq!(
        fault(parsed(vec![Tokens::Lparen, ident("a"), Tokens::Comma, ident("b"), Tokens::Rbracket])),
        ((0, 5), "Expected tokens `)` or `,`".to_string())
    );
    assert_eq!(
        fault(parsed(vec![Tokens::Lparen, ident("a"), Tokens::Semi])),
        ((0, 2), "Expected Comma".to_string())
    );
    assert_eq!(
        fault(parsed(vec![ident("x"), Tokens::DoubleColon, ident("string")])),
        ((0, 3), "Expected type".to_string())
    );
    assert_eq!(
        fault(parsed(vec![ident("x"), Tokens::DoubleColon, Tokens::Type(chars("#int"))])),
        ((0, 3), "Not a valid type".to_string())
    );
    assert_eq!(
        fault(parsed(vec![ident("x"), Tokens::DoubleColon, Tokens::Type(chars("#bool")), Tokens::Rarrow])),
        ((0, 3), "Expected WavyArrow".to_string())
    );
}

#[test]
fn a_program_is_rules_with_semicolons() {
    let source = vec![
        ident("x"),
        Tokens::Rarrow,
        ident("x"),
        Tokens::Plus,
        number("1"),
        Tokens::Semi,
        Tokens::Newline,
        ident("x"),
        Tokens::Rarrow,
        ident("x"),
        Tokens::Star,
        number("2"),
        Tokens::Semi,
        Tokens::Newline,
    ];
    let top = reader(source).parse().unwrap();
    let first = Transformation::Forced {
        destruct: name("x"),
        construct: op(Operator::Add, name("x"), num(1)),
    };
    let second = Transformation::Forced {
        destruct: name("x"),
        construct: op(Operator::Mul, name("x"), num(2)),
    };
    assert_eq!(rules_of(top), vec![format!("{:?}", first), format!("{:?}", second)]);
}

#[test]
fn a_parsed_program_runs() {
    let source = vec![
        ident("x"),
        Tokens::Rarrow,
        ident("x"),
        Tokens::Plus,
        Tokens::StringLiteral(chars("\"!\""), None),
        Tokens::Semi,
    ];
    let top = reader(source).parse().unwrap();
    let out = interpret(top, Value::String(chars("hi"))).unwrap();
    assert_eq!(out, Value::String(chars("hi!")));
}

#[test]
fn no_tokens_are_a_program_without_rules() {
    let top = reader(vec![]).parse().unwrap();
    assert!(rules_of(top).is_empty());
    let top = reader(vec![Tokens::Newline]).parse().unwrap();
    assert!(rules_of(top).is_empty());
}

#[test]
fn a_rule_needs_its_arrow_and_its_semicolon() {
    let r = reader(vec![ident("x"), ident("y")]).parse();
    assert!(matches!(r, Err(LangError::SyntaxError { message, .. }) if message == "Expected Rarrow"));
    let r = reader(vec![ident("x"), Tokens::Rarrow, ident("y")]).parse();
    assert!(matches!(r, Err(LangError::SyntaxError { message, .. }) if message == "Expected Semi"));
    let r = reader(vec![ident("x"), Tokens::Rarrow, ident("y"), Tokens::Semi, Tokens::Semi]).parse();
    assert!(matches!(r, Err(LangError::SyntaxError { message, .. }) if message == "Unexpected token"));
    let mut lexer = reader(vec![ident("x"), Tokens::Rarrow, ident("y"), Tokens::Semi]);
    assert_eq!(lexer.parse_transforms().unwrap().len(), 1);
    let mut lexer = reader(vec![ident("x"), Tokens::Rarrow, ident("y")]);
    assert!(lexer.parse_transform().is_ok());
}

#[test]
fn the_reader_reads_token_by_token() {
    let mut lexer = Lexer::new(
        vec![
            Sp::new(Tokens::Newline, Span::new(0, 1)),
            Sp::new(ident("ab"), Span::new(1, 3)),
            Sp::new(Tokens::Newline, Span::new(3, 4)),
            Sp::new(Tokens::Plus, Span::new(4, 5)),
            Sp::new(Tokens::Newline, Span::new(5, 6)),
        ],
        Some("a.txt".to_string()),
    );
    assert_eq!(lexer.file(), Some("a.txt".to_string()));
    assert_eq!(lexer.pos(), (0, 0));
    let two: Vec<String> = lexer.peek_many(2).iter().map(|t| format!("{:?}", t.data())).collect();
    assert_eq!(two, vec!["Ident(['a', 'b'])".to_string(), "Plus".to_string()]);
    assert_eq!(lexer.peek_many(0).len(), 0);
    assert_eq!(lexer.peek_many(5).len(), 2);
    let t = lexer.peek().unwrap();
    assert_eq!(t.span(), Span::new(1, 3));
    assert_eq!(lexer.pos(), (0, 0));
    let t = lexer.next_token().unwrap();
    assert_eq!(format!("{:?}", t.data()), "Ident(['a', 'b'])");
    assert_eq!(lexer.pos(), (1, 2));
    let t = lexer.ensure_next().unwrap();
    assert_eq!(format!("{:?}", t.data()), "Plus");
    assert_eq!(lexer.pos(), (2, 3));
    assert!(lexer.peek().is_none());
    assert!(lexer.next_token().is_none());
    assert_eq!(lexer.pos(), (3, 3));
    let e = lexer.ensure_next();
    assert!(matches!(
        e,
        Err(LangError::SyntaxError { pos: (3, 3), message, file: Some(f) })
            if message == "Unexpected end of input" && f == "a.txt"
    ));
    let e = lexer.throw_error(LangErrorT::SyntaxError, "why");
    assert!(matches!(e, LangError::SyntaxError { pos: (3, 3), message, .. } if message == "why"));
}
