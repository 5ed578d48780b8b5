//! The concrete syntax: tokens, and the syntax tree built from them.
//!
//! A program is a list of rules, each a pattern, `->`, a constructor and
//! `;`. An expression is a literal, an identifier, `_`, an array in
//! brackets or a tuple in parentheses, maybe with `-` or `!` in front, and
//! maybe with an operator and another expression, or a cast, behind. Lines
//! may end anywhere between tokens.
use crate::ast::{
    expr_views, lemma_expr_views, rule_views, Expr, ExprModel, Functions, Operator, RuleModel, StringFlag, TopLevel, Transformation, Type,
    UnaryOperator,
};
use crate::chars::copy_chars;
use crate::error::{LangError, LangErrorT};
use crate::number::{Fraction, Number};
use crate::span::{Sp, Span};
use vstd::prelude::*;

verus! {

/// The tokens of the language.
#[derive(Debug)]
pub enum Tokens {
    Star,
    Plus,
    Minus,
    Fslash,
    Underscore,
    Lbracket,
    Rbracket,
    Lparen,
    Rparen,
    Lbrace,
    Rbrace,
    Larrow,
    Rarrow,
    WavyArrow,
    Pipe,
    Semi,
    Colon,
    DoubleColon,
    Comma,
    Dot,
    Question,
    Exclamation,
    Equal,
    NotEqual,
    LessThan,
    LessThanEqual,
    GreaterThan,
    GreaterThanEqual,
    Let,
    If,
    Then,
    Else,
    True,
    False,
    /// The literal as written, with its quotes, and whether `f` stood in
    /// front of it.
    StringLiteral(Vec<char>, Option<StringFlag>),
    /// The number as written: digits, maybe with a `.` and more digits.
    Number(Vec<char>),
    BinaryLiteral,
    HexLiteral,
    OctalLiteral,
    Ident(Vec<char>),
    /// The name of a type as written, with the `#` in front.
    Type(Vec<char>),
    Newline,
    Error,
}

/// A token and the place in the source that it came from.
pub type Token = Sp<Tokens>;

impl Tokens {
    /// A copy of the token.
    pub fn duplicate(&self) -> (r: Tokens)
        ensures
            r.same_as(*self),
    {
        match self {
            Tokens::Star => Tokens::Star,
            Tokens::Plus => Tokens::Plus,
            Tokens::Minus => Tokens::Minus,
            Tokens::Fslash => Tokens::Fslash,
            Tokens::Underscore => Tokens::Underscore,
            Tokens::Lbracket => Tokens::Lbracket,
            Tokens::Rbracket => Tokens::Rbracket,
            Tokens::Lparen => Tokens::Lparen,
            Tokens::Rparen => Tokens::Rparen,
            Tokens::Lbrace => Tokens::Lbrace,
            Tokens::Rbrace => Tokens::Rbrace,
            Tokens::Larrow => Tokens::Larrow,
            Tokens::Rarrow => Tokens::Rarrow,
            Tokens::WavyArrow => Tokens::WavyArrow,
            Tokens::Pipe => Tokens::Pipe,
            Tokens::Semi => Tokens::Semi,
            Tokens::Colon => Tokens::Colon,
            Tokens::DoubleColon => Tokens::DoubleColon,
            Tokens::Comma => Tokens::Comma,
            Tokens::Dot => Tokens::Dot,
            Tokens::Question => Tokens::Question,
            Tokens::Exclamation => Tokens::Exclamation,
            Tokens::Equal => Tokens::Equal,
            Tokens::NotEqual => Tokens::NotEqual,
            Tokens::LessThan => Tokens::LessThan,
            Tokens::LessThanEqual => Tokens::LessThanEqual,
            Tokens::GreaterThan => Tokens::GreaterThan,
            Tokens::GreaterThanEqual => Tokens::GreaterThanEqual,
            Tokens::Let => Tokens::Let,
            Tokens::If => Tokens::If,
            Tokens::Then => Tokens::Then,
            Tokens::Else => Tokens::Else,
            Tokens::True => Tokens::True,
            Tokens::False => Tokens::False,
            Tokens::StringLiteral(s, flag) => Tokens::StringLiteral(copy_chars(s), *flag),
            Tokens::Number(s) => Tokens::Number(copy_chars(s)),
            Tokens::BinaryLiteral => Tokens::BinaryLiteral,
            Tokens::HexLiteral => Tokens::HexLiteral,
            Tokens::OctalLiteral => Tokens::OctalLiteral,
            Tokens::Ident(s) => Tokens::Ident(copy_chars(s)),
            Tokens::Type(s) => Tokens::Type(copy_chars(s)),
            Tokens::Newline => Tokens::Newline,
            Tokens::Error => Tokens::Error,
        }
    }

    /// The two tokens are of one kind and hold the same text.
    pub open spec fn same_as(self, other: Tokens) -> bool {
        match (self, other) {
            (Tokens::StringLiteral(a, f), Tokens::StringLiteral(b, g)) => a@ == b@ && f == g,
            (Tokens::Number(a), Tokens::Number(b)) => a@ == b@,
            (Tokens::Ident(a), Tokens::Ident(b)) => a@ == b@,
            (Tokens::Type(a), Tokens::Type(b)) => a@ == b@,
            (Tokens::StringLiteral(_, _), _) => false,
            (Tokens::Number(_), _) => false,
            (Tokens::Ident(_), _) => false,
            (Tokens::Type(_), _) => false,
            (_, Tokens::StringLiteral(_, _)) => false,
            (_, Tokens::Number(_)) => false,
            (_, Tokens::Ident(_)) => false,
            (_, Tokens::Type(_)) => false,
            _ => self == other,
        }
    }
}

/// The two tokens are of one kind, hold the same text and come from the same
/// place.
pub open spec fn same_token(a: Token, b: Token) -> bool {
    a.data_of().same_as(b.data_of()) && a.span_of() == b.span_of()
}

/// A copy of a token.
pub fn copy_token(t: &Token) -> (r: Token)
    ensures
        same_token(r, *t),
{
    Sp::new(t.data().duplicate(), t.span())
}

/// Whether the token ends a line.
pub open spec fn is_newline(t: Token) -> bool {
    t.data_of() is Newline
}

/// How many tokens are left from `i` on.
pub open spec fn remaining(tokens: Seq<Token>, i: nat) -> nat {
    if i <= tokens.len() {
        (tokens.len() - i) as nat
    } else {
        0
    }
}

/// Where the first token from `i` on stands that does not end a line; where
/// the tokens end, if there is none.
pub open spec fn skip(tokens: Seq<Token>, i: nat) -> nat
    decreases remaining(tokens, i),
{
    if i < tokens.len() && is_newline(tokens[i as int]) {
        skip(tokens, i + 1)
    } else {
        i
    }
}

/// The next token from `i` on that does not end a line.
pub open spec fn peeked(tokens: Seq<Token>, i: nat) -> Option<Token> {
    let j = skip(tokens, i);
    if j < tokens.len() {
        Some(tokens[j as int])
    } else {
        None
    }
}

/// Where reading goes on after the next token from `i` on that does not end
/// a line.
pub open spec fn advanced(tokens: Seq<Token>, i: nat) -> nat {
    let j = skip(tokens, i);
    if j < tokens.len() {
        j + 1
    } else {
        j
    }
}

/// Skipping ends of lines goes forward, and not beyond the tokens.
pub proof fn lemma_skip(tokens: Seq<Token>, i: nat)
    ensures
        i <= skip(tokens, i),
        i <= tokens.len() ==> skip(tokens, i) <= tokens.len(),
        i <= advanced(tokens, i),
        peeked(tokens, i) is Some ==> i < advanced(tokens, i) <= tokens.len(),
        skip(tokens, i) < tokens.len() ==> !is_newline(tokens[skip(tokens, i) as int]),
    decreases remaining(tokens, i),
{
    if i < tokens.len() && is_newline(tokens[i as int]) {
        lemma_skip(tokens, i + 1);
    }
}

/// The next `amount` tokens from `i` on that do not end a line, or as many as
/// there are.
pub open spec fn upcoming(tokens: Seq<Token>, i: nat, amount: nat) -> Seq<Token>
    decreases remaining(tokens, i),
{
    if amount == 0 || i >= tokens.len() {
        Seq::empty()
    } else if is_newline(tokens[i as int]) {
        upcoming(tokens, i + 1, amount)
    } else {
        seq![tokens[i as int]] + upcoming(tokens, i + 1, (amount - 1) as nat)
    }
}

/// How long the stretch of a span is.
pub open spec fn stretch(span: Span) -> nat {
    if span@.1 >= span@.0 {
        (span@.1 - span@.0) as nat
    } else {
        0
    }
}

/// The line and the column reached after the first `n` tokens: the line
/// counts the tokens that end a line, the column adds up the stretches of
/// the others, as far as a `usize` can tell.
pub open spec fn position(tokens: Seq<Token>, n: nat) -> (nat, nat)
    decreases n,
{
    if n == 0 || n > tokens.len() {
        (0, 0)
    } else {
        let (line, column) = position(tokens, (n - 1) as nat);
        let t = tokens[n - 1];
        if is_newline(t) {
            (line + 1, column)
        } else if column + stretch(t.span_of()) > usize::MAX {
            (line, usize::MAX as nat)
        } else {
            (line, column + stretch(t.span_of()))
        }
    }
}

/// The lines counted are no more than the tokens read.
proof fn lemma_position(tokens: Seq<Token>, n: nat)
    ensures
        position(tokens, n).0 <= n,
        position(tokens, n).1 <= usize::MAX,
    decreases n,
{
    if n == 0 || n > tokens.len() {
    } else {
        lemma_position(tokens, (n - 1) as nat);
    }
}

/// A reader of tokens: the tokens of a source text and how many of them have
/// been read.
#[derive(Debug)]
pub struct Lexer {
    tokens: Vec<Token>,
    index: usize,
    file: Option<String>,
}

impl Lexer {
    /// The tokens that are read.
    pub closed spec fn tokens_of(self) -> Seq<Token> {
        self.tokens@
    }

    /// How many tokens have been read. It is never more than there are.
    pub closed spec fn index_of(self) -> nat {
        if self.index <= self.tokens.len() {
            self.index as nat
        } else {
            self.tokens.len() as nat
        }
    }

    /// The file that the tokens come from.
    pub closed spec fn file_of(self) -> Option<String> {
        self.file
    }

    /// A reader at the start of `tokens`.
    pub fn new(tokens: Vec<Token>, file: Option<String>) -> (r: Lexer)
        ensures
            r.tokens_of() == tokens@,
            r.index_of() == 0,
            r.file_of() == file,
    {
        Lexer { tokens, index: 0, file }
    }

    fn at(&self) -> (i: usize)
        ensures
            i == self.index_of(),
            i <= self.tokens_of().len(),
    {
        if self.index <= self.tokens.len() {
            self.index
        } else {
            self.tokens.len()
        }
    }

    /// Where the next token stands that does not end a line.
    fn skipped(&self) -> (j: usize)
        ensures
            j == skip(self.tokens_of(), self.index_of()),
            self.index_of() <= j <= self.tokens_of().len(),
    {
        let mut j = self.at();
        proof {
            lemma_skip(self.tokens_of(), self.index_of());
        }
        while j < self.tokens.len() && matches!(self.tokens[j].data(), Tokens::Newline)
            invariant
                self.index_of() <= j <= self.tokens_of().len(),
                skip(self.tokens_of(), j as nat) == skip(self.tokens_of(), self.index_of()),
            decreases self.tokens.len() - j,
        {
            j = j + 1;
        }
        j
    }

    /// The line and the column that reading has reached.
    pub fn pos(&self) -> (r: (usize, usize))
        ensures
            r.0 == position(self.tokens_of(), self.index_of()).0,
            r.1 == position(self.tokens_of(), self.index_of()).1,
    {
        let n = self.at();
        let mut line: usize = 0;
        let mut column: usize = 0;
        let mut i: usize = 0;
        while i < n
            invariant
                i <= n <= self.tokens_of().len(),
                line == position(self.tokens_of(), i as nat).0,
                column == position(self.tokens_of(), i as nat).1,
            decreases n - i,
        {
            proof {
                lemma_position(self.tokens_of(), i as nat);
            }
            let t = &self.tokens[i];
            if matches!(t.data(), Tokens::Newline) {
                line = line + 1;
            } else {
                let span = t.span();
                let width = if span.end() >= span.start() {
                    span.end() - span.start()
                } else {
                    0
                };
                column = match column.checked_add(width) {
                    Some(c) => c,
                    None => usize::MAX,
                };
            }
            i = i + 1;
        }
        (line, column)
    }

    /// The file that the tokens come from.
    pub fn file(&self) -> (r: Option<String>)
        ensures
            r == self.file_of(),
    {
        match &self.file {
            Some(f) => Some(f.clone()),
            None => None,
        }
    }

    /// The next token that does not end a line, if there is one. It is not
    /// read.
    pub fn peek(&self) -> (r: Option<Token>)
        ensures
            match r {
                Some(t) => peeked(self.tokens_of(), self.index_of()) is Some && same_token(
                    t,
                    peeked(self.tokens_of(), self.index_of())->0,
                ),
                None => peeked(self.tokens_of(), self.index_of()) is None,
            },
    {
        let j = self.skipped();
        if j < self.tokens.len() {
            Some(copy_token(&self.tokens[j]))
        } else {
            None
        }
    }

    /// Reads the next token that does not end a line, if there is one, and
    /// the ends of lines in front of it.
    pub fn next_token(&mut self) -> (r: Option<Token>)
        ensures
            final(self).tokens_of() == old(self).tokens_of(),
            final(self).file_of() == old(self).file_of(),
            final(self).index_of() == advanced(old(self).tokens_of(), old(self).index_of()),
            match r {
                Some(t) => peeked(old(self).tokens_of(), old(self).index_of()) is Some
                    && same_token(t, peeked(old(self).tokens_of(), old(self).index_of())->0),
                None => peeked(old(self).tokens_of(), old(self).index_of()) is None,
            },
    {
        let j = self.skipped();
        if j < self.tokens.len() {
            let t = copy_token(&self.tokens[j]);
            self.index = j + 1;
            Some(t)
        } else {
            self.index = j;
            None
        }
    }

    /// A syntax error at the place that reading has reached.
    pub fn throw_error(&self, error: LangErrorT, message: &str) -> (r: LangError)
        ensures
            r matches LangError::SyntaxError { pos, message: m, file } && pos.0 == position(
                self.tokens_of(),
                self.index_of(),
            ).0 && pos.1 == position(self.tokens_of(), self.index_of()).1 && m@ == message@
                && file == self.file_of(),
    {
        match error {
            LangErrorT::SyntaxError => LangError::SyntaxError {
                pos: self.pos(),
                message: message.to_owned(),
                file: self.file(),
            },
        }
    }

    /// Reads the next token that does not end a line; it is a syntax error
    /// where there is none.
    pub fn ensure_next(&mut self) -> (r: Result<Token, LangError>)
        ensures
            final(self).tokens_of() == old(self).tokens_of(),
            final(self).file_of() == old(self).file_of(),
            final(self).index_of() == advanced(old(self).tokens_of(), old(self).index_of()),
            match r {
                Ok(t) => peeked(old(self).tokens_of(), old(self).index_of()) is Some
                    && same_token(t, peeked(old(self).tokens_of(), old(self).index_of())->0),
                Err(e) => peeked(old(self).tokens_of(), old(self).index_of()) is None
                    && final(self).faults(e, "Unexpected end of input"@),
            },
    {
        match self.next_token() {
            Some(t) => Ok(t),
            None => Err(self.throw_error(LangErrorT::SyntaxError, "Unexpected end of input")),
        }
    }

    /// `e` is the syntax error with `message` at the place that reading has
    /// reached.
    pub open spec fn faults(self, e: LangError, message: Seq<char>) -> bool {
        e matches LangError::SyntaxError { pos, message: m, file } && pos.0 == position(
            self.tokens_of(),
            self.index_of(),
        ).0 && pos.1 == position(self.tokens_of(), self.index_of()).1 && m@ == message
            && file == self.file_of()
    }

    /// The next `amount` tokens that do not end a line, or as many as there
    /// are. They are not read.
    pub fn peek_many(&self, amount: usize) -> (r: Vec<Token>)
        ensures
            r@.len() == upcoming(self.tokens_of(), self.index_of(), amount as nat).len(),
            forall|k: int|
                0 <= k < r@.len() ==> same_token(
                    #[trigger] r@[k],
                    upcoming(self.tokens_of(), self.index_of(), amount as nat)[k],
                ),
    {
        let mut out: Vec<Token> = Vec::new();
        let start = self.at();
        let mut i = start;
        let ghost all = upcoming(self.tokens_of(), start as nat, amount as nat);
        while i < self.tokens.len() && out.len() < amount
            invariant
                start <= i <= self.tokens.len(),
                start == self.index_of(),
                out@.len() <= amount,
                all == upcoming(self.tokens_of(), start as nat, amount as nat),
                out@.len() + upcoming(
                    self.tokens_of(),
                    i as nat,
                    (amount - out@.len()) as nat,
                ).len() == all.len(),
                forall|k: int| 0 <= k < out@.len() ==> same_token(#[trigger] out@[k], all[k]),
                forall|k: int|
                    0 <= k < upcoming(
                        self.tokens_of(),
                        i as nat,
                        (amount - out@.len()) as nat,
                    ).len() ==> #[trigger] upcoming(
                        self.tokens_of(),
                        i as nat,
                        (amount - out@.len()) as nat,
                    )[k] == all[out@.len() + k],
            decreases self.tokens.len() - i,
        {
            let ghost rest = upcoming(self.tokens_of(), i as nat, (amount - out@.len()) as nat);
            if !matches!(self.tokens[i].data(), Tokens::Newline) {
                let t = copy_token(&self.tokens[i]);
                proof {
                    let more = upcoming(
                        self.tokens_of(),
                        (i + 1) as nat,
                        (amount - out@.len() - 1) as nat,
                    );
                    assert(rest == seq![self.tokens_of()[i as int]] + more);
                    assert(rest[0] == all[out@.len() as int]);
                    assert forall|k: int| 0 <= k < more.len() implies #[trigger] more[k]
                        == all[out@.len() + 1 + k] by {
                        assert(more[k] == rest[k + 1]);
                    }
                }
                out.push(t);
            }
            i = i + 1;
        }
        out
    }
}

/// Where parsing stopped, and why.
pub struct Fault {
    /// How many tokens had been read.
    pub at: nat,
    pub message: Seq<char>,
}

/// What parsing gives: what was parsed and how many tokens have been read
/// then, or where and why it stopped.
pub type Parsed<T> = Result<(T, nat), Fault>;

/// What stands between the quotes of a string literal.
pub open spec fn unquoted(s: Seq<char>) -> Seq<char> {
    if s.len() >= 2 {
        s.subrange(1, s.len() - 1)
    } else {
        Seq::empty()
    }
}

/// The operator that a token stands for, if it stands for one.
pub open spec fn operator_of(t: Tokens) -> Option<Operator> {
    match t {
        Tokens::Minus => Some(Operator::Sub),
        Tokens::Plus => Some(Operator::Add),
        Tokens::Star => Some(Operator::Mul),
        Tokens::Fslash => Some(Operator::Div),
        _ => None,
    }
}

/// Reads the token `wanted`, which holds no text; `message` says what was
/// expected where another token stands there, or none.
pub open spec fn expected(tokens: Seq<Token>, i: nat, wanted: Tokens, message: Seq<char>) -> Parsed<
    (),
> {
    match peeked(tokens, i) {
        Some(t) => if t.data_of() == wanted {
            Ok(((), advanced(tokens, i)))
        } else {
            Err(Fault { at: i, message })
        },
        None => Err(Fault { at: i, message }),
    }
}

/// Reads the name of a type.
pub open spec fn parsed_type(tokens: Seq<Token>, i: nat) -> Parsed<Type> {
    let j = advanced(tokens, i);
    match peeked(tokens, i) {
        Some(t) => match t.data_of() {
            Tokens::Type(name) => if name@.len() > 0 && Type::named(
                name@.subrange(1, name@.len() as int),
            ) is Ok {
                Ok((Type::named(name@.subrange(1, name@.len() as int))->Ok_0, j))
            } else {
                Err(Fault { at: j, message: "Not a valid type"@ })
            },
            _ => Err(Fault { at: j, message: "Expected type"@ }),
        },
        None => Err(Fault { at: j, message: "Unexpected end of input"@ }),
    }
}

/// The `-` or `!` that the next token is, if it is one.
pub open spec fn leading_unary(tokens: Seq<Token>, i: nat) -> Option<UnaryOperator> {
    match peeked(tokens, i) {
        Some(t) => match t.data_of() {
            Tokens::Minus => Some(UnaryOperator::Neg),
            Tokens::Exclamation => Some(UnaryOperator::Not),
            _ => None,
        },
        None => None,
    }
}

/// Reads an expression: maybe `-` or `!`, the first part, and what follows
/// it.
///
/// An array without items and an expression in parentheses end the
/// expression: a `-` or `!` in front of them is lost, and nothing behind
/// them belongs to it.
pub open spec fn parsed_expr(tokens: Seq<Token>, i: nat) -> Parsed<ExprModel>
    decreases remaining(tokens, i), 2nat,
{
    let unary = leading_unary(tokens, i);
    let i1 = if unary is Some {
        advanced(tokens, i)
    } else {
        i
    };
    proof {
        lemma_skip(tokens, i);
    }
    match parsed_first(tokens, i1) {
        Err(f) => Err(f),
        Ok(((e, true), j)) => Ok((e, j)),
        Ok(((e, false), j)) => {
            let left = match unary {
                Some(op) => ExprModel::UnaryOp(op, Box::new(e)),
                None => e,
            };
            if remaining(tokens, j) < remaining(tokens, i) {
                parsed_tail(tokens, j, left)
            } else {
                Err(Fault { at: j, message: Seq::empty() })
            }
        },
    }
}

/// Reads the first part of an expression: a literal, an identifier, `_`, an
/// array or a tuple. It says too whether the expression ends with it.
pub open spec fn parsed_first(tokens: Seq<Token>, i: nat) -> Parsed<(ExprModel, bool)>
    decreases remaining(tokens, i), 1nat,
{
    let i2 = advanced(tokens, i);
    match peeked(tokens, i) {
        None => Err(Fault { at: i2, message: "Unexpected end of input"@ }),
        Some(t) => {
            proof {
                lemma_skip(tokens, i);
            }
            match t.data_of() {
                Tokens::Number(digits) => Ok(
                    (
                        (ExprModel::Number(Fraction::parse(digits@)), false),
                        i2,
                    ),
                ),
                Tokens::False => Ok(((ExprModel::Bool(false), false), i2)),
                Tokens::True => Ok(((ExprModel::Bool(true), false), i2)),
                Tokens::StringLiteral(text, flag) => Ok(
                    ((ExprModel::String(unquoted(text@), flag), false), i2),
                ),
                Tokens::Ident(name) => Ok(((ExprModel::Ident(name@), false), i2)),
                Tokens::Underscore => Ok(((ExprModel::Any, false), i2)),
                Tokens::Lbracket => parsed_array(tokens, i2),
                Tokens::Lparen => parsed_tuple(tokens, i2),
                _ => Err(Fault { at: i2, message: "Unexpected token"@ }),
            }
        },
    }
}

/// Reads an array behind its `[`: `]` at once, or items.
pub open spec fn parsed_array(tokens: Seq<Token>, i: nat) -> Parsed<(ExprModel, bool)>
    decreases remaining(tokens, i), 4nat,
{
    if peeked(tokens, i) is Some && peeked(tokens, i)->0.data_of() is Rbracket {
        Ok(((ExprModel::Array(Seq::empty()), true), advanced(tokens, i)))
    } else {
        match parsed_items(tokens, i, true, Seq::empty()) {
            Ok((items, j)) => Ok(((ExprModel::Array(items), false), j)),
            Err(f) => Err(f),
        }
    }
}

/// Reads what stands behind `(`: an expression and `)`, or the items of a
/// tuple, of which there are two at least.
pub open spec fn parsed_tuple(tokens: Seq<Token>, i: nat) -> Parsed<(ExprModel, bool)>
    decreases remaining(tokens, i), 4nat,
{
    match parsed_expr(tokens, i) {
        Ok((inner, j)) => if peeked(tokens, j) is Some && peeked(tokens, j)->0.data_of() is Rparen {
            Ok(((inner, true), advanced(tokens, j)))
        } else {
            match expected(tokens, j, Tokens::Comma, "Expected Comma"@) {
                Ok((_, j1)) => if remaining(tokens, j1) < remaining(tokens, i) {
                    match parsed_items(tokens, j1, false, seq![inner]) {
                        Ok((items, j2)) => Ok(((ExprModel::Tuple(items), false), j2)),
                        Err(f) => Err(f),
                    }
                } else {
                    Err(Fault { at: j1, message: Seq::empty() })
                },
                Err(f) => Err(f),
            }
        },
        Err(f) => Err(f),
    }
}

/// Reads what follows the first part `left` of an expression: an operator
/// and an expression, a cast, or nothing.
pub open spec fn parsed_tail(tokens: Seq<Token>, j: nat, left: ExprModel) -> Parsed<ExprModel>
    decreases remaining(tokens, j), 0nat,
{
    let j1 = advanced(tokens, j);
    match peeked(tokens, j) {
        Some(t) => if operator_of(t.data_of()) is Some {
            proof {
                lemma_skip(tokens, j);
            }
            match parsed_expr(tokens, j1) {
                Ok((right, j2)) => Ok(
                    (
                        ExprModel::Operator(
                            operator_of(t.data_of())->0,
                            Box::new(left),
                            Box::new(right),
                        ),
                        j2,
                    ),
                ),
                Err(f) => Err(f),
            }
        } else if t.data_of() is DoubleColon {
            parsed_cast(tokens, j1, left)
        } else {
            Ok((left, j))
        },
        None => Ok((left, j)),
    }
}

/// Reads a cast of `left` behind its `::`: the type cast from, `~>` and the
/// type cast to.
pub open spec fn parsed_cast(tokens: Seq<Token>, i: nat, left: ExprModel) -> Parsed<ExprModel> {
    match parsed_type(tokens, i) {
        Ok((from, j)) => match expected(tokens, j, Tokens::WavyArrow, "Expected WavyArrow"@) {
            Ok((_, j1)) => match parsed_type(tokens, j1) {
                Ok((to, j2)) => Ok((ExprModel::Cast(Box::new(left), to, from), j2)),
                Err(f) => Err(f),
            },
            Err(f) => Err(f),
        },
        Err(f) => Err(f),
    }
}

/// Reads the items of an array (`bracket`) or a tuple behind `found`: an
/// expression, then `,` and more, or the end of the array or tuple.
pub open spec fn parsed_items(
    tokens: Seq<Token>,
    i: nat,
    bracket: bool,
    found: Seq<ExprModel>,
) -> Parsed<Seq<ExprModel>>
    decreases remaining(tokens, i), 3nat,
{
    match parsed_expr(tokens, i) {
        Ok((item, j)) => {
            let j1 = advanced(tokens, j);
            match peeked(tokens, j) {
                Some(t) => if t.data_of() is Comma {
                    if remaining(tokens, j1) < remaining(tokens, i) {
                        parsed_items(tokens, j1, bracket, found.push(item))
                    } else {
                        Err(Fault { at: j1, message: Seq::empty() })
                    }
                } else if bracket && t.data_of() is Rbracket {
                    Ok((found.push(item), j1))
                } else if !bracket && t.data_of() is Rparen {
                    Ok((found.push(item), j1))
                } else {
                    Err(
                        Fault {
                            at: j1,
                            message: if bracket {
                                "Expected tokens `]` or `,`"@
                            } else {
                                "Expected tokens `)` or `,`"@
                            },
                        },
                    )
                },
                None => Err(Fault { at: j1, message: "Unexpected end of input"@ }),
            }
        },
        Err(f) => Err(f),
    }
}

/// Reading an expression reads at least one token, and none beyond the
/// last.
pub proof fn lemma_progress(tokens: Seq<Token>, i: nat)
    ensures
        parsed_expr(tokens, i) matches Ok((_, j)) ==> i < j <= tokens.len(),
    decreases remaining(tokens, i), 2nat,
{
    lemma_skip(tokens, i);
    let i1 = if leading_unary(tokens, i) is Some {
        advanced(tokens, i)
    } else {
        i
    };
    lemma_first_progress(tokens, i1);
    if let Ok(((e, false), j)) = parsed_first(tokens, i1) {
        let left = match leading_unary(tokens, i) {
            Some(op) => ExprModel::UnaryOp(op, Box::new(e)),
            None => e,
        };
        lemma_tail_progress(tokens, j, left);
    }
}

/// Reading the first part of an expression reads at least one token, and
/// none beyond the last.
pub proof fn lemma_first_progress(tokens: Seq<Token>, i: nat)
    ensures
        parsed_first(tokens, i) matches Ok((_, j)) ==> i < j <= tokens.len(),
    decreases remaining(tokens, i), 1nat,
{
    lemma_skip(tokens, i);
    let i2 = advanced(tokens, i);
    if let Some(t) = peeked(tokens, i) {
        lemma_skip(tokens, i2);
        match t.data_of() {
            Tokens::Lbracket => {
                lemma_items_progress(tokens, i2, true, Seq::empty());
            },
            Tokens::Lparen => {
                lemma_tuple_progress(tokens, i2);
            },
            _ => {},
        }
    }
}

/// Reading what stands behind `(` reads at least one token, and none beyond
/// the last.
pub proof fn lemma_tuple_progress(tokens: Seq<Token>, i: nat)
    ensures
        parsed_tuple(tokens, i) matches Ok((_, j)) ==> i < j <= tokens.len(),
    decreases remaining(tokens, i), 4nat,
{
    lemma_progress(tokens, i);
    if let Ok((inner, j)) = parsed_expr(tokens, i) {
        lemma_skip(tokens, j);
        lemma_items_progress(tokens, advanced(tokens, j), false, seq![inner]);
    }
}

/// Reading what follows the first part of an expression reads no token
/// beyond the last, and does not go back.
pub proof fn lemma_tail_progress(tokens: Seq<Token>, j: nat, left: ExprModel)
    requires
        j <= tokens.len(),
    ensures
        parsed_tail(tokens, j, left) matches Ok((_, k)) ==> j <= k <= tokens.len(),
    decreases remaining(tokens, j), 0nat,
{
    lemma_skip(tokens, j);
    let j1 = advanced(tokens, j);
    if let Some(t) = peeked(tokens, j) {
        if operator_of(t.data_of()) is Some {
            lemma_progress(tokens, j1);
        } else if t.data_of() is DoubleColon {
            lemma_skip(tokens, j1);
            if let Ok((from, j2)) = parsed_type(tokens, j1) {
                lemma_skip(tokens, j2);
                if let Ok((_, j3)) = expected(tokens, j2, Tokens::WavyArrow, "Expected WavyArrow"@) {
                    lemma_skip(tokens, j3);
                }
            }
        }
    }
}

/// Reading the items of an array or a tuple reads at least one token, and
/// none beyond the last.
pub proof fn lemma_items_progress(
    tokens: Seq<Token>,
    i: nat,
    bracket: bool,
    found: Seq<ExprModel>,
)
    ensures
        parsed_items(tokens, i, bracket, found) matches Ok((_, j)) ==> i < j <= tokens.len(),
    decreases remaining(tokens, i), 3nat,
{
    lemma_progress(tokens, i);
    if let Ok((item, j)) = parsed_expr(tokens, i) {
        lemma_skip(tokens, j);
        let j1 = advanced(tokens, j);
        if let Some(t) = peeked(tokens, j) {
            if t.data_of() is Comma {
                lemma_items_progress(tokens, j1, bracket, found.push(item));
            }
        }
    }
}

/// Reads one rule: a pattern, `->` and a constructor.
pub open spec fn parsed_rule(tokens: Seq<Token>, i: nat) -> Parsed<RuleModel> {
    match parsed_expr(tokens, i) {
        Ok((destruct, j)) => match expected(tokens, j, Tokens::Rarrow, "Expected Rarrow"@) {
            Ok((_, j1)) => match parsed_expr(tokens, j1) {
                Ok((construct, j2)) => Ok((RuleModel { destruct, construct }, j2)),
                Err(f) => Err(f),
            },
            Err(f) => Err(f),
        },
        Err(f) => Err(f),
    }
}

/// Reads rules behind `found`, each with `;` behind it, until no token is
/// left.
pub open spec fn parsed_rules(tokens: Seq<Token>, i: nat, found: Seq<RuleModel>) -> Parsed<
    Seq<RuleModel>,
>
    decreases remaining(tokens, i),
{
    match parsed_rule(tokens, i) {
        Ok((rule, j)) => match expected(tokens, j, Tokens::Semi, "Expected Semi"@) {
            Ok((_, j1)) => if peeked(tokens, j1) is None {
                Ok((found.push(rule), j1))
            } else if remaining(tokens, j1) < remaining(tokens, i) {
                parsed_rules(tokens, j1, found.push(rule))
            } else {
                Err(Fault { at: j1, message: Seq::empty() })
            },
            Err(f) => Err(f),
        },
        Err(f) => Err(f),
    }
}

/// Reads a program: no rules where no token is left, else rules up to the
/// last token.
pub open spec fn parsed_program(tokens: Seq<Token>, i: nat) -> Parsed<Seq<RuleModel>> {
    if peeked(tokens, i) is Some {
        parsed_rules(tokens, i, Seq::empty())
    } else {
        Ok((Seq::empty(), i))
    }
}

/// What stands between the quotes of a string literal.
pub fn strip_quotes(text: &Vec<char>) -> (r: Vec<char>)
    ensures
        r@ == unquoted(text@),
{
    if text.len() >= 2 {
        crate::chars::slice_chars(text, 1, text.len() - 1)
    } else {
        Vec::new()
    }
}

/// What an expression starts with.
enum Lead {
    /// No token.
    End,
    /// A token that is an expression by itself.
    Simple(Expr),
    Bracket,
    Paren,
    /// A token that starts no expression.
    Other,
}

/// What stands where the name of a type is expected.
enum Named {
    Type(Type),
    /// A name that names no type.
    Unknown,
    /// A token that is no name of a type.
    Other,
    /// No token.
    End,
}

/// What stands behind an item of an array or a tuple.
enum Next {
    Comma,
    Bracket,
    Paren,
    Other,
    End,
}

/// What follows the first part of an expression.
enum Follow {
    Operator(Operator),
    Cast,
    Nothing,
}

/// `after` reads the same tokens of the same file as `before`.
pub open spec fn same_source(before: Lexer, after: Lexer) -> bool {
    after.tokens_of() == before.tokens_of() && after.file_of() == before.file_of()
}

/// `r` and `after` are what `parsed` says of the outcome and of how far the
/// reader has read: on failure the error is placed where the reader stands.
pub open spec fn follows<T, M>(
    before: Lexer,
    after: Lexer,
    r: Result<T, LangError>,
    parsed: Parsed<M>,
) -> bool {
    &&& same_source(before, after)
    &&& match parsed {
        Ok((_, j)) => r is Ok && after.index_of() == j,
        Err(f) => r is Err && after.index_of() == f.at && after.faults(r->Err_0, f.message),
    }
}

impl Lexer {
    /// The next token that does not end a line.
    fn peek_ref(&self) -> (r: Option<&Token>)
        ensures
            match r {
                Some(t) => peeked(self.tokens_of(), self.index_of()) == Some(*t),
                None => peeked(self.tokens_of(), self.index_of()) is None,
            },
    {
        let j = self.skipped();
        if j < self.tokens.len() {
            Some(&self.tokens[j])
        } else {
            None
        }
    }

    /// Reads on behind the next token that does not end a line.
    fn bump(&mut self)
        ensures
            same_source(*old(self), *final(self)),
            final(self).index_of() == advanced(old(self).tokens_of(), old(self).index_of()),
    {
        let j = self.skipped();
        if j < self.tokens.len() {
            self.index = j + 1;
        } else {
            self.index = j;
        }
    }

    /// Reads the token `wanted`; it is a syntax error with `message` where
    /// another token, or none, is next.
    fn expect(&mut self, wanted: &Tokens, message: &str) -> (r: Result<(), LangError>)
        requires
            wanted is Comma || wanted is Rarrow || wanted is Semi || wanted is WavyArrow,
        ensures
            follows(
                *old(self),
                *final(self),
                r,
                expected(old(self).tokens_of(), old(self).index_of(), *wanted, message@),
            ),
    {
        let found = match self.peek_ref() {
            Some(t) => match (t.data(), wanted) {
                (Tokens::Comma, Tokens::Comma) => true,
                (Tokens::Rarrow, Tokens::Rarrow) => true,
                (Tokens::Semi, Tokens::Semi) => true,
                (Tokens::WavyArrow, Tokens::WavyArrow) => true,
                _ => false,
            },
            None => false,
        };
        if found {
            self.bump();
            Ok(())
        } else {
            Err(self.throw_error(LangErrorT::SyntaxError, message))
        }
    }

    /// Reads the name of a type.
    fn parse_type(&mut self) -> (r: Result<Type, LangError>)
        ensures
            follows(
                *old(self),
                *final(self),
                r,
                parsed_type(old(self).tokens_of(), old(self).index_of()),
            ),
            r matches Ok(ty) ==> ty == parsed_type(
                old(self).tokens_of(),
                old(self).index_of(),
            )->Ok_0.0,
    {
        let named = match self.peek_ref() {
            Some(t) => match t.data() {
                Tokens::Type(name) => {
                    if name.len() > 0 {
                        let bare = crate::chars::slice_chars(name, 1, name.len());
                        match Type::from_chars(&bare) {
                            Ok(ty) => Named::Type(ty),
                            Err(_) => Named::Unknown,
                        }
                    } else {
                        Named::Unknown
                    }
                },
                _ => Named::Other,
            },
            None => Named::End,
        };
        self.bump();
        match named {
            Named::Type(ty) => Ok(ty),
            Named::Unknown => Err(self.throw_error(LangErrorT::SyntaxError, "Not a valid type")),
            Named::Other => Err(self.throw_error(LangErrorT::SyntaxError, "Expected type")),
            Named::End => Err(
                self.throw_error(LangErrorT::SyntaxError, "Unexpected end of input"),
            ),
        }
    }

    /// Reads an expression.
    pub fn parse_expr(&mut self) -> (r: Result<Expr, LangError>)
        ensures
            follows(
                *old(self),
                *final(self),
                r,
                parsed_expr(old(self).tokens_of(), old(self).index_of()),
            ),
            r matches Ok(e) ==> e.model() == parsed_expr(
                old(self).tokens_of(),
                old(self).index_of(),
            )->Ok_0.0,
        decreases remaining(old(self).tokens_of(), old(self).index_of()), 2nat,
    {
        let ghost tokens = self.tokens_of();
        let ghost i = self.index_of();
        proof {
            lemma_skip(tokens, i);
        }
        let unary = match self.peek_ref() {
            Some(t) => match t.data() {
                Tokens::Minus => Some(UnaryOperator::Neg),
                Tokens::Exclamation => Some(UnaryOperator::Not),
                _ => None,
            },
            None => None,
        };
        if unary.is_some() {
            self.bump();
        }
        let ghost i1 = self.index_of();
        let (first, ends) = match self.parse_first() {
            Ok(found) => found,
            Err(e) => {
                return Err(e);
            },
        };
        if ends {
            return Ok(first);
        }
        proof {
            lemma_first_progress(tokens, i1);
        }
        let left = match unary {
            Some(op) => Expr::UnaryOp(op, Box::new(first)),
            None => first,
        };
        self.parse_tail(left)
    }

    /// Reads the first part of an expression, and says whether the
    /// expression ends with it.
    fn parse_first(&mut self) -> (r: Result<(Expr, bool), LangError>)
        ensures
            follows(
                *old(self),
                *final(self),
                r,
                parsed_first(old(self).tokens_of(), old(self).index_of()),
            ),
            r matches Ok(found) ==> (found.0.model(), found.1) == parsed_first(
                old(self).tokens_of(),
                old(self).index_of(),
            )->Ok_0.0,
        decreases remaining(old(self).tokens_of(), old(self).index_of()), 1nat,
    {
        let ghost tokens = self.tokens_of();
        let ghost i = self.index_of();
        proof {
            lemma_skip(tokens, i);
        }
        let lead = match self.peek_ref() {
            Some(t) => match t.data() {
                Tokens::Number(digits) => Lead::Simple(Expr::Number(Number::parse(digits))),
                Tokens::False => Lead::Simple(Expr::Bool(false)),
                Tokens::True => Lead::Simple(Expr::Bool(true)),
                Tokens::StringLiteral(text, flag) => Lead::Simple(
                    Expr::String(strip_quotes(text), *flag),
                ),
                Tokens::Ident(name) => Lead::Simple(Expr::Ident(copy_chars(name))),
                Tokens::Underscore => Lead::Simple(Expr::Any),
                Tokens::Lbracket => Lead::Bracket,
                Tokens::Lparen => Lead::Paren,
                _ => Lead::Other,
            },
            None => Lead::End,
        };
        self.bump();
        match lead {
            Lead::End => Err(
                self.throw_error(LangErrorT::SyntaxError, "Unexpected end of input"),
            ),
            Lead::Other => Err(self.throw_error(LangErrorT::SyntaxError, "Unexpected token")),
            Lead::Simple(e) => Ok((e, false)),
            Lead::Bracket => self.parse_array(),
            Lead::Paren => self.parse_tuple(),
        }
    }

    /// Reads an array behind its `[`.
    fn parse_array(&mut self) -> (r: Result<(Expr, bool), LangError>)
        ensures
            follows(
                *old(self),
                *final(self),
                r,
                parsed_array(old(self).tokens_of(), old(self).index_of()),
            ),
            r matches Ok(found) ==> (found.0.model(), found.1) == parsed_array(
                old(self).tokens_of(),
                old(self).index_of(),
            )->Ok_0.0,
        decreases remaining(old(self).tokens_of(), old(self).index_of()), 4nat,
    {
        let closes = match self.peek_ref() {
            Some(t) => matches!(t.data(), Tokens::Rbracket),
            None => false,
        };
        let none: Vec<Expr> = Vec::new();
        proof {
            assert(expr_views(none@) =~= Seq::<ExprModel>::empty());
        }
        if closes {
            self.bump();
            return Ok((Expr::Array(none), true));
        }
        match self.parse_items(true, none) {
            Ok(items) => Ok((Expr::Array(items), false)),
            Err(e) => Err(e),
        }
    }

    /// Reads what stands behind `(`.
    fn parse_tuple(&mut self) -> (r: Result<(Expr, bool), LangError>)
        ensures
            follows(
                *old(self),
                *final(self),
                r,
                parsed_tuple(old(self).tokens_of(), old(self).index_of()),
            ),
            r matches Ok(found) ==> (found.0.model(), found.1) == parsed_tuple(
                old(self).tokens_of(),
                old(self).index_of(),
            )->Ok_0.0,
        decreases remaining(old(self).tokens_of(), old(self).index_of()), 4nat,
    {
        let ghost tokens = self.tokens_of();
        let ghost i = self.index_of();
        let inner = match self.parse_expr() {
            Ok(e) => e,
            Err(e) => {
                return Err(e);
            },
        };
        proof {
            lemma_progress(tokens, i);
            lemma_skip(tokens, self.index_of());
        }
        let closes = match self.peek_ref() {
            Some(t) => matches!(t.data(), Tokens::Rparen),
            None => false,
        };
        if closes {
            self.bump();
            return Ok((inner, true));
        }
        match self.expect(&Tokens::Comma, "Expected Comma") {
            Ok(_) => {},
            Err(e) => {
                return Err(e);
            },
        }
        let mut found: Vec<Expr> = Vec::new();
        let ghost model = inner.model();
        found.push(inner);
        proof {
            assert(expr_views(found@) =~= seq![model]);
        }
        match self.parse_items(false, found) {
            Ok(items) => Ok((Expr::Tuple(items), false)),
            Err(e) => Err(e),
        }
    }

    /// Reads what follows the first part `left` of an expression.
    fn parse_tail(&mut self, left: Expr) -> (r: Result<Expr, LangError>)
        ensures
            follows(
                *old(self),
                *final(self),
                r,
                parsed_tail(old(self).tokens_of(), old(self).index_of(), left.model()),
            ),
            r matches Ok(e) ==> e.model() == parsed_tail(old(self).tokens_of(), old(self).index_of(), left.model())->Ok_0.0,
        decreases remaining(old(self).tokens_of(), old(self).index_of()), 0nat,
    {
        let ghost tokens = self.tokens_of();
        let ghost j = self.index_of();
        proof {
            lemma_skip(tokens, j);
        }
        let follow = match self.peek_ref() {
            Some(t) => match t.data() {
                Tokens::Minus => Follow::Operator(Operator::Sub),
                Tokens::Plus => Follow::Operator(Operator::Add),
                Tokens::Star => Follow::Operator(Operator::Mul),
                Tokens::Fslash => Follow::Operator(Operator::Div),
                Tokens::DoubleColon => Follow::Cast,
                _ => Follow::Nothing,
            },
            None => Follow::Nothing,
        };
        match follow {
            Follow::Operator(op) => {
                self.bump();
                match self.parse_expr() {
                    Ok(right) => Ok(Expr::Operator(op, Box::new(left), Box::new(right))),
                    Err(e) => Err(e),
                }
            },
            Follow::Cast => {
                self.bump();
                self.parse_cast(left)
            },
            Follow::Nothing => Ok(left),
        }
    }

    /// Reads a cast of `left` behind its `::`.
    fn parse_cast(&mut self, left: Expr) -> (r: Result<Expr, LangError>)
        ensures
            follows(
                *old(self),
                *final(self),
                r,
                parsed_cast(old(self).tokens_of(), old(self).index_of(), left.model()),
            ),
            r matches Ok(e) ==> e.model() == parsed_cast(old(self).tokens_of(), old(self).index_of(), left.model())->Ok_0.0,
    {
        let from = match self.parse_type() {
            Ok(ty) => ty,
            Err(e) => {
                return Err(e);
            },
        };
        match self.expect(&Tokens::WavyArrow, "Expected WavyArrow") {
            Ok(_) => {},
            Err(e) => {
                return Err(e);
            },
        }
        match self.parse_type() {
            Ok(to) => Ok(Expr::Cast(Box::new(left), to, from)),
            Err(e) => Err(e),
        }
    }

    /// Reads the items of an array (`bracket`) or a tuple behind `found`.
    fn parse_items(&mut self, bracket: bool, found: Vec<Expr>) -> (r: Result<Vec<Expr>, LangError>)
        ensures
            follows(
                *old(self),
                *final(self),
                r,
                parsed_items(
                    old(self).tokens_of(),
                    old(self).index_of(),
                    bracket,
                    expr_views(found@),
                ),
            ),
            r matches Ok(items) ==> expr_views(items@) == parsed_items(
                old(self).tokens_of(),
                old(self).index_of(),
                bracket,
                expr_views(found@),
            )->Ok_0.0,
        decreases remaining(old(self).tokens_of(), old(self).index_of()), 3nat,
    {
        let ghost tokens = self.tokens_of();
        let ghost i = self.index_of();
        let item = match self.parse_expr() {
            Ok(e) => e,
            Err(e) => {
                return Err(e);
            },
        };
        proof {
            lemma_progress(tokens, i);
            lemma_skip(tokens, self.index_of());
        }
        let mut found = found;
        let ghost before = found@;
        let ghost model = item.model();
        found.push(item);
        proof {
            lemma_expr_views(before);
            lemma_expr_views(found@);
            assert(expr_views(found@) =~= expr_views(before).push(model));
        }
        let next = match self.peek_ref() {
            Some(t) => match t.data() {
                Tokens::Comma => Next::Comma,
                Tokens::Rbracket => Next::Bracket,
                Tokens::Rparen => Next::Paren,
                _ => Next::Other,
            },
            None => Next::End,
        };
        self.bump();
        let closed = match next {
            Next::Comma => {
                return self.parse_items(bracket, found);
            },
            Next::End => {
                return Err(
                    self.throw_error(LangErrorT::SyntaxError, "Unexpected end of input"),
                );
            },
            Next::Bracket => bracket,
            Next::Paren => !bracket,
            Next::Other => false,
        };
        if closed {
            Ok(found)
        } else if bracket {
            Err(self.throw_error(LangErrorT::SyntaxError, "Expected tokens `]` or `,`"))
        } else {
            Err(self.throw_error(LangErrorT::SyntaxError, "Expected tokens `)` or `,`"))
        }
    }
    /// Reads one rule: a pattern, `->` and a constructor.
    pub fn parse_transform(&mut self) -> (r: Result<Transformation, LangError>)
        ensures
            follows(
                *old(self),
                *final(self),
                r,
                parsed_rule(old(self).tokens_of(), old(self).index_of()),
            ),
            r matches Ok(rule) ==> rule.model() == parsed_rule(
                old(self).tokens_of(),
                old(self).index_of(),
            )->Ok_0.0,
    {
        let destruct = match self.parse_expr() {
            Ok(e) => e,
            Err(e) => {
                return Err(e);
            },
        };
        match self.expect(&Tokens::Rarrow, "Expected Rarrow") {
            Ok(_) => {},
            Err(e) => {
                return Err(e);
            },
        }
        match self.parse_expr() {
            Ok(construct) => Ok(Transformation::Forced { destruct, construct }),
            Err(e) => Err(e),
        }
    }

    /// Reads rules, each with `;` behind it, until no token is left: one
    /// rule at least.
    pub fn parse_transforms(&mut self) -> (r: Result<Vec<Transformation>, LangError>)
        ensures
            follows(
                *old(self),
                *final(self),
                r,
                parsed_rules(old(self).tokens_of(), old(self).index_of(), Seq::empty()),
            ),
            r matches Ok(rules) ==> rule_views(rules@) == parsed_rules(
                old(self).tokens_of(),
                old(self).index_of(),
                Seq::empty(),
            )->Ok_0.0,
    {
        let ghost tokens = self.tokens_of();
        let ghost start = self.index_of();
        let mut transformations: Vec<Transformation> = Vec::new();
        proof {
            assert(rule_views(transformations@) =~= Seq::<RuleModel>::empty());
        }
        loop
            invariant
                same_source(*old(self), *self),
                tokens == old(self).tokens_of(),
                start == old(self).index_of(),
                parsed_rules(tokens, self.index_of(), rule_views(transformations@))
                    == parsed_rules(tokens, start, Seq::empty()),
            decreases remaining(tokens, self.index_of()),
        {
            let ghost i = self.index_of();
            let rule = match self.parse_transform() {
                Ok(rule) => rule,
                Err(e) => {
                    return Err(e);
                },
            };
            proof {
                lemma_rule_progress(tokens, i);
                lemma_skip(tokens, self.index_of());
            }
            let ghost before = transformations@;
            let ghost model = rule.model();
            transformations.push(rule);
            proof {
                assert(rule_views(transformations@) =~= rule_views(before).push(model));
            }
            match self.expect(&Tokens::Semi, "Expected Semi") {
                Ok(_) => {},
                Err(e) => {
                    return Err(e);
                },
            }
            if self.peek_ref().is_none() {
                return Ok(transformations);
            }
        }
    }

    /// Reads a program: its rules are those of the function `main`.
    pub fn parse(&mut self) -> (r: Result<TopLevel, LangError>)
        ensures
            follows(
                *old(self),
                *final(self),
                r,
                parsed_program(old(self).tokens_of(), old(self).index_of()),
            ),
            r matches Ok(top) ==> top.functions@.dom() == set![seq!['m', 'a', 'i', 'n']]
                && rule_views(top.functions@[seq!['m', 'a', 'i', 'n']]) == parsed_program(
                old(self).tokens_of(),
                old(self).index_of(),
            )->Ok_0.0,
    {
        let mut transformations: Vec<Transformation> = Vec::new();
        proof {
            assert(rule_views(transformations@) =~= Seq::<RuleModel>::empty());
        }
        if self.peek_ref().is_some() {
            transformations = match self.parse_transforms() {
                Ok(rules) => rules,
                Err(e) => {
                    return Err(e);
                },
            };
        }
        let mut name: Vec<char> = Vec::new();
        name.push('m');
        name.push('a');
        name.push('i');
        name.push('n');
        assert(name@ =~= seq!['m', 'a', 'i', 'n']);
        let mut functions = Functions::new();
        functions.insert(name, transformations);
        assert(functions@.dom() =~= set![seq!['m', 'a', 'i', 'n']]);
        Ok(TopLevel { functions })
    }
}

/// Reading a rule reads at least one token, and none beyond the last.
pub proof fn lemma_rule_progress(tokens: Seq<Token>, i: nat)
    ensures
        parsed_rule(tokens, i) matches Ok((_, j)) ==> i < j <= tokens.len(),
{
    lemma_progress(tokens, i);
    if let Ok((destruct, j)) = parsed_expr(tokens, i) {
        lemma_skip(tokens, j);
        if let Ok((_, j1)) = expected(tokens, j, Tokens::Rarrow, "Expected Rarrow"@) {
            lemma_progress(tokens, j1);
        }
    }
}

} // verus!