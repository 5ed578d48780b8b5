//! The syntax tree that the evaluator walks.
use crate::chars::{same_text, spells};
use crate::error::LangErrorT;
use crate::names::NameMap;
use crate::number::{Fraction, Number};
use vstd::prelude::*;
use vstd::string::*;

verus! {

/// The kinds of value, as a cast names them.
#[derive(Debug, Clone, Copy, PartialEq, Eq, Structural)]
pub enum Type {
    String,
    Number,
    Tuple,
    Array,
    Bool,
}

impl Type {
    /// The name of the type, as a program writes it behind `#`.
    pub open spec fn name_of(self) -> Seq<char> {
        match self {
            Type::String => "string"@,
            Type::Number => "number"@,
            Type::Tuple => "tuple"@,
            Type::Array => "array"@,
            Type::Bool => "bool"@,
        }
    }

    /// The type that a name names; a syntax error where it names none.
    pub open spec fn named(s: Seq<char>) -> Result<Type, LangErrorT> {
        if s == "string"@ {
            Ok(Type::String)
        } else if s == "number"@ {
            Ok(Type::Number)
        } else if s == "tuple"@ {
            Ok(Type::Tuple)
        } else if s == "array"@ {
            Ok(Type::Array)
        } else if s == "bool"@ {
            Ok(Type::Bool)
        } else {
            Err(LangErrorT::SyntaxError)
        }
    }

    /// The name of the type.
    pub fn name(&self) -> (r: String)
        ensures
            r@ == self.name_of(),
    {
        match self {
            Type::String => String::from_str("string"),
            Type::Number => String::from_str("number"),
            Type::Tuple => String::from_str("tuple"),
            Type::Array => String::from_str("array"),
            Type::Bool => String::from_str("bool"),
        }
    }

    /// The type that the characters of `s` name; a syntax error where they
    /// name none.
    pub fn from_chars(s: &Vec<char>) -> (r: Result<Type, LangErrorT>)
        ensures
            r == Type::named(s@),
    {
        if spells(s, "string") {
            Ok(Type::String)
        } else if spells(s, "number") {
            Ok(Type::Number)
        } else if spells(s, "tuple") {
            Ok(Type::Tuple)
        } else if spells(s, "array") {
            Ok(Type::Array)
        } else if spells(s, "bool") {
            Ok(Type::Bool)
        } else {
            Err(LangErrorT::SyntaxError)
        }
    }

    /// The type that `s` names; a syntax error where it names none.
    pub fn from_str(s: &str) -> (r: Result<Type, LangErrorT>)
        ensures
            r == Type::named(s@),
    {
        if same_text(s, "string") {
            Ok(Type::String)
        } else if same_text(s, "number") {
            Ok(Type::Number)
        } else if same_text(s, "tuple") {
            Ok(Type::Tuple)
        } else if same_text(s, "array") {
            Ok(Type::Array)
        } else if same_text(s, "bool") {
            Ok(Type::Bool)
        } else {
            Err(LangErrorT::SyntaxError)
        }
    }
}

#[derive(Debug, Clone, Copy, PartialEq, Eq, Structural)]
pub enum StringFlag {
    Format,
}

#[derive(Debug, Clone, Copy, PartialEq, Eq, Structural)]
pub enum Operator {
    Add,
    Sub,
    Mul,
    Div,
    And,
    Or,
}

#[derive(Debug, Clone, Copy, PartialEq, Eq, Structural)]
pub enum UnaryOperator {
    Neg,
    Not,
}

/// An expression. Each one is both a pattern, which takes a value apart, and
/// a constructor, which builds one.
#[derive(Debug)]
pub enum Expr {
    Number(Number),
    String(Vec<char>, Option<StringFlag>),
    Array(Vec<Expr>),
    Tuple(Vec<Expr>),
    Ident(Vec<char>),
    PolyIdent(Vec<char>),
    Operator(Operator, Box<Expr>, Box<Expr>),
    UnaryOp(UnaryOperator, Box<Expr>),
    /// The operand, the type cast to, the type cast from.
    Cast(Box<Expr>, Type, Type),
    Bool(bool),
    Any,
    /// A function's name and its argument.
    Call(Vec<char>, Box<Expr>),
}

/// What an [`Expr`] stands for.
pub enum ExprModel {
    Number(Fraction),
    String(Seq<char>, Option<StringFlag>),
    Array(Seq<ExprModel>),
    Tuple(Seq<ExprModel>),
    Ident(Seq<char>),
    PolyIdent(Seq<char>),
    Operator(Operator, Box<ExprModel>, Box<ExprModel>),
    UnaryOp(UnaryOperator, Box<ExprModel>),
    Cast(Box<ExprModel>, Type, Type),
    Bool(bool),
    Any,
    Call(Seq<char>, Box<ExprModel>),
}

/// What a sequence of expressions stands for, item by item.
pub open spec fn expr_views(items: Seq<Expr>) -> Seq<ExprModel>
    decreases items,
{
    Seq::new(
        items.len(),
        |i: int|
            if 0 <= i < items.len() {
                items[i].model()
            } else {
                ExprModel::Any
            },
    )
}

impl Expr {
    /// What the expression stands for.
    pub open spec fn model(self) -> ExprModel
        decreases self,
    {
        match self {
            Expr::Number(n) => ExprModel::Number(n@),
            Expr::String(s, flag) => ExprModel::String(s@, flag),
            Expr::Array(items) => ExprModel::Array(expr_views(items@)),
            Expr::Tuple(items) => ExprModel::Tuple(expr_views(items@)),
            Expr::Ident(i) => ExprModel::Ident(i@),
            Expr::PolyIdent(i) => ExprModel::PolyIdent(i@),
            Expr::Operator(op, left, right) => ExprModel::Operator(
                op,
                Box::new(left.model()),
                Box::new(right.model()),
            ),
            Expr::UnaryOp(op, operand) => ExprModel::UnaryOp(op, Box::new(operand.model())),
            Expr::Cast(operand, to, from) => ExprModel::Cast(Box::new(operand.model()), to, from),
            Expr::Bool(b) => ExprModel::Bool(b),
            Expr::Any => ExprModel::Any,
            Expr::Call(f, argument) => ExprModel::Call(f@, Box::new(argument.model())),
        }
    }
}

/// What `expr_views` is, item by item.
pub proof fn lemma_expr_views(items: Seq<Expr>)
    ensures
        expr_views(items).len() == items.len(),
        forall|i: int|
            0 <= i < items.len() ==> #[trigger] expr_views(items)[i] == items[i].model(),
{
}

/// One rule of a function.
#[derive(Debug)]
pub enum Transformation {
    Forced { destruct: Expr, construct: Expr },
}

/// What a [`Transformation`] stands for.
pub struct RuleModel {
    pub destruct: ExprModel,
    pub construct: ExprModel,
}

impl Transformation {
    /// What the rule stands for.
    pub open spec fn model(self) -> RuleModel {
        RuleModel { destruct: self->destruct.model(), construct: self->construct.model() }
    }
}

/// What a sequence of rules stands for, rule by rule.
pub open spec fn rule_views(rules: Seq<Transformation>) -> Seq<RuleModel> {
    Seq::new(rules.len(), |i: int| rules[i].model())
}

/// The functions of a program, each an ordered list of rules under its name.
#[derive(Debug)]
pub struct Functions {
    table: NameMap<Vec<Transformation>>,
}

impl View for Functions {
    type V = Map<Seq<char>, Seq<Transformation>>;

    closed spec fn view(&self) -> Map<Seq<char>, Seq<Transformation>> {
        self.table.map().map_values(|rules: Vec<Transformation>| rules@)
    }
}

impl Functions {
    /// A program without functions.
    pub fn new() -> (r: Functions)
        ensures
            r@ == Map::<Seq<char>, Seq<Transformation>>::empty(),
    {
        let r = Functions { table: NameMap::new() };
        assert(r@ =~= Map::<Seq<char>, Seq<Transformation>>::empty());
        r
    }

    /// Defines the function `name`, in place of an earlier one of that name.
    pub fn insert(&mut self, name: Vec<char>, rules: Vec<Transformation>)
        ensures
            final(self)@ == old(self)@.insert(name@, rules@),
    {
        let mut table = NameMap::new();
        core::mem::swap(&mut table, &mut self.table);
        self.table = table.insert(name, rules);
        assert(self@ =~= old(self)@.insert(name@, rules@));
    }

    /// The rules of the function `name`, if it is defined.
    pub fn get(&self, name: &Vec<char>) -> (r: Option<&Vec<Transformation>>)
        ensures
            match r {
                Some(rules) => self@.contains_key(name@) && rules@ == self@[name@],
                None => !self@.contains_key(name@),
            },
    {
        self.table.get(name)
    }
}

/// A parsed program.
#[derive(Debug)]
pub struct TopLevel {
    pub functions: Functions,
}

} // verus!
