//! The evaluator: expressions constructed and matched, and functions run
//! forward and in reverse.
use crate::ast::{Expr, Functions, Operator, TopLevel, UnaryOperator};
use crate::chars::copy_chars;
use crate::destruct_algebra::{
    add_left_destruct, add_right_destruct, div_left_destruct, div_right_destruct,
    mul_left_destruct, mul_right_destruct, sub_left_destruct, sub_right_destruct,
};
use crate::engine::{reverse_run_func, run_func};
use crate::error::RuntimeError;
use crate::semantics;
use crate::value::{lemma_views, outcome, views, Val, Value};
use crate::variables::{Env, Variables};
use vstd::prelude::*;

verus! {

/// How many nested function calls [`interpret`] lets a program enter: as
/// many as can be counted.
pub const MAX_CALL_DEPTH: usize = usize::MAX;

/// What the outcome of a match stands for.
pub open spec fn found(r: Result<Option<Value>, RuntimeError>) -> Result<
    Option<Val>,
    RuntimeError,
> {
    match r {
        Ok(Some(v)) => Ok(Some(v@)),
        Ok(None) => Ok(None),
        Err(e) => Err(e),
    }
}

/// What the outcome of constructing a sequence stands for.
pub open spec fn outcomes(r: Result<Vec<Value>, RuntimeError>) -> Result<Seq<Val>, RuntimeError> {
    match r {
        Ok(vs) => Ok(views(vs@)),
        Err(e) => Err(e),
    }
}

/// What the outcome of matching a sequence stands for.
pub open spec fn founds(r: Result<Option<Vec<Value>>, RuntimeError>) -> Result<
    Option<Seq<Val>>,
    RuntimeError,
> {
    match r {
        Ok(Some(vs)) => Ok(Some(views(vs@))),
        Ok(None) => Ok(None),
        Err(e) => Err(e),
    }
}

/// Once an item fails to construct, the failure is that of the sequence.
proof fn lemma_construct_items_stops(
    items: Seq<Expr>,
    i: nat,
    n: nat,
    env: Env,
    fns: semantics::Program,
    depth: nat,
)
    requires
        0 < i <= n <= items.len(),
        semantics::construct_items(items, i, env, fns, depth).0 is Err,
    ensures
        semantics::construct_items(items, n, env, fns, depth) == semantics::construct_items(
            items,
            i,
            env,
            fns,
            depth,
        ),
    decreases n,
{
    if i < n {
        lemma_construct_items_stops(items, i, (n - 1) as nat, env, fns, depth);
    }
}

/// Once an item fails to match, the failure is that of the sequence.
proof fn lemma_destruct_items_stops(
    items: Seq<Expr>,
    targets: Seq<Val>,
    i: nat,
    n: nat,
    env: Env,
    fns: semantics::Program,
    depth: nat,
)
    requires
        0 < i <= n <= items.len(),
        semantics::destruct_items(items, targets, i, env, fns, depth).0 is Err,
    ensures
        semantics::destruct_items(items, targets, n, env, fns, depth)
            == semantics::destruct_items(items, targets, i, env, fns, depth),
    decreases n,
{
    if i < n {
        lemma_destruct_items_stops(items, targets, i, (n - 1) as nat, env, fns, depth);
    }
}

/// Constructs `items` in order.
pub fn construct_items(
    items: &Vec<Expr>,
    variables: &mut Variables,
    functions: &Functions,
    depth: usize,
) -> (r: Result<Vec<Value>, RuntimeError>)
    ensures
        (outcomes(r), final(variables)@) == semantics::construct_items(
            items@,
            items@.len(),
            old(variables)@,
            semantics::program(functions@),
            depth as nat,
        ),
    decreases 3 * depth + 1, items@, 0nat, 0nat,
{
    let mut out: Vec<Value> = Vec::new();
    let mut i: usize = 0;
    assert(views(out@) =~= Seq::<Val>::empty());
    while i < items.len()
        invariant
            i <= items.len(),
            (Ok::<Seq<Val>, RuntimeError>(views(out@)), variables@) == semantics::construct_items(
                items@,
                i as nat,
                old(variables)@,
                semantics::program(functions@),
                depth as nat,
            ),
        decreases items.len() - i,
    {
        let ghost before = out@;
        match items[i].construct(variables, functions, depth) {
            Ok(v) => {
                out.push(v);
                assert(views(out@) =~= views(before).push(v@));
            },
            Err(e) => {
                proof {
                    lemma_construct_items_stops(
                        items@,
                        (i + 1) as nat,
                        items@.len(),
                        old(variables)@,
                        semantics::program(functions@),
                        depth as nat,
                    );
                }
                return Err(e);
            },
        }
        i = i + 1;
    }
    Ok(out)
}

/// Matches `targets` against `items` in order.
pub fn destruct_items(
    items: &Vec<Expr>,
    targets: &Vec<Value>,
    variables: &mut Variables,
    functions: &Functions,
    depth: usize,
) -> (r: Result<Option<Vec<Value>>, RuntimeError>)
    requires
        items.len() == targets.len(),
    ensures
        (founds(r), final(variables)@) == semantics::destruct_items(
            items@,
            views(targets@),
            items@.len(),
            old(variables)@,
            semantics::program(functions@),
            depth as nat,
        ),
    decreases 3 * depth + 1, items@, 0nat, 0nat,
{
    let mut out: Option<Vec<Value>> = Some(Vec::new());
    let mut i: usize = 0;
    assert(views(out->0@) =~= Seq::<Val>::empty());
    while i < items.len()
        invariant
            i <= items.len(),
            items.len() == targets.len(),
            (founds(Ok(out)), variables@) == semantics::destruct_items(
                items@,
                views(targets@),
                i as nat,
                old(variables)@,
                semantics::program(functions@),
                depth as nat,
            ),
        decreases items.len() - i,
    {
        match items[i].destruct(&targets[i], variables, functions, depth) {
            Ok(v) => {
                out = match (out, v) {
                    (Some(mut vs), Some(x)) => {
                        let ghost before = vs@;
                        vs.push(x);
                        assert(views(vs@) =~= views(before).push(x@));
                        Some(vs)
                    },
                    _ => None,
                };
            },
            Err(e) => {
                proof {
                    lemma_destruct_items_stops(
                        items@,
                        views(targets@),
                        (i + 1) as nat,
                        items@.len(),
                        old(variables)@,
                        semantics::program(functions@),
                        depth as nat,
                    );
                }
                return Err(e);
            },
        }
        i = i + 1;
    }
    Ok(out)
}

/// What an operator makes of two values.
pub fn apply_operator(op: &Operator, a: &Value, b: &Value) -> (r: Result<Value, RuntimeError>)
    ensures
        outcome(r) == semantics::apply_operator(false, *op, a@, b@),
{
    match op {
        Operator::Add => a.add(b),
        Operator::Sub => a.sub(b),
        Operator::Div => a.div(b),
        Operator::And => a.and(b),
        Operator::Or => a.or(b),
        Operator::Mul => a.mul(b),
    }
}

/// What a unary operator makes of a value.
pub fn apply_unary(op: &UnaryOperator, v: &Value) -> (r: Result<Value, RuntimeError>)
    ensures
        outcome(r) == semantics::apply_unary(*op, v@),
{
    match (op, v) {
        (UnaryOperator::Neg, Value::Number(n)) => Ok(Value::Number(n.neg())),
        (UnaryOperator::Not, Value::Bool(b)) => Ok(Value::Bool(!*b)),
        _ => Err(RuntimeError::ValueErrorT),
    }
}

/// `left * right`, where `right` has been constructed. Where `right` is a
/// number: the product where `left` makes a number, else `left` constructed
/// as often as `right` says and the results added up. Where `right` is no
/// number: what `left` makes, times `right`.
pub fn repeat(
    left: &Expr,
    right: &Value,
    variables: &mut Variables,
    functions: &Functions,
    depth: usize,
) -> (r: Result<Value, RuntimeError>)
    ensures
        (outcome(r), final(variables)@) == semantics::repeat(
            *left,
            right@,
            old(variables)@,
            semantics::program(functions@),
            depth as nat,
        ),
    decreases 3 * depth + 1, left, 3nat, 0nat,
{
    let first = match left.construct(variables, functions, depth) {
        Ok(v) => v,
        Err(e) => {
            return Err(e);
        },
    };
    let factor = match right {
        Value::Number(n) => *n,
        _ => {
            return first.mul(right);
        },
    };
    if let Value::Number(n) = &first {
        return Ok(Value::Number(n.mul(&factor)));
    }
    let times = match factor.count() {
        Some(times) => times,
        None => {
            return Err(RuntimeError::ValueErrorT);
        },
    };
    if times == 0 {
        return match first {
            Value::String(_) => Ok(Value::String(Vec::new())),
            Value::Array(_) => {
                let none: Vec<Value> = Vec::new();
                assert(views(none@) =~= Seq::<Val>::empty());
                Ok(Value::Array(none))
            },
            _ => Err(RuntimeError::ValueErrorT),
        };
    }
    let ghost env1 = variables@;
    let ghost start = first@;
    let mut sum = first;
    let mut left_over: usize = times - 1;
    while left_over > 0
        invariant
            semantics::repeat(*left, right@, old(variables)@, semantics::program(functions@), depth as nat)
                == semantics::repeat_more(
                *left,
                start,
                (times - 1) as nat,
                env1,
                semantics::program(functions@),
                depth as nat,
            ),
            semantics::repeat_more(
                *left,
                sum@,
                left_over as nat,
                variables@,
                semantics::program(functions@),
                depth as nat,
            ) == semantics::repeat_more(
                *left,
                start,
                (times - 1) as nat,
                env1,
                semantics::program(functions@),
                depth as nat,
            ),
        decreases left_over,
    {
        let v = match left.construct(variables, functions, depth) {
            Ok(v) => v,
            Err(e) => {
                return Err(e);
            },
        };
        sum = match sum.add(&v) {
            Ok(more) => more,
            Err(e) => {
                return Err(e);
            },
        };
        left_over = left_over - 1;
    }
    Ok(sum)
}

/// Matches `value` against an operator with two operands: see
/// [`semantics::destruct_operator`].
pub fn destruct_operator(
    e: &Expr,
    value: &Value,
    variables: &mut Variables,
    functions: &Functions,
    depth: usize,
) -> (r: Result<Option<Value>, RuntimeError>)
    ensures
        (found(r), final(variables)@) == semantics::destruct_operator(
            *e,
            value@,
            old(variables)@,
            semantics::program(functions@),
            depth as nat,
        ),
    decreases 3 * depth + 1, e, 0nat, 0nat,
{
    match e {
        Expr::Operator(op, left, right) => {
            let mut none_left = Variables::new();
            let known_left = left.construct(&mut none_left, functions, depth);
            let mut none_right = Variables::new();
            let known_right = right.construct(&mut none_right, functions, depth);
            match (known_left, known_right) {
                (Ok(a), Ok(b)) => {
                    match left.destruct(&a, variables, functions, depth) {
                        Ok(_) => {},
                        Err(e) => {
                            return Err(e);
                        },
                    }
                    match right.destruct(&b, variables, functions, depth) {
                        Ok(_) => {},
                        Err(e) => {
                            return Err(e);
                        },
                    }
                    let made = match op {
                        Operator::Mul => repeat(left, &b, variables, functions, depth),
                        _ => apply_operator(op, &a, &b),
                    };
                    match made {
                        Ok(res) => {
                            if res.same(value) {
                                Ok(Some(res))
                            } else {
                                Err(RuntimeError::PatternMismatchT)
                            }
                        },
                        Err(e) => Err(e),
                    }
                },
                (Ok(a), Err(_)) => {
                    let solved = match op {
                        Operator::Add => add_left_destruct(
                            &a,
                            right,
                            value,
                            variables,
                            functions,
                            depth,
                        ),
                        Operator::Sub => sub_left_destruct(
                            &a,
                            right,
                            value,
                            variables,
                            functions,
                            depth,
                        ),
                        Operator::Mul => mul_left_destruct(
                            &a,
                            right,
                            value,
                            variables,
                            functions,
                            depth,
                        ),
                        Operator::Div => div_left_destruct(
                            &a,
                            right,
                            value,
                            variables,
                            functions,
                            depth,
                        ),
                        Operator::And => Err(RuntimeError::ValueErrorT),
                        Operator::Or => Err(RuntimeError::ValueErrorT),
                    };
                    match solved {
                        Ok(_) => Ok(None),
                        Err(e) => Err(e),
                    }
                },
                (Err(_), Ok(b)) => {
                    let solved = match op {
                        Operator::Add => add_right_destruct(
                            &b,
                            left,
                            value,
                            variables,
                            functions,
                            depth,
                        ),
                        Operator::Sub => sub_right_destruct(
                            &b,
                            left,
                            value,
                            variables,
                            functions,
                            depth,
                        ),
                        Operator::Mul => mul_right_destruct(
                            &b,
                            left,
                            value,
                            variables,
                            functions,
                            depth,
                        ),
                        Operator::Div => div_right_destruct(
                            &b,
                            left,
                            value,
                            variables,
                            functions,
                            depth,
                        ),
                        Operator::And => Err(RuntimeError::ValueErrorT),
                        Operator::Or => Err(RuntimeError::ValueErrorT),
                    };
                    match solved {
                        Ok(_) => Ok(None),
                        Err(e) => Err(e),
                    }
                },
                _ => Err(RuntimeError::ValueErrorT),
            }
        },
        _ => Err(RuntimeError::ValueErrorT),
    }
}

/// Runs the function `main` of a program on `input`, letting it enter
/// [`MAX_CALL_DEPTH`] nested calls.
pub fn interpret(top_level: TopLevel, input: Value) -> (r: Result<Value, RuntimeError>)
    ensures
        outcome(r) == semantics::run(
            seq!['m', 'a', 'i', 'n'],
            input@,
            semantics::program(top_level.functions@),
            MAX_CALL_DEPTH as nat,
        ),
{
    let mut name: Vec<char> = Vec::new();
    name.push('m');
    name.push('a');
    name.push('i');
    name.push('n');
    assert(name@ =~= seq!['m', 'a', 'i', 'n']);
    run_func(&name, input, &top_level.functions, MAX_CALL_DEPTH)
}

impl Expr {
    /// Evaluates the expression as a constructor: it makes a value from the
    /// bindings, and takes from each poly-identifier the oldest value that
    /// it holds.
    pub fn construct(&self, variables: &mut Variables, functions: &Functions, depth: usize) -> (r:
        Result<Value, RuntimeError>)
        ensures
            (outcome(r), final(variables)@) == semantics::construct(
                *self,
                old(variables)@,
                semantics::program(functions@),
                depth as nat,
            ),
        decreases 3 * depth + 1, self, 1nat, 0nat,
    {
        match self {
            Expr::Number(n) => Ok(Value::Number(*n)),
            Expr::String(s, _) => Ok(Value::String(copy_chars(s))),
            Expr::Array(arr) => match construct_items(arr, variables, functions, depth) {
                Ok(vs) => Ok(Value::Array(vs)),
                Err(e) => Err(e),
            },
            Expr::Tuple(t) => match construct_items(t, variables, functions, depth) {
                Ok(vs) => Ok(Value::Tuple(vs)),
                Err(e) => Err(e),
            },
            Expr::Ident(i) => match variables.get(i) {
                Some(v) => Ok(v.duplicate()),
                None => Err(RuntimeError::ValueErrorT),
            },
            Expr::PolyIdent(i) => match variables.take_polyident(i) {
                Ok(Some(v)) => Ok(v),
                Ok(None) => Err(RuntimeError::ValueErrorT),
                Err(e) => Err(e),
            },
            Expr::Operator(op, a, b) => {
                match op {
                    Operator::Mul => {
                        let vb = match b.construct(variables, functions, depth) {
                            Ok(v) => v,
                            Err(e) => {
                                return Err(e);
                            },
                        };
                        repeat(a, &vb, variables, functions, depth)
                    },
                    _ => {
                        let va = match a.construct(variables, functions, depth) {
                            Ok(v) => v,
                            Err(e) => {
                                return Err(e);
                            },
                        };
                        let vb = match b.construct(variables, functions, depth) {
                            Ok(v) => v,
                            Err(e) => {
                                return Err(e);
                            },
                        };
                        apply_operator(op, &va, &vb)
                    },
                }
            },
            Expr::Cast(exp, to, from) => match exp.construct(variables, functions, depth) {
                Ok(v) => v.cast(to, from),
                Err(e) => Err(e),
            },
            Expr::Bool(b) => Ok(Value::Bool(*b)),
            Expr::UnaryOp(op, val) => match val.construct(variables, functions, depth) {
                Ok(v) => apply_unary(op, &v),
                Err(e) => Err(e),
            },
            Expr::Any => Err(RuntimeError::ValueErrorT),
            Expr::Call(f, a) => match a.construct(variables, functions, depth) {
                Ok(v) => if depth == 0 {
                    Err(RuntimeError::ValueErrorT)
                } else {
                    run_func(f, v, functions, depth - 1)
                },
                Err(e) => Err(e),
            },
        }
    }

    /// Matches `value` against the expression as a pattern: identifiers are
    /// bound, poly-identifiers capture, and what is known is compared. On
    /// success this gives the value that the pattern stands for, where it
    /// stands for one without the bindings.
    pub fn destruct(
        &self,
        value: &Value,
        variables: &mut Variables,
        functions: &Functions,
        depth: usize,
    ) -> (r: Result<Option<Value>, RuntimeError>)
        ensures
            (found(r), final(variables)@) == semantics::destruct(
                *self,
                value@,
                old(variables)@,
                semantics::program(functions@),
                depth as nat,
            ),
        decreases 3 * depth + 1, self, 1nat, 0nat,
    {
        match self {
            Expr::Number(n) => {
                if value.same(&Value::Number(*n)) {
                    Ok(Some(Value::Number(*n)))
                } else {
                    Err(RuntimeError::PatternMismatchT)
                }
            },
            Expr::Bool(b) => {
                if value.same(&Value::Bool(*b)) {
                    Ok(Some(Value::Bool(*b)))
                } else {
                    Err(RuntimeError::PatternMismatchT)
                }
            },
            Expr::String(s, _) => {
                let literal = Value::String(copy_chars(s));
                if value.same(&literal) {
                    Ok(Some(literal))
                } else {
                    Err(RuntimeError::PatternMismatchT)
                }
            },
            Expr::Array(arr) => {
                if let Value::Array(arr2) = value {
                    proof {
                        lemma_views(arr2@);
                    }
                    if arr.len() != arr2.len() {
                        return Err(RuntimeError::PatternMismatchT);
                    }
                    match destruct_items(arr, arr2, variables, functions, depth) {
                        Ok(Some(vs)) => Ok(Some(Value::Array(vs))),
                        Ok(None) => Ok(None),
                        Err(e) => Err(e),
                    }
                } else {
                    Err(RuntimeError::PatternMismatchT)
                }
            },
            Expr::Tuple(t) => {
                if let Value::Tuple(t2) = value {
                    proof {
                        lemma_views(t2@);
                    }
                    if t.len() != t2.len() {
                        return Err(RuntimeError::PatternMismatchT);
                    }
                    match destruct_items(t, t2, variables, functions, depth) {
                        Ok(Some(vs)) => Ok(Some(Value::Tuple(vs))),
                        Ok(None) => Ok(None),
                        Err(e) => Err(e),
                    }
                } else {
                    Err(RuntimeError::PatternMismatchT)
                }
            },
            Expr::Ident(i) => match variables.insert(copy_chars(i), value.duplicate()) {
                Ok(_) => Ok(None),
                Err(e) => Err(e),
            },
            Expr::PolyIdent(i) => match variables.insert_polyident(copy_chars(i), value.duplicate()) {
                Ok(_) => Ok(None),
                Err(e) => Err(e),
            },
            Expr::Operator(_, _, _) => destruct_operator(self, value, variables, functions, depth),
            Expr::Cast(exp, to, from) => match value.cast(from, to) {
                Ok(inner) => exp.destruct(&inner, variables, functions, depth),
                Err(e) => Err(e),
            },
            Expr::UnaryOp(op, val) => match apply_unary(op, value) {
                Ok(inner) => val.destruct(&inner, variables, functions, depth),
                Err(e) => Err(e),
            },
            Expr::Any => Ok(None),
            Expr::Call(f, a) => if depth == 0 {
                Err(RuntimeError::ValueErrorT)
            } else {
                match reverse_run_func(f, value.duplicate(), functions, depth - 1) {
                    Ok(inner) => a.destruct(&inner, variables, functions, depth),
                    Err(e) => Err(e),
                }
            },
        }
    }
}

} // verus!
