//! What evaluation means: each expression as a constructor and as a pattern,
//! the inverse of each operator, and functions run forward and in reverse.
//!
//! Every function here gives the outcome together with the bindings as they
//! stand afterwards, also where the outcome is a failure. `depth` is the
//! number of nested function calls that may still be entered: a call in an
//! expression is a value error where it is 0, and the function called is run
//! with one less.
//!
//! Arithmetic on numbers never fails: it may give an infinity or what is not
//! a number. A program can also be run exactly: then `+`, `-` and `/` on
//! numbers, and their inverses, are a value error wherever an operand is not
//! finite or the result is not the exact one. The interpreter never runs a
//! program exactly; the exact run says of which runs the laws of reversal
//! hold.
use crate::ast::{Expr, Operator, Transformation, UnaryOperator};
use crate::chars::laid;
use crate::error::RuntimeError;
use crate::number::Fraction;
use crate::value::Val;
use crate::variables::Env;
use vstd::prelude::*;

verus! {

/// `front` is how `s` begins.
pub open spec fn starts_with<A>(s: Seq<A>, front: Seq<A>) -> bool {
    front.len() <= s.len() && s.subrange(0, front.len() as int) == front
}

/// `back` is how `s` ends.
pub open spec fn ends_with<A>(s: Seq<A>, back: Seq<A>) -> bool {
    back.len() <= s.len() && s.subrange(s.len() - back.len(), s.len() as int) == back
}

/// `s` is `tile` laid end to end a whole number of times.
pub open spec fn tiled<A>(s: Seq<A>, tile: Seq<A>) -> bool {
    &&& tile.len() > 0
    &&& s.len() % tile.len() == 0
    &&& forall|i: int| 0 <= i < s.len() ==> #[trigger] laid(tile, i) == s[i]
}

/// The whole number `n` as a value; not a number where it does not fit.
pub open spec fn count_value(n: int) -> Result<Val, RuntimeError> {
    Ok(Val::Number(Fraction::of(n, 1)))
}

/// The `x` with `known + x == target`.
pub open spec fn add_left_preimage(known: Val, target: Val) -> Result<Val, RuntimeError> {
    match (known, target) {
        (Val::Number(n1), Val::Number(n2)) => Ok(Val::Number(n2.subtracted(n1))),
        (Val::String(s1), Val::String(s2)) => if starts_with(s2, s1) {
            Ok(Val::String(s2.subrange(s1.len() as int, s2.len() as int)))
        } else {
            Err(RuntimeError::PatternMismatchT)
        },
        (Val::Array(a1), Val::Array(a2)) => if starts_with(a2, a1) {
            Ok(Val::Array(a2.subrange(a1.len() as int, a2.len() as int)))
        } else {
            Err(RuntimeError::PatternMismatchT)
        },
        _ => Err(RuntimeError::ValueErrorT),
    }
}

/// The `x` with `x + known == target`.
pub open spec fn add_right_preimage(known: Val, target: Val) -> Result<Val, RuntimeError> {
    match (known, target) {
        (Val::Number(n1), Val::Number(n2)) => Ok(Val::Number(n2.subtracted(n1))),
        (Val::String(s1), Val::String(s2)) => if ends_with(s2, s1) {
            Ok(Val::String(s2.subrange(0, s2.len() - s1.len())))
        } else {
            Err(RuntimeError::PatternMismatchT)
        },
        (Val::Array(a1), Val::Array(a2)) => if ends_with(a2, a1) {
            Ok(Val::Array(a2.subrange(0, a2.len() - a1.len())))
        } else {
            Err(RuntimeError::PatternMismatchT)
        },
        _ => Err(RuntimeError::ValueErrorT),
    }
}

/// The `x` with `known - x == target`.
pub open spec fn sub_left_preimage(known: Val, target: Val) -> Result<Val, RuntimeError> {
    match (known, target) {
        (Val::Number(n1), Val::Number(n2)) => Ok(Val::Number(n1.subtracted(n2))),
        _ => Err(RuntimeError::ValueErrorT),
    }
}

/// The `x` with `x - known == target`.
pub open spec fn sub_right_preimage(known: Val, target: Val) -> Result<Val, RuntimeError> {
    match (known, target) {
        (Val::Number(n1), Val::Number(n2)) => Ok(Val::Number(n2.added(n1))),
        _ => Err(RuntimeError::ValueErrorT),
    }
}

/// How often `tile` is laid end to end in `s`, as a value.
pub open spec fn repeats<A>(s: Seq<A>, tile: Seq<A>) -> Result<Val, RuntimeError> {
    if tiled(s, tile) {
        count_value(s.len() as int / tile.len() as int)
    } else {
        Err(RuntimeError::PatternMismatchT)
    }
}

/// The `x` with `known * x == target`: a factor for a number, the number of
/// repetitions for a string or an array.
pub open spec fn mul_left_preimage(known: Val, target: Val) -> Result<Val, RuntimeError> {
    match (known, target) {
        (Val::Number(n1), Val::Number(n2)) => Ok(Val::Number(n2.divided(n1))),
        (Val::Array(a1), Val::Array(a2)) => repeats(a2, a1),
        (Val::String(s1), Val::String(s2)) => repeats(s2, s1),
        _ => Err(RuntimeError::ValueErrorT),
    }
}

/// The piece that `s` is `n` repetitions of.
pub open spec fn piece<A>(s: Seq<A>, n: Fraction) -> Result<Seq<A>, RuntimeError> {
    if !n.is_whole() {
        Err(RuntimeError::ValueErrorT)
    } else if n.num <= 0 || n.num > s.len() || s.len() as int % n.num != 0 {
        Err(RuntimeError::PatternMismatchT)
    } else {
        let first = s.subrange(0, s.len() as int / n.num);
        if tiled(s, first) {
            Ok(first)
        } else {
            Err(RuntimeError::PatternMismatchT)
        }
    }
}

/// The `x` with `x * known == target`: a factor for a number, the repeated
/// piece for a string or an array.
pub open spec fn mul_right_preimage(known: Val, target: Val) -> Result<Val, RuntimeError> {
    match (known, target) {
        (Val::Number(n1), Val::Number(n2)) => Ok(Val::Number(n2.divided(n1))),
        (Val::Number(n1), Val::Array(a2)) => match piece(a2, n1) {
            Ok(first) => Ok(Val::Array(first)),
            Err(e) => Err(e),
        },
        (Val::Number(n1), Val::String(s2)) => match piece(s2, n1) {
            Ok(first) => Ok(Val::String(first)),
            Err(e) => Err(e),
        },
        _ => Err(RuntimeError::ValueErrorT),
    }
}

/// The `x` with `known / x == target`.
pub open spec fn div_left_preimage(known: Val, target: Val) -> Result<Val, RuntimeError> {
    match (known, target) {
        (Val::Number(n1), Val::Number(n2)) => Ok(Val::Number(n1.divided(n2))),
        _ => Err(RuntimeError::ValueErrorT),
    }
}

/// The `x` with `x / known == target`.
pub open spec fn div_right_preimage(known: Val, target: Val) -> Result<Val, RuntimeError> {
    match (known, target) {
        (Val::Number(n1), Val::Number(n2)) => Ok(Val::Number(n2.multiplied(n1))),
        _ => Err(RuntimeError::ValueErrorT),
    }
}

/// Whether `op` on the numbers `a` and `b` has no exact result: an operand
/// is not finite, the divisor is 0, or the result does not fit. The logical
/// operators, and operands that are no numbers, have none to miss.
pub open spec fn inexact(op: Operator, a: Val, b: Val) -> bool {
    match (a, b) {
        (Val::Number(p), Val::Number(q)) => match op {
            Operator::Add => p.sum(q) is None,
            Operator::Sub => p.difference(q) is None,
            Operator::Mul => p.product(q) is None,
            Operator::Div => p.quotient(q) is None,
            _ => false,
        },
        _ => false,
    }
}

/// The `x` for which `op` gives `target`, with `known` on the left. The
/// logical operators have no such `x`. Where `exact` is set, it is a value
/// error where `+`, `-` or `/` on numbers has no exact `x`.
pub open spec fn left_preimage(exact: bool, op: Operator, known: Val, target: Val) -> Result<
    Val,
    RuntimeError,
> {
    match op {
        Operator::Add => if exact && inexact(Operator::Sub, target, known) {
            Err(RuntimeError::ValueErrorT)
        } else {
            add_left_preimage(known, target)
        },
        Operator::Sub => if exact && inexact(Operator::Sub, known, target) {
            Err(RuntimeError::ValueErrorT)
        } else {
            sub_left_preimage(known, target)
        },
        Operator::Mul => mul_left_preimage(known, target),
        Operator::Div => if exact && inexact(Operator::Div, known, target) {
            Err(RuntimeError::ValueErrorT)
        } else {
            div_left_preimage(known, target)
        },
        Operator::And => Err(RuntimeError::ValueErrorT),
        Operator::Or => Err(RuntimeError::ValueErrorT),
    }
}

/// The `x` for which `op` gives `target`, with `known` on the right. Where
/// `exact` is set, it is a value error where `+`, `-` or `/` on numbers has
/// no exact `x`.
pub open spec fn right_preimage(exact: bool, op: Operator, known: Val, target: Val) -> Result<
    Val,
    RuntimeError,
> {
    match op {
        Operator::Add => if exact && inexact(Operator::Sub, target, known) {
            Err(RuntimeError::ValueErrorT)
        } else {
            add_right_preimage(known, target)
        },
        Operator::Sub => if exact && inexact(Operator::Add, target, known) {
            Err(RuntimeError::ValueErrorT)
        } else {
            sub_right_preimage(known, target)
        },
        Operator::Mul => mul_right_preimage(known, target),
        Operator::Div => if exact && inexact(Operator::Mul, target, known) {
            Err(RuntimeError::ValueErrorT)
        } else {
            div_right_preimage(known, target)
        },
        Operator::And => Err(RuntimeError::ValueErrorT),
        Operator::Or => Err(RuntimeError::ValueErrorT),
    }
}

/// What an operator makes of two values. Where `exact` is set, it is a value
/// error where `+`, `-` or `/` on numbers has no exact result.
pub open spec fn apply_operator(exact: bool, op: Operator, a: Val, b: Val) -> Result<
    Val,
    RuntimeError,
> {
    match op {
        Operator::Add => if exact && inexact(op, a, b) {
            Err(RuntimeError::ValueErrorT)
        } else {
            a.sum(b)
        },
        Operator::Sub => if exact && inexact(op, a, b) {
            Err(RuntimeError::ValueErrorT)
        } else {
            a.difference(b)
        },
        Operator::Mul => a.product(b),
        Operator::Div => if exact && inexact(op, a, b) {
            Err(RuntimeError::ValueErrorT)
        } else {
            a.quotient(b)
        },
        Operator::And => a.conjunction(b),
        Operator::Or => a.disjunction(b),
    }
}

/// What a unary operator makes of a value. Each is its own inverse.
pub open spec fn apply_unary(op: UnaryOperator, v: Val) -> Result<Val, RuntimeError> {
    match (op, v) {
        (UnaryOperator::Neg, Val::Number(n)) => Ok(Val::Number(n.negated())),
        (UnaryOperator::Not, Val::Bool(b)) => Ok(Val::Bool(!b)),
        _ => Err(RuntimeError::ValueErrorT),
    }
}

/// A program as it is run: its functions, and whether it is run exactly.
pub struct Program {
    pub rules: Map<Seq<char>, Seq<Transformation>>,
    pub exact: bool,
}

/// The program of `rules` as the interpreter runs it.
pub open spec fn program(rules: Map<Seq<char>, Seq<Transformation>>) -> Program {
    Program { rules, exact: false }
}

/// `fns` run exactly.
pub open spec fn exactly(fns: Program) -> Program {
    Program { rules: fns.rules, exact: true }
}

/// The outcome of evaluating `e` as a constructor, and the bindings after it.
pub open spec fn construct(e: Expr, env: Env, fns: Program, depth: nat) -> (
    Result<Val, RuntimeError>,
    Env,
)
    decreases 3 * depth + 1, e, 1nat, 0nat,
{
    match e {
        Expr::Number(n) => (Ok(Val::Number(n@)), env),
        Expr::String(s, _) => (Ok(Val::String(s@)), env),
        Expr::Bool(b) => (Ok(Val::Bool(b)), env),
        Expr::Array(items) => {
            let (r, env1) = construct_items(items@, items@.len(), env, fns, depth);
            (
                match r {
                    Ok(vs) => Ok(Val::Array(vs)),
                    Err(err) => Err(err),
                },
                env1,
            )
        },
        Expr::Tuple(items) => {
            let (r, env1) = construct_items(items@, items@.len(), env, fns, depth);
            (
                match r {
                    Ok(vs) => Ok(Val::Tuple(vs)),
                    Err(err) => Err(err),
                },
                env1,
            )
        },
        Expr::Ident(i) => if env.idents.contains_key(i@) {
            (Ok(env.idents[i@]), env)
        } else {
            (Err(RuntimeError::ValueErrorT), env)
        },
        Expr::PolyIdent(i) => if env.polyidents.contains_key(i@) && env.polyidents[i@].len() > 0 {
            (Ok(env.polyidents[i@][0]), env.release(i@))
        } else {
            (Err(RuntimeError::ValueErrorT), env)
        },
        Expr::Operator(op, a, b) => match op {
            Operator::Mul => {
                let (rb, env1) = construct(*b, env, fns, depth);
                match rb {
                    Ok(vb) => repeat(*a, vb, env1, fns, depth),
                    Err(err) => (Err(err), env1),
                }
            },
            _ => {
                let (ra, env1) = construct(*a, env, fns, depth);
                match ra {
                    Ok(va) => {
                        let (rb, env2) = construct(*b, env1, fns, depth);
                        match rb {
                            Ok(vb) => (apply_operator(fns.exact, op, va, vb), env2),
                            Err(err) => (Err(err), env2),
                        }
                    },
                    Err(err) => (Err(err), env1),
                }
            },
        },
        Expr::UnaryOp(op, operand) => {
            let (r, env1) = construct(*operand, env, fns, depth);
            match r {
                Ok(v) => (apply_unary(op, v), env1),
                Err(err) => (Err(err), env1),
            }
        },
        Expr::Cast(operand, to, from) => {
            let (r, env1) = construct(*operand, env, fns, depth);
            match r {
                Ok(v) => (v.cast(to, from), env1),
                Err(err) => (Err(err), env1),
            }
        },
        Expr::Any => (Err(RuntimeError::ValueErrorT), env),
        Expr::Call(f, argument) => {
            let (r, env1) = construct(*argument, env, fns, depth);
            match r {
                Ok(v) => if depth == 0 {
                    (Err(RuntimeError::ValueErrorT), env1)
                } else {
                    (run(f@, v, fns, (depth - 1) as nat), env1)
                },
                Err(err) => (Err(err), env1),
            }
        },
    }
}

/// The outcome of constructing the first `n` of `items` in order.
pub open spec fn construct_items(items: Seq<Expr>, n: nat, env: Env, fns: Program, depth: nat) -> (
    Result<Seq<Val>, RuntimeError>,
    Env,
)
    decreases 3 * depth + 1, items, 1nat, n,
{
    if n == 0 || n > items.len() {
        (Ok(Seq::empty()), env)
    } else {
        let (front, env1) = construct_items(items, (n - 1) as nat, env, fns, depth);
        match front {
            Ok(vs) => {
                let (r, env2) = construct(items[n - 1], env1, fns, depth);
                match r {
                    Ok(v) => (Ok(vs.push(v)), env2),
                    Err(err) => (Err(err), env2),
                }
            },
            Err(err) => (Err(err), env1),
        }
    }
}

/// The outcome of `left * right`, where `right` has been constructed. Where
/// `right` is a number: the product where `left` makes a number, else `left`
/// constructed as often as `right` says and the results added up. Where
/// `right` is no number: what `left` makes, times `right`.
pub open spec fn repeat(left: Expr, right: Val, env: Env, fns: Program, depth: nat) -> (
    Result<Val, RuntimeError>,
    Env,
)
    decreases 3 * depth + 1, left, 3nat, 0nat,
{
    match right {
        Val::Number(factor) => {
            let (r, env1) = construct(left, env, fns, depth);
            match r {
                Ok(Val::Number(n)) => (Ok(Val::Number(n.multiplied(factor))), env1),
                Ok(first) => match factor.count() {
                    Some(times) => if times == 0 {
                        (first.none_of(), env1)
                    } else {
                        repeat_more(left, first, (times - 1) as nat, env1, fns, depth)
                    },
                    None => (Err(RuntimeError::ValueErrorT), env1),
                },
                Err(err) => (Err(err), env1),
            }
        },
        _ => {
            let (r, env1) = construct(left, env, fns, depth);
            match r {
                Ok(first) => (first.product(right), env1),
                Err(err) => (Err(err), env1),
            }
        },
    }
}

/// The outcome of adding `times` more constructions of `left` to `sum`.
pub open spec fn repeat_more(
    left: Expr,
    sum: Val,
    times: nat,
    env: Env,
    fns: Program,
    depth: nat,
) -> (Result<Val, RuntimeError>, Env)
    decreases 3 * depth + 1, left, 2nat, times,
{
    if times == 0 {
        (Ok(sum), env)
    } else {
        let (r, env1) = construct(left, env, fns, depth);
        match r {
            Ok(v) => match sum.sum(v) {
                Ok(more) => repeat_more(left, more, (times - 1) as nat, env1, fns, depth),
                Err(err) => (Err(err), env1),
            },
            Err(err) => (Err(err), env1),
        }
    }
}

/// The outcome of matching `target` against `e` as a pattern, and the
/// bindings after it. On success the outcome holds the value that the pattern
/// stands for, where it stands for one without the bindings.
pub open spec fn destruct(e: Expr, target: Val, env: Env, fns: Program, depth: nat) -> (
    Result<Option<Val>, RuntimeError>,
    Env,
)
    decreases 3 * depth + 1, e, 1nat, 0nat,
{
    match e {
        Expr::Number(n) => if target == Val::Number(n@) {
            (Ok(Some(target)), env)
        } else {
            (Err(RuntimeError::PatternMismatchT), env)
        },
        Expr::Bool(b) => if target == Val::Bool(b) {
            (Ok(Some(target)), env)
        } else {
            (Err(RuntimeError::PatternMismatchT), env)
        },
        Expr::String(s, _) => if target == Val::String(s@) {
            (Ok(Some(target)), env)
        } else {
            (Err(RuntimeError::PatternMismatchT), env)
        },
        Expr::Array(items) => match target {
            Val::Array(targets) => if items@.len() != targets.len() {
                (Err(RuntimeError::PatternMismatchT), env)
            } else {
                let (r, env1) = destruct_items(items@, targets, items@.len(), env, fns, depth);
                (
                    match r {
                        Ok(Some(vs)) => Ok(Some(Val::Array(vs))),
                        Ok(None) => Ok(None),
                        Err(err) => Err(err),
                    },
                    env1,
                )
            },
            _ => (Err(RuntimeError::PatternMismatchT), env),
        },
        Expr::Tuple(items) => match target {
            Val::Tuple(targets) => if items@.len() != targets.len() {
                (Err(RuntimeError::PatternMismatchT), env)
            } else {
                let (r, env1) = destruct_items(items@, targets, items@.len(), env, fns, depth);
                (
                    match r {
                        Ok(Some(vs)) => Ok(Some(Val::Tuple(vs))),
                        Ok(None) => Ok(None),
                        Err(err) => Err(err),
                    },
                    env1,
                )
            },
            _ => (Err(RuntimeError::PatternMismatchT), env),
        },
        Expr::Ident(i) => if env.accepts(i@, target) {
            (Ok(None), env.bind(i@, target))
        } else {
            (Err(RuntimeError::ValueErrorT), env)
        },
        Expr::PolyIdent(i) => (Ok(None), env.capture(i@, target)),
        Expr::Operator(_, _, _) => destruct_operator(e, target, env, fns, depth),
        Expr::UnaryOp(op, operand) => match apply_unary(op, target) {
            Ok(inner) => destruct(*operand, inner, env, fns, depth),
            Err(err) => (Err(err), env),
        },
        Expr::Cast(operand, to, from) => match target.cast(from, to) {
            Ok(inner) => destruct(*operand, inner, env, fns, depth),
            Err(err) => (Err(err), env),
        },
        Expr::Any => (Ok(None), env),
        Expr::Call(f, argument) => if depth == 0 {
            (Err(RuntimeError::ValueErrorT), env)
        } else {
            match reverse(f@, target, fns, (depth - 1) as nat) {
                Ok(inner) => destruct(*argument, inner, env, fns, depth),
                Err(err) => (Err(err), env),
            }
        },
    }
}

/// The outcome of matching `target` against an operator with two operands.
///
/// Where both operands can be constructed without any bindings, they are
/// matched against what they make, and what the operator makes of them must
/// be `target`. Where one of them can, the operator is inverted and the other
/// is matched against what it must have been. Where neither can, this is a
/// value error.
pub open spec fn destruct_operator(e: Expr, target: Val, env: Env, fns: Program, depth: nat) -> (
    Result<Option<Val>, RuntimeError>,
    Env,
)
    decreases 3 * depth + 1, e, 0nat, 0nat,
{
    match e {
        Expr::Operator(op, left, right) => {
        let known_left = construct(*left, Env::empty(), fns, depth).0;
        let known_right = construct(*right, Env::empty(), fns, depth).0;
        match (known_left, known_right) {
            (Ok(a), Ok(b)) => {
                let (r1, env1) = destruct(*left, a, env, fns, depth);
                match r1 {
                    Ok(_) => {
                        let (r2, env2) = destruct(*right, b, env1, fns, depth);
                        match r2 {
                            Ok(_) => {
                                let (r3, env3) = match op {
                                    Operator::Mul => repeat(*left, b, env2, fns, depth),
                                    _ => (apply_operator(fns.exact, op, a, b), env2),
                                };
                                match r3 {
                                    Ok(v) => if v == target {
                                        (Ok(Some(v)), env3)
                                    } else {
                                        (Err(RuntimeError::PatternMismatchT), env3)
                                    },
                                    Err(err) => (Err(err), env3),
                                }
                            },
                            Err(err) => (Err(err), env2),
                        }
                    },
                    Err(err) => (Err(err), env1),
                }
            },
            (Ok(a), Err(_)) => {
                let (r, env1) = solve(*right, left_preimage(fns.exact, op, a, target), env, fns, depth);
                (
                    match r {
                        Ok(_) => Ok(None),
                        Err(err) => Err(err),
                    },
                    env1,
                )
            },
            (Err(_), Ok(b)) => {
                let (r, env1) = solve(*left, right_preimage(fns.exact, op, b, target), env, fns, depth);
                (
                    match r {
                        Ok(_) => Ok(None),
                        Err(err) => Err(err),
                    },
                    env1,
                )
            },
            (Err(_), Err(_)) => (Err(RuntimeError::ValueErrorT), env),
        }
        },
        _ => (Err(RuntimeError::ValueErrorT), env),
    }
}

/// The outcome of matching the first `n` of `targets` against the first `n`
/// of `items` in order. On success it holds the values that the patterns
/// stand for, where each stands for one.
pub open spec fn destruct_items(
    items: Seq<Expr>,
    targets: Seq<Val>,
    n: nat,
    env: Env,
    fns: Program,
    depth: nat,
) -> (Result<Option<Seq<Val>>, RuntimeError>, Env)
    decreases 3 * depth + 1, items, 1nat, n,
{
    if n == 0 || n > items.len() {
        (Ok(Some(Seq::empty())), env)
    } else {
        let (front, env1) = destruct_items(items, targets, (n - 1) as nat, env, fns, depth);
        match front {
            Ok(found) => {
                let (r, env2) = destruct(items[n - 1], targets[n - 1], env1, fns, depth);
                match r {
                    Ok(v) => (
                        Ok(
                            match (found, v) {
                                (Some(vs), Some(x)) => Some(vs.push(x)),
                                _ => None,
                            },
                        ),
                        env2,
                    ),
                    Err(err) => (Err(err), env2),
                }
            },
            Err(err) => (Err(err), env1),
        }
    }
}

/// The outcome of matching the side of an operator that is not known against
/// what it must have been, where the operator can be inverted.
pub open spec fn solve(
    unknown: Expr,
    preimage: Result<Val, RuntimeError>,
    env: Env,
    fns: Program,
    depth: nat,
) -> (Result<(), RuntimeError>, Env)
    decreases 3 * depth + 1, unknown, 2nat, 0nat,
{
    match preimage {
        Ok(inner) => {
            let (r, env1) = destruct(unknown, inner, env, fns, depth);
            (
                match r {
                    Ok(_) => Ok(()),
                    Err(err) => Err(err),
                },
                env1,
            )
        },
        Err(err) => (Err(err), env),
    }
}

/// One rule applied to `value`: `value` is matched against `pattern` with no
/// bindings to start from, and `generator` is constructed from the bindings
/// made. It is a value error where a poly-identifier captured more than the
/// construction took back.
pub open spec fn apply_rule(
    pattern: Expr,
    generator: Expr,
    value: Val,
    fns: Program,
    depth: nat,
) -> Result<Val, RuntimeError>
    decreases 3 * depth + 2, Expr::Any, 0nat, 0nat,
{
    let (matched, env1) = destruct(pattern, value, Env::empty(), fns, depth);
    match matched {
        Ok(_) => {
            let (made, env2) = construct(generator, env1, fns, depth);
            match made {
                Ok(v) => if env2.drained() {
                    Ok(v)
                } else {
                    Err(RuntimeError::ValueErrorT)
                },
                Err(err) => Err(err),
            }
        },
        Err(err) => Err(err),
    }
}

/// The first `n` of `rules` applied to `value` in order.
pub open spec fn run_rules(
    rules: Seq<Transformation>,
    n: nat,
    value: Val,
    fns: Program,
    depth: nat,
) -> Result<Val, RuntimeError>
    decreases 3 * depth + 2, Expr::Any, n, 0nat,
{
    if n == 0 || n > rules.len() {
        Ok(value)
    } else {
        match run_rules(rules, (n - 1) as nat, value, fns, depth) {
            Ok(v) => apply_rule(
                rules[n - 1]->destruct,
                rules[n - 1]->construct,
                v,
                fns,
                depth,
            ),
            Err(err) => Err(err),
        }
    }
}

/// The last `n` of `rules` undone on `value`, the last one first: each rule
/// is applied with its constructor as the pattern and its pattern as the
/// constructor.
pub open spec fn reverse_rules(
    rules: Seq<Transformation>,
    n: nat,
    value: Val,
    fns: Program,
    depth: nat,
) -> Result<Val, RuntimeError>
    decreases 3 * depth + 2, Expr::Any, n, 0nat,
{
    if n == 0 || n > rules.len() {
        Ok(value)
    } else {
        match reverse_rules(rules, (n - 1) as nat, value, fns, depth) {
            Ok(v) => apply_rule(
                rules[rules.len() - n]->construct,
                rules[rules.len() - n]->destruct,
                v,
                fns,
                depth,
            ),
            Err(err) => Err(err),
        }
    }
}

/// The function `name` run forward on `input`: each of its rules in order is
/// applied to what the one before made. It is a value error where there is
/// no such function.
pub open spec fn run(name: Seq<char>, input: Val, fns: Program, depth: nat) -> Result<
    Val,
    RuntimeError,
>
    decreases 3 * depth + 3, Expr::Any, 0nat, 0nat,
{
    if !fns.rules.contains_key(name) {
        Err(RuntimeError::ValueErrorT)
    } else {
        run_rules(fns.rules[name], fns.rules[name].len(), input, fns, depth)
    }
}

/// The function `name` run in reverse on `output`.
pub open spec fn reverse(name: Seq<char>, output: Val, fns: Program, depth: nat) -> Result<
    Val,
    RuntimeError,
>
    decreases 3 * depth + 3, Expr::Any, 0nat, 0nat,
{
    if !fns.rules.contains_key(name) {
        Err(RuntimeError::ValueErrorT)
    } else {
        reverse_rules(fns.rules[name], fns.rules[name].len(), output, fns, depth)
    }
}

} // verus!
