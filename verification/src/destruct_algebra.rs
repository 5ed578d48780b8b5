//! The inverse of each operator: given one operand and the result, what the
//! other operand was, matched against the expression that stands for it.
use crate::ast::{Expr, Functions};
use crate::chars::{chars_at, chars_repeat, slice_chars};
use crate::error::RuntimeError;
use crate::number::Number;
use crate::semantics;
use crate::value::{items_at, items_repeat, lemma_views, slice_items, Val, Value};
use crate::variables::Variables;
use vstd::prelude::*;

verus! {

/// What the outcome of inverting an operator stands for.
pub open spec fn preimage(r: Result<Value, RuntimeError>) -> Result<Val, RuntimeError> {
    match r {
        Ok(v) => Ok(v@),
        Err(e) => Err(e),
    }
}

/// Matches what is not known against what it must have been.
fn solve(
    unknown: &Expr,
    inner: Result<Value, RuntimeError>,
    variables: &mut Variables,
    functions: &Functions,
    depth: usize,
) -> (r: Result<(), RuntimeError>)
    ensures
        (r, final(variables)@) == semantics::solve(
            *unknown,
            preimage(inner),
            old(variables)@,
            semantics::program(functions@),
            depth as nat,
        ),
    decreases 3 * depth + 1, unknown, 2nat, 0nat,
{
    match inner {
        Ok(inner) => match unknown.destruct(&inner, variables, functions, depth) {
            Ok(_) => Ok(()),
            Err(e) => Err(e),
        },
        Err(e) => Err(e),
    }
}

/// The `x` with `left + x == target`.
pub fn add_left_preimage(left: &Value, target: &Value) -> (r: Result<Value, RuntimeError>)
    ensures
        preimage(r) == semantics::add_left_preimage(left@, target@),
{
    proof {
        match (left, target) {
            (Value::Array(a1), Value::Array(a2)) => {
                lemma_views(a1@);
                lemma_views(a2@);
            },
            _ => {},
        }
    }
    match (left, target) {
        (Value::Number(n1), Value::Number(n2)) => Ok(Value::Number(n2.sub(n1))),
        (Value::String(s1), Value::String(s2)) => {
            if s1.len() > s2.len() || !chars_at(s2, 0, s1) {
                Err(RuntimeError::PatternMismatchT)
            } else {
                Ok(Value::String(slice_chars(s2, s1.len(), s2.len())))
            }
        },
        (Value::Array(a1), Value::Array(a2)) => {
            if a1.len() > a2.len() || !items_at(a2, 0, a1) {
                Err(RuntimeError::PatternMismatchT)
            } else {
                Ok(Value::Array(slice_items(a2, a1.len(), a2.len())))
            }
        },
        _ => Err(RuntimeError::ValueErrorT),
    }
}

/// The `x` with `x + right == target`.
pub fn add_right_preimage(right: &Value, target: &Value) -> (r: Result<Value, RuntimeError>)
    ensures
        preimage(r) == semantics::add_right_preimage(right@, target@),
{
    proof {
        match (right, target) {
            (Value::Array(a1), Value::Array(a2)) => {
                lemma_views(a1@);
                lemma_views(a2@);
            },
            _ => {},
        }
    }
    match (right, target) {
        (Value::Number(n1), Value::Number(n2)) => Ok(Value::Number(n2.sub(n1))),
        (Value::String(s1), Value::String(s2)) => {
            if s1.len() > s2.len() || !chars_at(s2, s2.len() - s1.len(), s1) {
                Err(RuntimeError::PatternMismatchT)
            } else {
                Ok(Value::String(slice_chars(s2, 0, s2.len() - s1.len())))
            }
        },
        (Value::Array(a1), Value::Array(a2)) => {
            if a1.len() > a2.len() || !items_at(a2, a2.len() - a1.len(), a1) {
                Err(RuntimeError::PatternMismatchT)
            } else {
                Ok(Value::Array(slice_items(a2, 0, a2.len() - a1.len())))
            }
        },
        _ => Err(RuntimeError::ValueErrorT),
    }
}

/// The `x` with `left * x == target`.
pub fn mul_left_preimage(left: &Value, target: &Value) -> (r: Result<Value, RuntimeError>)
    ensures
        preimage(r) == semantics::mul_left_preimage(left@, target@),
{
    proof {
        match (left, target) {
            (Value::Array(a1), Value::Array(a2)) => {
                lemma_views(a1@);
                lemma_views(a2@);
            },
            _ => {},
        }
    }
    match (left, target) {
        (Value::Number(n1), Value::Number(n2)) => Ok(Value::Number(n2.div(n1))),
        (Value::Array(a1), Value::Array(a2)) => {
            if a1.len() == 0 || a2.len() % a1.len() != 0 || !items_repeat(a2, a1) {
                Err(RuntimeError::PatternMismatchT)
            } else {
                Ok(Value::Number(Number::from_count(a2.len() / a1.len())))
            }
        },
        (Value::String(s1), Value::String(s2)) => {
            if s1.len() == 0 || s2.len() % s1.len() != 0 || !chars_repeat(s2, s1) {
                Err(RuntimeError::PatternMismatchT)
            } else {
                Ok(Value::Number(Number::from_count(s2.len() / s1.len())))
            }
        },
        _ => Err(RuntimeError::ValueErrorT),
    }
}

/// The `x` with `x * right == target`.
pub fn mul_right_preimage(right: &Value, target: &Value) -> (r: Result<Value, RuntimeError>)
    ensures
        preimage(r) == semantics::mul_right_preimage(right@, target@),
{
    proof {
        match (right, target) {
            (Value::Array(a1), Value::Array(a2)) => {
                lemma_views(a1@);
                lemma_views(a2@);
            },
            _ => {},
        }
    }
    match (right, target) {
        (Value::Number(n1), Value::Number(n2)) => Ok(Value::Number(n2.div(n1))),
        (Value::Number(n1), Value::Array(a2)) => {
            let len = a2.len();
            proof {
                lemma_views(a2@);
            }
            if !n1.is_whole() {
                return Err(RuntimeError::ValueErrorT);
            }
            let n = match n1.count() {
                Some(n) => n,
                None => {
                    return Err(RuntimeError::PatternMismatchT);
                },
            };
            if n == 0 || n > len || len % n != 0 {
                return Err(RuntimeError::PatternMismatchT);
            }
            let first = slice_items(a2, 0, len / n);
            proof {
                lemma_piece_length(len as int, n as int);
            }
            if items_repeat(a2, &first) {
                Ok(Value::Array(first))
            } else {
                Err(RuntimeError::PatternMismatchT)
            }
        },
        (Value::Number(n1), Value::String(s2)) => {
            let len = s2.len();
            if !n1.is_whole() {
                return Err(RuntimeError::ValueErrorT);
            }
            let n = match n1.count() {
                Some(n) => n,
                None => {
                    return Err(RuntimeError::PatternMismatchT);
                },
            };
            if n == 0 || n > len || len % n != 0 {
                return Err(RuntimeError::PatternMismatchT);
            }
            let first = slice_chars(s2, 0, len / n);
            proof {
                lemma_piece_length(len as int, n as int);
            }
            if chars_repeat(s2, &first) {
                Ok(Value::String(first))
            } else {
                Err(RuntimeError::PatternMismatchT)
            }
        },
        _ => Err(RuntimeError::ValueErrorT),
    }
}

/// A sequence cut into `n` pieces of one length: the length of a piece is
/// positive and divides that of the sequence.
proof fn lemma_piece_length(len: int, n: int)
    requires
        0 < n <= len,
        len % n == 0,
    ensures
        len / n > 0,
        len % (len / n) == 0,
{
    vstd::arithmetic::div_mod::lemma_fundamental_div_mod(len, n);
    let q = len / n;
    assert(q > 0) by (nonlinear_arith)
        requires
            len == n * q,
            0 < n <= len,
    ;
    assert(len == q * n) by (nonlinear_arith)
        requires
            len == n * q,
    ;
    vstd::arithmetic::div_mod::lemma_mod_multiples_basic(n, q);
}

/// Inverts `left + right == target_val` where `left` is known: `right` is
/// matched against `target_val` less `left`, or without `left` in front.
pub fn add_left_destruct(
    left: &Value,
    right: &Expr,
    target_val: &Value,
    variables: &mut Variables,
    functions: &Functions,
    depth: usize,
) -> (r: Result<(), RuntimeError>)
    ensures
        (r, final(variables)@) == semantics::solve(
            *right,
            semantics::add_left_preimage(left@, target_val@),
            old(variables)@,
            semantics::program(functions@),
            depth as nat,
        ),
    decreases 3 * depth + 1, right, 2nat, 1nat,
{
    solve(right, add_left_preimage(left, target_val), variables, functions, depth)
}

/// Inverts `left + right == target_val` where `right` is known: `left` is
/// matched against `target_val` less `right`, or without `right` at the end.
pub fn add_right_destruct(
    right: &Value,
    left: &Expr,
    target_val: &Value,
    variables: &mut Variables,
    functions: &Functions,
    depth: usize,
) -> (r: Result<(), RuntimeError>)
    ensures
        (r, final(variables)@) == semantics::solve(
            *left,
            semantics::add_right_preimage(right@, target_val@),
            old(variables)@,
            semantics::program(functions@),
            depth as nat,
        ),
    decreases 3 * depth + 1, left, 2nat, 1nat,
{
    solve(left, add_right_preimage(right, target_val), variables, functions, depth)
}

/// Inverts `left - right == target_val` where `left` is known: `right` is
/// matched against `left` less `target_val`.
pub fn sub_left_destruct(
    left: &Value,
    right: &Expr,
    target_val: &Value,
    variables: &mut Variables,
    functions: &Functions,
    depth: usize,
) -> (r: Result<(), RuntimeError>)
    ensures
        (r, final(variables)@) == semantics::solve(
            *right,
            semantics::sub_left_preimage(left@, target_val@),
            old(variables)@,
            semantics::program(functions@),
            depth as nat,
        ),
    decreases 3 * depth + 1, right, 2nat, 1nat,
{
    let inner = match (left, target_val) {
        (Value::Number(n1), Value::Number(n2)) => Ok(Value::Number(n1.sub(n2))),
        _ => Err(RuntimeError::ValueErrorT),
    };
    solve(right, inner, variables, functions, depth)
}

/// Inverts `left - right == target_val` where `right` is known: `left` is
/// matched against `target_val` plus `right`.
pub fn sub_right_destruct(
    right: &Value,
    left: &Expr,
    target_val: &Value,
    variables: &mut Variables,
    functions: &Functions,
    depth: usize,
) -> (r: Result<(), RuntimeError>)
    ensures
        (r, final(variables)@) == semantics::solve(
            *left,
            semantics::sub_right_preimage(right@, target_val@),
            old(variables)@,
            semantics::program(functions@),
            depth as nat,
        ),
    decreases 3 * depth + 1, left, 2nat, 1nat,
{
    let inner = match (right, target_val) {
        (Value::Number(n1), Value::Number(n2)) => Ok(Value::Number(n2.add(n1))),
        _ => Err(RuntimeError::ValueErrorT),
    };
    solve(left, inner, variables, functions, depth)
}

/// Inverts `left * right == target_val` where `left` is known: `right` is
/// matched against `target_val` divided by `left`, or against how often
/// `left` is repeated in `target_val`.
pub fn mul_left_destruct(
    left: &Value,
    right: &Expr,
    target_val: &Value,
    variables: &mut Variables,
    functions: &Functions,
    depth: usize,
) -> (r: Result<(), RuntimeError>)
    ensures
        (r, final(variables)@) == semantics::solve(
            *right,
            semantics::mul_left_preimage(left@, target_val@),
            old(variables)@,
            semantics::program(functions@),
            depth as nat,
        ),
    decreases 3 * depth + 1, right, 2nat, 1nat,
{
    solve(right, mul_left_preimage(left, target_val), variables, functions, depth)
}

/// Inverts `left * right == target_val` where `right` is known: `left` is
/// matched against `target_val` divided by `right`, or against the piece
/// that `target_val` repeats `right` times.
pub fn mul_right_destruct(
    right: &Value,
    left: &Expr,
    target_val: &Value,
    variables: &mut Variables,
    functions: &Functions,
    depth: usize,
) -> (r: Result<(), RuntimeError>)
    ensures
        (r, final(variables)@) == semantics::solve(
            *left,
            semantics::mul_right_preimage(right@, target_val@),
            old(variables)@,
            semantics::program(functions@),
            depth as nat,
        ),
    decreases 3 * depth + 1, left, 2nat, 1nat,
{
    solve(left, mul_right_preimage(right, target_val), variables, functions, depth)
}

/// Inverts `left / right == target_val` where `left` is known: `right` is
/// matched against `left` divided by `target_val`.
pub fn div_left_destruct(
    left: &Value,
    right: &Expr,
    target_val: &Value,
    variables: &mut Variables,
    functions: &Functions,
    depth: usize,
) -> (r: Result<(), RuntimeError>)
    ensures
        (r, final(variables)@) == semantics::solve(
            *right,
            semantics::div_left_preimage(left@, target_val@),
            old(variables)@,
            semantics::program(functions@),
            depth as nat,
        ),
    decreases 3 * depth + 1, right, 2nat, 1nat,
{
    let inner = match (left, target_val) {
        (Value::Number(n1), Value::Number(n2)) => Ok(Value::Number(n1.div(n2))),
        _ => Err(RuntimeError::ValueErrorT),
    };
    solve(right, inner, variables, functions, depth)
}

/// Inverts `left / right == target_val` where `right` is known: `left` is
/// matched against `target_val` times `right`.
pub fn div_right_destruct(
    right: &Value,
    left: &Expr,
    target_val: &Value,
    variables: &mut Variables,
    functions: &Functions,
    depth: usize,
) -> (r: Result<(), RuntimeError>)
    ensures
        (r, final(variables)@) == semantics::solve(
            *left,
            semantics::div_right_preimage(right@, target_val@),
            old(variables)@,
            semantics::program(functions@),
            depth as nat,
        ),
    decreases 3 * depth + 1, left, 2nat, 1nat,
{
    let inner = match (right, target_val) {
        (Value::Number(n1), Value::Number(n2)) => Ok(Value::Number(n2.mul(n1))),
        _ => Err(RuntimeError::ValueErrorT),
    };
    solve(left, inner, variables, functions, depth)
}

} // verus!
