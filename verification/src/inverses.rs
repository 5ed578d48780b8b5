//! Laws of the operators on values: what inverting an operator gives is what
//! the operator was applied to. They hold of exact arithmetic.
use crate::arithmetic::{
    lemma_difference_undone, lemma_negation_undone, lemma_product_undone, lemma_quotient_undone,
    lemma_sum_undone,
};
use crate::ast::{Operator, Type, UnaryOperator};
use crate::error::RuntimeError;
use crate::semantics::{apply_operator, apply_unary, left_preimage, right_preimage};
use crate::text::lemma_parse_text;
use crate::value::Val;
use vstd::prelude::*;

verus! {

/// The operators that can be inverted whatever the operands.
pub open spec fn invertible_operator(op: Operator) -> bool {
    op == Operator::Add || op == Operator::Sub || op == Operator::Div
}

/// Casting a value from `a` to `b` and back gives the value: a type to
/// itself, a number to the string that writes it out, a string to the array
/// or tuple of its characters.
pub open spec fn lossless(a: Type, b: Type) -> bool {
    a == b || (a == Type::Number && b == Type::String) || (a == Type::String && (b == Type::Array
        || b == Type::Tuple))
}

/// What an operator makes of well-formed values is well formed.
pub proof fn lemma_operator_wf(op: Operator, a: Val, b: Val)
    requires
        invertible_operator(op),
        a.wf(),
        b.wf(),
        apply_operator(true, op, a, b) is Ok,
    ensures
        apply_operator(true, op, a, b)->Ok_0.wf(),
{
    match (a, b) {
        (Val::Number(p), Val::Number(q)) => {
            if op == Operator::Add {
                lemma_sum_undone(p, q);
            } else if op == Operator::Sub {
                lemma_difference_undone(p, q);
            } else {
                lemma_quotient_undone(p, q);
            }
        },
        _ => {},
    }
}

/// Where the left operand is known: applying the operator to it and to what
/// inverting gave makes the target again.
pub proof fn lemma_left_preimage_applied(op: Operator, a: Val, x: Val)
    requires
        invertible_operator(op),
        a.wf(),
        x.wf(),
        left_preimage(true, op, a, x) is Ok,
    ensures
        left_preimage(true, op, a, x)->Ok_0.wf(),
        apply_operator(true, op, a, left_preimage(true, op, a, x)->Ok_0) is Ok ==> apply_operator(true, op,
            a,
            left_preimage(true, op, a, x)->Ok_0,
        ) == Ok::<Val, RuntimeError>(x),
{
    match (a, x) {
        (Val::Number(p), Val::Number(q)) => {
            if op == Operator::Add {
                lemma_difference_undone(q, p);
            } else if op == Operator::Sub {
                lemma_difference_undone(p, q);
            } else {
                lemma_quotient_undone(p, q);
            }
        },
        (Val::String(s1), Val::String(s2)) => {
            if op == Operator::Add {
                assert(s1 + s2.subrange(s1.len() as int, s2.len() as int) =~= s2);
            }
        },
        (Val::Array(a1), Val::Array(a2)) => {
            if op == Operator::Add {
                assert(a1 + a2.subrange(a1.len() as int, a2.len() as int) =~= a2);
            }
        },
        _ => {},
    }
}

/// Where the right operand is known: applying the operator to what
/// inverting gave and to it makes the target again.
pub proof fn lemma_right_preimage_applied(op: Operator, b: Val, x: Val)
    requires
        invertible_operator(op),
        b.wf(),
        x.wf(),
        right_preimage(true, op, b, x) is Ok,
    ensures
        right_preimage(true, op, b, x)->Ok_0.wf(),
        apply_operator(true, op, right_preimage(true, op, b, x)->Ok_0, b) is Ok ==> apply_operator(true, op,
            right_preimage(true, op, b, x)->Ok_0,
            b,
        ) == Ok::<Val, RuntimeError>(x),
{
    match (b, x) {
        (Val::Number(p), Val::Number(q)) => {
            if op == Operator::Add {
                lemma_difference_undone(q, p);
            } else if op == Operator::Sub {
                lemma_sum_undone(q, p);
            } else {
                lemma_product_undone(q, p);
            }
        },
        (Val::String(s1), Val::String(s2)) => {
            if op == Operator::Add {
                assert(s2.subrange(0, s2.len() - s1.len()) + s1 =~= s2);
            }
        },
        (Val::Array(a1), Val::Array(a2)) => {
            if op == Operator::Add {
                assert(a2.subrange(0, a2.len() - a1.len()) + a1 =~= a2);
            }
        },
        _ => {},
    }
}

/// Where the left operand is known: inverting what the operator made gives
/// the right operand.
pub proof fn lemma_left_preimage_found(op: Operator, a: Val, v: Val)
    requires
        invertible_operator(op),
        a.wf(),
        v.wf(),
        apply_operator(true, op, a, v) is Ok,
    ensures
        left_preimage(true, op, a, apply_operator(true, op, a, v)->Ok_0) is Ok ==> left_preimage(true, op,
            a,
            apply_operator(true, op, a, v)->Ok_0,
        ) == Ok::<Val, RuntimeError>(v),
{
    match (a, v) {
        (Val::Number(p), Val::Number(q)) => {
            if op == Operator::Add {
                lemma_sum_undone(p, q);
            } else if op == Operator::Sub {
                lemma_difference_undone(p, q);
            } else {
                lemma_quotient_undone(p, q);
            }
        },
        (Val::String(s1), Val::String(s2)) => {
            if op == Operator::Add {
                assert((s1 + s2).subrange(s1.len() as int, (s1 + s2).len() as int) =~= s2);
            }
        },
        (Val::Array(a1), Val::Array(a2)) => {
            if op == Operator::Add {
                assert((a1 + a2).subrange(a1.len() as int, (a1 + a2).len() as int) =~= a2);
            }
        },
        _ => {},
    }
}

/// Where the right operand is known: inverting what the operator made gives
/// the left operand.
pub proof fn lemma_right_preimage_found(op: Operator, v: Val, b: Val)
    requires
        invertible_operator(op),
        v.wf(),
        b.wf(),
        apply_operator(true, op, v, b) is Ok,
    ensures
        right_preimage(true, op, b, apply_operator(true, op, v, b)->Ok_0) is Ok ==> right_preimage(true, op,
            b,
            apply_operator(true, op, v, b)->Ok_0,
        ) == Ok::<Val, RuntimeError>(v),
{
    match (v, b) {
        (Val::Number(p), Val::Number(q)) => {
            if op == Operator::Add {
                lemma_sum_undone(p, q);
            } else if op == Operator::Sub {
                lemma_difference_undone(p, q);
            } else {
                lemma_quotient_undone(p, q);
            }
        },
        (Val::String(s1), Val::String(s2)) => {
            if op == Operator::Add {
                assert((s1 + s2).subrange(0, (s1 + s2).len() - s2.len()) =~= s1);
            }
        },
        (Val::Array(a1), Val::Array(a2)) => {
            if op == Operator::Add {
                assert((a1 + a2).subrange(0, (a1 + a2).len() - a2.len()) =~= a1);
            }
        },
        _ => {},
    }
}

/// The operators whose inverse exists wherever they were applied at all.
pub open spec fn sure_operator(op: Operator) -> bool {
    op == Operator::Add || op == Operator::Sub
}

/// Where `+` or `-` was inverted with the left operand known, applying it
/// to that operand and to what inverting gave makes the target.
pub proof fn lemma_left_preimage_applies(op: Operator, a: Val, x: Val)
    requires
        sure_operator(op),
        a.wf(),
        x.wf(),
        left_preimage(true, op, a, x) is Ok,
    ensures
        apply_operator(true, op, a, left_preimage(true, op, a, x)->Ok_0) == Ok::<Val, RuntimeError>(x),
{
    match (a, x) {
        (Val::Number(p), Val::Number(q)) => {
            if op == Operator::Add {
                lemma_difference_undone(q, p);
            } else {
                lemma_difference_undone(p, q);
            }
        },
        (Val::String(s1), Val::String(s2)) => {
            assert(s1 + s2.subrange(s1.len() as int, s2.len() as int) =~= s2);
        },
        (Val::Array(a1), Val::Array(a2)) => {
            assert(a1 + a2.subrange(a1.len() as int, a2.len() as int) =~= a2);
        },
        _ => {},
    }
}

/// Where `+` or `-` was inverted with the right operand known, applying it
/// to what inverting gave and to that operand makes the target.
pub proof fn lemma_right_preimage_applies(op: Operator, b: Val, x: Val)
    requires
        sure_operator(op),
        b.wf(),
        x.wf(),
        right_preimage(true, op, b, x) is Ok,
    ensures
        apply_operator(true, op, right_preimage(true, op, b, x)->Ok_0, b) == Ok::<Val, RuntimeError>(x),
{
    match (b, x) {
        (Val::Number(p), Val::Number(q)) => {
            if op == Operator::Add {
                lemma_difference_undone(q, p);
            } else {
                lemma_sum_undone(q, p);
            }
        },
        (Val::String(s1), Val::String(s2)) => {
            assert(s2.subrange(0, s2.len() - s1.len()) + s1 =~= s2);
        },
        (Val::Array(a1), Val::Array(a2)) => {
            assert(a2.subrange(0, a2.len() - a1.len()) + a1 =~= a2);
        },
        _ => {},
    }
}

/// What `+` or `-` made can be inverted with the left operand known, and
/// gives the right operand.
pub proof fn lemma_left_preimage_exists(op: Operator, a: Val, v: Val)
    requires
        sure_operator(op),
        a.wf(),
        v.wf(),
        apply_operator(true, op, a, v) is Ok,
    ensures
        left_preimage(true, op, a, apply_operator(true, op, a, v)->Ok_0) == Ok::<Val, RuntimeError>(v),
{
    match (a, v) {
        (Val::Number(p), Val::Number(q)) => {
            if op == Operator::Add {
                lemma_sum_undone(p, q);
            } else {
                lemma_difference_undone(p, q);
            }
        },
        (Val::String(s1), Val::String(s2)) => {
            assert((s1 + s2).subrange(0, s1.len() as int) =~= s1);
            assert((s1 + s2).subrange(s1.len() as int, (s1 + s2).len() as int) =~= s2);
        },
        (Val::Array(a1), Val::Array(a2)) => {
            assert((a1 + a2).subrange(0, a1.len() as int) =~= a1);
            assert((a1 + a2).subrange(a1.len() as int, (a1 + a2).len() as int) =~= a2);
        },
        _ => {},
    }
}

/// What `+` or `-` made can be inverted with the right operand known, and
/// gives the left operand.
pub proof fn lemma_right_preimage_exists(op: Operator, v: Val, b: Val)
    requires
        sure_operator(op),
        v.wf(),
        b.wf(),
        apply_operator(true, op, v, b) is Ok,
    ensures
        right_preimage(true, op, b, apply_operator(true, op, v, b)->Ok_0) == Ok::<Val, RuntimeError>(v),
{
    match (v, b) {
        (Val::Number(p), Val::Number(q)) => {
            if op == Operator::Add {
                lemma_sum_undone(p, q);
            } else {
                lemma_difference_undone(p, q);
            }
        },
        (Val::String(s1), Val::String(s2)) => {
            assert((s1 + s2).subrange((s1 + s2).len() - s2.len(), (s1 + s2).len() as int)
                =~= s2);
            assert((s1 + s2).subrange(0, (s1 + s2).len() - s2.len()) =~= s1);
        },
        (Val::Array(a1), Val::Array(a2)) => {
            assert((a1 + a2).subrange((a1 + a2).len() - a2.len(), (a1 + a2).len() as int)
                =~= a2);
            assert((a1 + a2).subrange(0, (a1 + a2).len() - a2.len()) =~= a1);
        },
        _ => {},
    }
}

/// A unary operator applied twice gives the value back.
pub proof fn lemma_unary_undone(op: UnaryOperator, v: Val)
    requires
        v.wf(),
        apply_unary(op, v) is Ok,
    ensures
        apply_unary(op, v)->Ok_0.wf(),
        apply_unary(op, apply_unary(op, v)->Ok_0) == Ok::<Val, RuntimeError>(v),
{
    match (op, v) {
        (UnaryOperator::Neg, Val::Number(n)) => {
            lemma_negation_undone(n);
            lemma_negation_undone(n.negated());
        },
        _ => {},
    }
}

/// Strings of one character each, joined, are the string they were cut from.
pub proof fn lemma_letters_joined(s: Seq<char>)
    ensures
        Val::joined(Val::letters(s)) == Some(s),
    decreases s.len(),
{
    if s.len() > 0 {
        let front = s.drop_last();
        lemma_letters_joined(front);
        assert(Val::letters(s).drop_last() =~= Val::letters(front));
        assert(front + seq![s.last()] =~= s);
    }
}

/// A cast between types that lose nothing is undone by the cast back.
pub proof fn lemma_cast_undone(v: Val, to: Type, from: Type)
    requires
        lossless(from, to),
        v.wf(),
        v.cast(to, from) is Ok,
    ensures
        v.cast(to, from)->Ok_0.wf(),
        v.cast(to, from)->Ok_0.cast(from, to) == Ok::<Val, RuntimeError>(v),
{
    if from != to {
        match v {
            Val::Number(n) => {
                lemma_parse_text(n);
            },
            Val::String(s) => {
                lemma_letters_joined(s);
                assert forall|i: int| 0 <= i < Val::letters(s).len() implies (
                #[trigger] Val::letters(s)[i]).wf() by {}
            },
            _ => {},
        }
    }
}

} // verus!
