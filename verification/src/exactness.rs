//! Exact runs and the interpreter's runs.
//!
//! The interpreter's arithmetic never fails. A run is exact where `+`, `-`
//! and `/` met finite numbers only and gave exact results throughout; the
//! exact run of a program is a value error where that is not so. What the
//! exact run gives, the interpreter's run gives too, for expressions made of
//! what can be undone. So the laws of reversal, which hold of exact runs,
//! hold of the interpreter wherever its run is exact.
use crate::ast::{Expr, Transformation};
use crate::duality::{all_invertible, invertible, invertible_rules, law_reverse_undoes_run};
use crate::error::RuntimeError;
use crate::frames::{lemma_closed_construct, lemma_closed_construct_items};
use crate::reversal::{lemma_plain_rules_invertible, law_plain_reverse_undoes_run, plain_rules};
use crate::semantics::{
    apply_operator, apply_rule, apply_unary, construct, construct_items, destruct,
    destruct_items, destruct_operator, exactly, left_preimage, program, reverse, reverse_rules,
    right_preimage, run, run_rules, solve, Program,
};
use crate::value::Val;
use crate::variables::Env;
use vstd::prelude::*;

verus! {

/// What is constructed exactly is constructed so by the interpreter.
pub proof fn lemma_exact_construct(e: Expr, env: Env, fns: Program, depth: nat, pattern: bool)
    requires
        !fns.exact,
        invertible(e, pattern),
        construct(e, env, exactly(fns), depth).0 is Ok,
    ensures
        construct(e, env, fns, depth) == construct(e, env, exactly(fns), depth),
    decreases e, 0nat,
{
    let strict = exactly(fns);
    match e {
        Expr::Array(items) => {
            lemma_exact_construct_items(items@, items@.len(), env, fns, depth, pattern);
        },
        Expr::Tuple(items) => {
            lemma_exact_construct_items(items@, items@.len(), env, fns, depth, pattern);
        },
        Expr::Operator(op, left, right) => {
            lemma_exact_construct(*left, env, fns, depth, pattern);
            let env1 = construct(*left, env, strict, depth).1;
            lemma_exact_construct(*right, env1, fns, depth, pattern);
        },
        Expr::UnaryOp(_, operand) => {
            lemma_exact_construct(*operand, env, fns, depth, pattern);
        },
        Expr::Cast(operand, _, _) => {
            lemma_exact_construct(*operand, env, fns, depth, pattern);
        },
        _ => {},
    }
}

/// Constructing items in order: see [`lemma_exact_construct`].
pub proof fn lemma_exact_construct_items(
    items: Seq<Expr>,
    n: nat,
    env: Env,
    fns: Program,
    depth: nat,
    pattern: bool,
)
    requires
        !fns.exact,
        all_invertible(items, pattern),
        construct_items(items, n, env, exactly(fns), depth).0 is Ok,
    ensures
        construct_items(items, n, env, fns, depth) == construct_items(
            items,
            n,
            env,
            exactly(fns),
            depth,
        ),
    decreases items, n,
{
    if n == 0 || n > items.len() {
    } else {
        let strict = exactly(fns);
        lemma_exact_construct_items(items, (n - 1) as nat, env, fns, depth, pattern);
        let env1 = construct_items(items, (n - 1) as nat, env, strict, depth).1;
        lemma_exact_construct(items[n - 1], env1, fns, depth, pattern);
    }
}

/// What the interpreter constructs without any bindings, but not exactly, is
/// matched exactly by nothing.
pub proof fn lemma_inexact_unmatched(
    e: Expr,
    target: Val,
    env: Env,
    fns: Program,
    depth: nat,
    pattern: bool,
)
    requires
        !fns.exact,
        invertible(e, pattern),
        construct(e, Env::empty(), fns, depth).0 is Ok,
        construct(e, Env::empty(), exactly(fns), depth).0 is Err,
    ensures
        destruct(e, target, env, exactly(fns), depth).0 is Err,
    decreases e, 0nat,
{
    let strict = exactly(fns);
    let none = Env::empty();
    match e {
        Expr::Array(items) => {
            if let Val::Array(targets) = target {
                if items@.len() == targets.len() {
                    lemma_items_inexact_unmatched(
                        items@,
                        targets,
                        items@.len(),
                        env,
                        fns,
                        depth,
                        pattern,
                    );
                }
            }
        },
        Expr::Tuple(items) => {
            if let Val::Tuple(targets) = target {
                if items@.len() == targets.len() {
                    lemma_items_inexact_unmatched(
                        items@,
                        targets,
                        items@.len(),
                        env,
                        fns,
                        depth,
                        pattern,
                    );
                }
            }
        },
        Expr::Operator(op, left, right) => {
            lemma_closed_construct(*left, none, fns, depth);
            let known_left = construct(*left, none, strict, depth).0;
            let known_right = construct(*right, none, strict, depth).0;
            if known_left is Ok {
                lemma_closed_construct(*left, none, strict, depth);
            }
            match (known_left, known_right) {
                (Ok(a), Ok(b)) => {
                    assert(apply_operator(true, op, a, b) is Err);
                },
                (Ok(a), Err(_)) => {
                    let inner = left_preimage(true, op, a, target);
                    if inner is Ok {
                        lemma_inexact_unmatched(*right, inner->Ok_0, env, fns, depth, pattern);
                    }
                },
                (Err(_), Ok(b)) => {
                    let inner = right_preimage(true, op, b, target);
                    if inner is Ok {
                        lemma_inexact_unmatched(*left, inner->Ok_0, env, fns, depth, pattern);
                    }
                },
                (Err(_), Err(_)) => {},
            }
            assert(destruct_operator(e, target, env, strict, depth).0 is Err);
        },
        Expr::UnaryOp(op, operand) => {
            if construct(*operand, none, strict, depth).0 is Ok {
                lemma_exact_construct(*operand, none, fns, depth, pattern);
            }
            if apply_unary(op, target) is Ok {
                lemma_inexact_unmatched(
                    *operand,
                    apply_unary(op, target)->Ok_0,
                    env,
                    fns,
                    depth,
                    pattern,
                );
            }
        },
        Expr::Cast(operand, to, from) => {
            if construct(*operand, none, strict, depth).0 is Ok {
                lemma_exact_construct(*operand, none, fns, depth, pattern);
            }
            if target.cast(from, to) is Ok {
                lemma_inexact_unmatched(
                    *operand,
                    target.cast(from, to)->Ok_0,
                    env,
                    fns,
                    depth,
                    pattern,
                );
            }
        },
        _ => {},
    }
}

/// Matching items in order: see [`lemma_inexact_unmatched`].
pub proof fn lemma_items_inexact_unmatched(
    items: Seq<Expr>,
    targets: Seq<Val>,
    n: nat,
    env: Env,
    fns: Program,
    depth: nat,
    pattern: bool,
)
    requires
        !fns.exact,
        all_invertible(items, pattern),
        construct_items(items, n, Env::empty(), fns, depth).0 is Ok,
        construct_items(items, n, Env::empty(), exactly(fns), depth).0 is Err,
    ensures
        destruct_items(items, targets, n, env, exactly(fns), depth).0 is Err,
    decreases items, n,
{
    if n == 0 || n > items.len() {
    } else {
        let strict = exactly(fns);
        let none = Env::empty();
        let m = (n - 1) as nat;
        lemma_closed_construct_items(items, m, none, fns, depth);
        if construct_items(items, m, none, strict, depth).0 is Ok {
            lemma_closed_construct_items(items, m, none, strict, depth);
            let env1 = destruct_items(items, targets, m, env, strict, depth).1;
            lemma_inexact_unmatched(items[n - 1], targets[n - 1], env1, fns, depth, pattern);
        } else {
            lemma_items_inexact_unmatched(items, targets, m, env, fns, depth, pattern);
        }
    }
}

/// What is matched exactly is matched so by the interpreter.
pub proof fn lemma_exact_destruct(
    e: Expr,
    target: Val,
    env: Env,
    fns: Program,
    depth: nat,
    pattern: bool,
)
    requires
        !fns.exact,
        invertible(e, pattern),
        destruct(e, target, env, exactly(fns), depth).0 is Ok,
    ensures
        destruct(e, target, env, fns, depth) == destruct(e, target, env, exactly(fns), depth),
    decreases e, 0nat,
{
    let strict = exactly(fns);
    let none = Env::empty();
    match e {
        Expr::Array(items) => {
            if let Val::Array(targets) = target {
                lemma_exact_destruct_items(
                    items@,
                    targets,
                    items@.len(),
                    env,
                    fns,
                    depth,
                    pattern,
                );
            }
        },
        Expr::Tuple(items) => {
            if let Val::Tuple(targets) = target {
                lemma_exact_destruct_items(
                    items@,
                    targets,
                    items@.len(),
                    env,
                    fns,
                    depth,
                    pattern,
                );
            }
        },
        Expr::Operator(op, left, right) => {
            let known_left = construct(*left, none, strict, depth).0;
            let known_right = construct(*right, none, strict, depth).0;
            if known_left is Ok {
                lemma_exact_construct(*left, none, fns, depth, pattern);
            }
            if known_right is Ok {
                lemma_exact_construct(*right, none, fns, depth, pattern);
            }
            assert(destruct_operator(e, target, env, strict, depth).0 is Ok);
            match (known_left, known_right) {
                (Ok(a), Ok(b)) => {
                    lemma_exact_destruct(*left, a, env, fns, depth, pattern);
                    let env1 = destruct(*left, a, env, strict, depth).1;
                    lemma_exact_destruct(*right, b, env1, fns, depth, pattern);
                },
                (Ok(a), Err(_)) => {
                    let inner = left_preimage(true, op, a, target);
                    assert(solve(*right, inner, env, strict, depth).0 is Ok);
                    if construct(*right, none, fns, depth).0 is Ok {
                        lemma_inexact_unmatched(*right, inner->Ok_0, env, fns, depth, pattern);
                    }
                    lemma_exact_destruct(*right, inner->Ok_0, env, fns, depth, pattern);
                },
                (Err(_), Ok(b)) => {
                    let inner = right_preimage(true, op, b, target);
                    assert(solve(*left, inner, env, strict, depth).0 is Ok);
                    if construct(*left, none, fns, depth).0 is Ok {
                        lemma_inexact_unmatched(*left, inner->Ok_0, env, fns, depth, pattern);
                    }
                    lemma_exact_destruct(*left, inner->Ok_0, env, fns, depth, pattern);
                },
                (Err(_), Err(_)) => {},
            }
            assert(destruct_operator(e, target, env, fns, depth) == destruct_operator(
                e,
                target,
                env,
                strict,
                depth,
            ));
        },
        Expr::UnaryOp(op, operand) => {
            lemma_exact_destruct(
                *operand,
                apply_unary(op, target)->Ok_0,
                env,
                fns,
                depth,
                pattern,
            );
        },
        Expr::Cast(operand, to, from) => {
            lemma_exact_destruct(
                *operand,
                target.cast(from, to)->Ok_0,
                env,
                fns,
                depth,
                pattern,
            );
        },
        _ => {},
    }
}

/// Matching items in order: see [`lemma_exact_destruct`].
pub proof fn lemma_exact_destruct_items(
    items: Seq<Expr>,
    targets: Seq<Val>,
    n: nat,
    env: Env,
    fns: Program,
    depth: nat,
    pattern: bool,
)
    requires
        !fns.exact,
        all_invertible(items, pattern),
        destruct_items(items, targets, n, env, exactly(fns), depth).0 is Ok,
    ensures
        destruct_items(items, targets, n, env, fns, depth) == destruct_items(
            items,
            targets,
            n,
            env,
            exactly(fns),
            depth,
        ),
    decreases items, n,
{
    if n == 0 || n > items.len() {
    } else {
        let strict = exactly(fns);
        lemma_exact_destruct_items(items, targets, (n - 1) as nat, env, fns, depth, pattern);
        let env1 = destruct_items(items, targets, (n - 1) as nat, env, strict, depth).1;
        lemma_exact_destruct(items[n - 1], targets[n - 1], env1, fns, depth, pattern);
    }
}

/// What a rule gives exactly, it gives as the interpreter applies it.
pub proof fn lemma_exact_rule(
    pattern: Expr,
    generator: Expr,
    x: Val,
    fns: Program,
    depth: nat,
    forward: bool,
)
    requires
        !fns.exact,
        invertible(pattern, forward),
        invertible(generator, !forward),
        apply_rule(pattern, generator, x, exactly(fns), depth) is Ok,
    ensures
        apply_rule(pattern, generator, x, fns, depth) == apply_rule(
            pattern,
            generator,
            x,
            exactly(fns),
            depth,
        ),
{
    let strict = exactly(fns);
    lemma_exact_destruct(pattern, x, Env::empty(), fns, depth, forward);
    let bound = destruct(pattern, x, Env::empty(), strict, depth).1;
    lemma_exact_construct(generator, bound, fns, depth, !forward);
}

/// What rules give exactly, they give as the interpreter runs them.
pub proof fn lemma_exact_rules(
    rules: Seq<Transformation>,
    n: nat,
    x: Val,
    fns: Program,
    depth: nat,
)
    requires
        !fns.exact,
        invertible_rules(rules),
        run_rules(rules, n, x, exactly(fns), depth) is Ok,
    ensures
        run_rules(rules, n, x, fns, depth) == run_rules(rules, n, x, exactly(fns), depth),
    decreases n,
{
    if n == 0 || n > rules.len() {
    } else {
        let strict = exactly(fns);
        lemma_exact_rules(rules, (n - 1) as nat, x, fns, depth);
        let v = run_rules(rules, (n - 1) as nat, x, strict, depth)->Ok_0;
        lemma_exact_rule(rules[n - 1]->destruct, rules[n - 1]->construct, v, fns, depth, true);
    }
}

/// What rules give exactly in reverse, they give as the interpreter runs
/// them in reverse.
pub proof fn lemma_exact_rules_reversed(
    rules: Seq<Transformation>,
    n: nat,
    y: Val,
    fns: Program,
    depth: nat,
)
    requires
        !fns.exact,
        invertible_rules(rules),
        reverse_rules(rules, n, y, exactly(fns), depth) is Ok,
    ensures
        reverse_rules(rules, n, y, fns, depth) == reverse_rules(rules, n, y, exactly(fns), depth),
    decreases n,
{
    if n == 0 || n > rules.len() {
    } else {
        let strict = exactly(fns);
        lemma_exact_rules_reversed(rules, (n - 1) as nat, y, fns, depth);
        let v = reverse_rules(rules, (n - 1) as nat, y, strict, depth)->Ok_0;
        let rule = rules[rules.len() - n];
        lemma_exact_rule(rule->construct, rule->destruct, v, fns, depth, false);
    }
}

/// Where the interpreter's run of a function is exact, running the function
/// in reverse on what it made gives the value that it was run on, provided
/// that the reverse run is exact too.
///
/// This is said of the functions whose rules are made of literals,
/// identifiers, poly-identifiers, the wildcard, arrays, tuples, the operators
/// `+`, `-` and `/`, the unary operators, and casts that lose nothing on the
/// way back.
pub proof fn law_exact_run_reversed(
    name: Seq<char>,
    x: Val,
    rules: Map<Seq<char>, Seq<Transformation>>,
    depth: nat,
)
    requires
        rules.contains_key(name),
        invertible_rules(rules[name]),
        x.wf(),
        run(name, x, exactly(program(rules)), depth) is Ok,
        reverse(
            name,
            run(name, x, exactly(program(rules)), depth)->Ok_0,
            exactly(program(rules)),
            depth,
        ) is Ok,
    ensures
        run(name, x, program(rules), depth) == run(name, x, exactly(program(rules)), depth),
        reverse(name, run(name, x, program(rules), depth)->Ok_0, program(rules), depth) == Ok::<
            Val,
            RuntimeError,
        >(x),
{
    let fns = program(rules);
    let strict = exactly(fns);
    let y = run(name, x, strict, depth)->Ok_0;
    let d = depth;
    law_reverse_undoes_run(name, x, strict, depth);
    lemma_exact_rules(rules[name], rules[name].len(), x, fns, d);
    lemma_exact_rules_reversed(rules[name], rules[name].len(), y, fns, d);
}

/// Where the interpreter's run of a function of plain rules is exact,
/// running the function in reverse on what it made gives the value that it
/// was run on.
pub proof fn law_plain_exact_run_reversed(
    name: Seq<char>,
    x: Val,
    rules: Map<Seq<char>, Seq<Transformation>>,
    depth: nat,
)
    requires
        rules.contains_key(name),
        plain_rules(rules[name]),
        x.wf(),
        run(name, x, exactly(program(rules)), depth) is Ok,
    ensures
        run(name, x, program(rules), depth) == run(name, x, exactly(program(rules)), depth),
        reverse(name, run(name, x, program(rules), depth)->Ok_0, program(rules), depth) == Ok::<
            Val,
            RuntimeError,
        >(x),
{
    let fns = program(rules);
    let strict = exactly(fns);
    let y = run(name, x, strict, depth)->Ok_0;
    let d = depth;
    law_plain_reverse_undoes_run(name, x, strict, depth);
    lemma_plain_rules_invertible(rules[name]);
    lemma_exact_rules(rules[name], rules[name].len(), x, fns, d);
    lemma_exact_rules_reversed(rules[name], rules[name].len(), y, fns, d);
}

} // verus!
