//! Functions run forward and in reverse, rule by rule.
use crate::ast::{Expr, Functions, Transformation};
use crate::error::RuntimeError;
use crate::semantics;
use crate::value::{outcome, Val, Value};
use crate::variables::Variables;
use vstd::prelude::*;

verus! {

/// Once a rule fails, the failure is that of the run.
proof fn lemma_run_rules_stops(
    rules: Seq<Transformation>,
    i: nat,
    n: nat,
    value: Val,
    fns: semantics::Program,
    depth: nat,
)
    requires
        0 < i <= n <= rules.len(),
        semantics::run_rules(rules, i, value, fns, depth) is Err,
    ensures
        semantics::run_rules(rules, n, value, fns, depth) == semantics::run_rules(
            rules,
            i,
            value,
            fns,
            depth,
        ),
    decreases n,
{
    if i < n {
        lemma_run_rules_stops(rules, i, (n - 1) as nat, value, fns, depth);
    }
}

/// Once a rule fails in reverse, the failure is that of the run.
proof fn lemma_reverse_rules_stops(
    rules: Seq<Transformation>,
    i: nat,
    n: nat,
    value: Val,
    fns: semantics::Program,
    depth: nat,
)
    requires
        0 < i <= n <= rules.len(),
        semantics::reverse_rules(rules, i, value, fns, depth) is Err,
    ensures
        semantics::reverse_rules(rules, n, value, fns, depth) == semantics::reverse_rules(
            rules,
            i,
            value,
            fns,
            depth,
        ),
    decreases n,
{
    if i < n {
        lemma_reverse_rules_stops(rules, i, (n - 1) as nat, value, fns, depth);
    }
}

/// One rule applied to `value`: `value` is matched against `pattern` with no
/// bindings to start from, and `generator` is constructed from the bindings
/// made.
pub fn apply_rule(
    pattern: &Expr,
    generator: &Expr,
    value: &Value,
    functions: &Functions,
    depth: usize,
) -> (r: Result<Value, RuntimeError>)
    ensures
        outcome(r) == semantics::apply_rule(
            *pattern,
            *generator,
            value@,
            semantics::program(functions@),
            depth as nat,
        ),
    decreases 3 * depth + 2, Expr::Any, 0nat, 0nat,
{
    let mut env = Variables::new();
    match pattern.destruct(value, &mut env, functions, depth) {
        Ok(_) => {},
        Err(e) => {
            return Err(e);
        },
    }
    let made = match generator.construct(&mut env, functions, depth) {
        Ok(v) => v,
        Err(e) => {
            return Err(e);
        },
    };
    if env.drained() {
        Ok(made)
    } else {
        Err(RuntimeError::ValueErrorT)
    }
}

/// Runs the function `func` forward on `value`: each of its rules in order
/// is applied to what the one before made. It is a value error where there
/// is no such function. The rules may enter `depth` nested calls.
pub fn run_func(func: &Vec<char>, value: Value, functions: &Functions, depth: usize) -> (r: Result<
    Value,
    RuntimeError,
>)
    ensures
        outcome(r) == semantics::run(func@, value@, semantics::program(functions@), depth as nat),
    decreases 3 * depth + 3, Expr::Any, 0nat, 0nat,
{
    let rules = match functions.get(func) {
        Some(rules) => rules,
        None => {
            return Err(RuntimeError::ValueErrorT);
        },
    };
    let ghost input = value@;
    let mut current = value;
    let mut i: usize = 0;
    while i < rules.len()
        invariant
            i <= rules.len(),
            input == value@,
            functions@.contains_key(func@),
            rules@ == functions@[func@],
            Ok::<Val, RuntimeError>(current@) == semantics::run_rules(
                rules@,
                i as nat,
                input,
                semantics::program(functions@),
                depth as nat,
            ),
        decreases rules.len() - i,
    {
        match &rules[i] {
            Transformation::Forced { destruct, construct } => {
                match apply_rule(destruct, construct, &current, functions, depth) {
                    Ok(v) => {
                        current = v;
                    },
                    Err(e) => {
                        proof {
                            lemma_run_rules_stops(
                                rules@,
                                (i + 1) as nat,
                                rules@.len(),
                                input,
                                semantics::program(functions@),
                                depth as nat,
                            );
                        }
                        return Err(e);
                    },
                }
            },
        }
        i = i + 1;
    }
    Ok(current)
}

/// Runs the function `func` in reverse on `output`: its rules are taken from
/// the last to the first, each with its constructor as the pattern and its
/// pattern as the constructor.
pub fn reverse_run_func(
    func: &Vec<char>,
    output: Value,
    functions: &Functions,
    depth: usize,
) -> (r: Result<Value, RuntimeError>)
    ensures
        outcome(r) == semantics::reverse(func@, output@, semantics::program(functions@), depth as nat),
    decreases 3 * depth + 3, Expr::Any, 0nat, 0nat,
{
    let rules = match functions.get(func) {
        Some(rules) => rules,
        None => {
            return Err(RuntimeError::ValueErrorT);
        },
    };
    let ghost given = output@;
    let mut current = output;
    let mut i: usize = rules.len();
    while i > 0
        invariant
            i <= rules.len(),
            given == output@,
            functions@.contains_key(func@),
            rules@ == functions@[func@],
            Ok::<Val, RuntimeError>(current@) == semantics::reverse_rules(
                rules@,
                (rules.len() - i) as nat,
                given,
                semantics::program(functions@),
                depth as nat,
            ),
        decreases i,
    {
        i = i - 1;
        match &rules[i] {
            Transformation::Forced { destruct, construct } => {
                match apply_rule(construct, destruct, &current, functions, depth) {
                    Ok(v) => {
                        current = v;
                    },
                    Err(e) => {
                        proof {
                            lemma_reverse_rules_stops(
                                rules@,
                                (rules.len() - i) as nat,
                                rules@.len(),
                                given,
                                semantics::program(functions@),
                                depth as nat,
                            );
                        }
                        return Err(e);
                    },
                }
            },
        }
    }
    Ok(current)
}

} // verus!
