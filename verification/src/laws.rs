//! What holds of evaluation whatever the program and the value.
use crate::ast::Expr;
use crate::error::RuntimeError;
use crate::frames::{behind, lemma_construct_frame};
use crate::semantics::{apply_rule, construct, destruct, destruct_items, Program};
use crate::value::Val;
use crate::variables::Env;
use vstd::prelude::*;

verus! {

/// A pattern that names one identifier twice matches two values exactly where
/// they are the same, and then binds the identifier once; where they differ
/// it is a value error, with the identifier bound to the first.
///
/// `pattern` is the array of `name` and `name`, and `name` is free, or bound
/// to `first` already.
pub proof fn law_repeated_identifier(
    pattern: Expr,
    name: Seq<char>,
    first: Val,
    second: Val,
    env: Env,
    fns: Program,
    depth: nat,
)
    requires
        pattern matches Expr::Array(items) && items@.len() == 2 && (items@[0] matches Expr::Ident(
            a,
        ) && a@ == name) && (items@[1] matches Expr::Ident(b) && b@ == name),
        env.accepts(name, first),
    ensures
        first == second ==> destruct(pattern, Val::Array(seq![first, second]), env, fns, depth) == (
            Ok::<Option<Val>, RuntimeError>(None),
            env.bind(name, first),
        ),
        first != second ==> destruct(pattern, Val::Array(seq![first, second]), env, fns, depth) == (
            Err::<Option<Val>, RuntimeError>(RuntimeError::ValueErrorT),
            env.bind(name, first),
        ),
{
    let items = pattern->Array_0@;
    let targets = seq![first, second];
    assert(destruct_items(items, targets, 0, env, fns, depth) == (
        Ok::<Option<Seq<Val>>, RuntimeError>(Some(Seq::empty())),
        env,
    ));
    assert(destruct(items[0], targets[0], env, fns, depth) == (
        Ok::<Option<Val>, RuntimeError>(None),
        env.bind(name, first),
    ));
    assert(destruct_items(items, targets, 1, env, fns, depth) == (
        Ok::<Option<Seq<Val>>, RuntimeError>(None),
        env.bind(name, first),
    ));
    if first == second {
        assert(env.bind(name, first).bind(name, second).idents =~= env.bind(name, first).idents);
        assert(destruct(items[1], targets[1], env.bind(name, first), fns, depth) == (
            Ok::<Option<Val>, RuntimeError>(None),
            env.bind(name, first),
        ));
    } else {
        assert(destruct(items[1], targets[1], env.bind(name, first), fns, depth) == (
            Err::<Option<Val>, RuntimeError>(RuntimeError::ValueErrorT),
            env.bind(name, first),
        ));
    }
    assert(destruct_items(items, targets, 2, env, fns, depth).1 == env.bind(name, first));
}

/// A poly-identifier gives back what it captured, the oldest first: as a
/// pattern it puts the value behind what it holds, and as a constructor it
/// takes the value in front.
pub proof fn law_polyident_first_in_first_out(
    e: Expr,
    name: Seq<char>,
    value: Val,
    env: Env,
    fns: Program,
    depth: nat,
)
    requires
        e matches Expr::PolyIdent(i) && i@ == name,
    ensures
        destruct(e, value, env, fns, depth) == (
            Ok::<Option<Val>, RuntimeError>(None),
            env.capture(name, value),
        ),
        env.capture(name, value).queue(name) == env.queue(name).push(value),
        env.queue(name).len() > 0 ==> construct(e, env, fns, depth) == (
            Ok::<Val, RuntimeError>(env.queue(name)[0]),
            env.release(name),
        ) && env.release(name).queue(name) == env.queue(name).drop_first(),
        env.queue(name).len() == 0 ==> construct(e, env, fns, depth) == (
            Err::<Val, RuntimeError>(RuntimeError::ValueErrorT),
            env,
        ),
{
}

/// In a rule, what the poly-identifiers hold after the constructor is the end
/// of what the pattern captured: the constructor takes captures from the
/// front, in the order of capture, and adds none. The rule gives a value only
/// where the constructor took everything that the pattern captured: where the
/// pattern matches and the constructor makes a value, but a poly-identifier
/// still holds something, applying the rule is a value error.
pub proof fn law_polyident_drain(
    pattern: Expr,
    generator: Expr,
    value: Val,
    fns: Program,
    depth: nat,
)
    ensures
        ({
            let (matched, captured) = destruct(pattern, value, Env::empty(), fns, depth);
            let (made, left) = construct(generator, captured, fns, depth);
            &&& behind(left, captured)
            &&& apply_rule(pattern, generator, value, fns, depth) is Ok ==> matched is Ok
                && made is Ok && forall|name: Seq<char>| #[trigger] left.queue(name).len() == 0
            &&& matched is Ok && made is Ok && !left.drained() ==> apply_rule(
                pattern,
                generator,
                value,
                fns,
                depth,
            ) == Err::<Val, RuntimeError>(RuntimeError::ValueErrorT)
        }),
{
    let captured = destruct(pattern, value, Env::empty(), fns, depth).1;
    lemma_construct_frame(generator, captured, fns, depth);
}

} // verus!
