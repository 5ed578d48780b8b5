//! Functions whose exact reverse run is sure to give the input back.
//!
//! Throughout, the program is run exactly; what holds of the interpreter's
//! runs follows in `exactness`. This holds of the functions whose rules are plain: made of literals,
//! identifiers, poly-identifiers, arrays, tuples, the unary operators, casts
//! that lose nothing, and `+` and `-` with one side at least that holds no
//! identifier; and whose constructors name every identifier that their
//! patterns name.
use crate::ast::{Expr, Operator, Transformation};
use crate::chars::same_chars;
use crate::duality::loses_nothing;
use crate::duality::{
    all_invertible, conserved, invertible, invertible_rules, lemma_closed_destruct,
    lemma_moved_back, lemma_reverse_rules_last, lemma_rules_wf, lemma_run_rules_front,
    lemma_construct_items_len, lemma_construct_items_wf, lemma_construct_wf,
    lemma_destruct_items_wf, lemma_destruct_wf, lemma_items_made_then_matched,
    lemma_items_matched_then_made, lemma_made_then_matched, lemma_matched_then_made,
};
use crate::error::RuntimeError;
use crate::frames::{ahead, lemma_ahead_of_itself, lemma_closed_construct, lemma_closed_construct_items, lemma_destruct_frame, lemma_grows_on, within};
use crate::inverses::{
    lemma_cast_undone, lemma_left_preimage_applied, lemma_left_preimage_applies,
    lemma_left_preimage_exists, lemma_right_preimage_applied, lemma_right_preimage_applies,
    lemma_right_preimage_exists, lemma_unary_undone, lossless, sure_operator,
};
use crate::semantics::{
    apply_operator, apply_rule, apply_unary, construct, construct_items, destruct,
    destruct_items, destruct_operator, left_preimage, reverse, reverse_rules, right_preimage,
    run, run_rules, Program,
};
use crate::value::Val;
use crate::variables::Env;
use vstd::prelude::*;

verus! {

/// `e` holds no identifier, poly-identifier, wildcard or call.
pub open spec fn ground(e: Expr) -> bool
    decreases e,
{
    match e {
        Expr::Number(_) => true,
        Expr::String(_, _) => true,
        Expr::Bool(_) => true,
        Expr::Ident(_) => false,
        Expr::PolyIdent(_) => false,
        Expr::Any => false,
        Expr::Call(_, _) => false,
        Expr::Array(items) => forall|i: int| 0 <= i < items@.len() ==> ground(#[trigger] items@[i]),
        Expr::Tuple(items) => forall|i: int| 0 <= i < items@.len() ==> ground(#[trigger] items@[i]),
        Expr::Operator(_, left, right) => ground(*left) && ground(*right),
        Expr::UnaryOp(_, operand) => ground(*operand),
        Expr::Cast(operand, _, _) => ground(*operand),
    }
}

/// All of `items` are ground.
pub open spec fn all_ground(items: Seq<Expr>) -> bool {
    forall|i: int| 0 <= i < items.len() ==> ground(#[trigger] items[i])
}

/// `e` is plain: made of what can be undone for sure. See [`invertible`] for
/// `pattern`.
pub open spec fn plain(e: Expr, pattern: bool) -> bool
    decreases e,
{
    match e {
        Expr::Number(n) => n@.wf(),
        Expr::String(_, _) => true,
        Expr::Bool(_) => true,
        Expr::Ident(_) => true,
        Expr::PolyIdent(_) => true,
        Expr::Any => false,
        Expr::Call(_, _) => false,
        Expr::Array(items) => forall|i: int|
            0 <= i < items@.len() ==> plain(#[trigger] items@[i], pattern),
        Expr::Tuple(items) => forall|i: int|
            0 <= i < items@.len() ==> plain(#[trigger] items@[i], pattern),
        Expr::Operator(op, left, right) => sure_operator(op) && plain(*left, pattern) && plain(
            *right,
            pattern,
        ) && (ground(*left) || ground(*right)),
        Expr::UnaryOp(_, operand) => plain(*operand, pattern),
        Expr::Cast(operand, to, from) => plain(*operand, pattern) && if pattern {
            lossless(to, from)
        } else {
            lossless(from, to)
        },
    }
}

/// All of `items` are plain.
pub open spec fn all_plain(items: Seq<Expr>, pattern: bool) -> bool {
    forall|i: int| 0 <= i < items.len() ==> plain(#[trigger] items[i], pattern)
}

/// The identifier `name` stands somewhere in `e`.
pub open spec fn occurs(e: Expr, name: Seq<char>) -> bool
    decreases e,
{
    match e {
        Expr::Ident(i) => i@ == name,
        Expr::Array(items) => exists|i: int|
            0 <= i < items@.len() && occurs(#[trigger] items@[i], name),
        Expr::Tuple(items) => exists|i: int|
            0 <= i < items@.len() && occurs(#[trigger] items@[i], name),
        Expr::Operator(_, left, right) => occurs(*left, name) || occurs(*right, name),
        Expr::UnaryOp(_, operand) => occurs(*operand, name),
        Expr::Cast(operand, _, _) => occurs(*operand, name),
        Expr::Call(_, argument) => occurs(*argument, name),
        _ => false,
    }
}

/// The identifier `name` stands somewhere in the first `n` of `items`.
pub open spec fn occurs_among(items: Seq<Expr>, n: nat, name: Seq<char>) -> bool {
    exists|i: int| 0 <= i < n && i < items.len() && occurs(#[trigger] items[i], name)
}

/// What is plain can be undone.
pub proof fn lemma_plain_invertible(e: Expr, pattern: bool)
    requires
        plain(e, pattern),
    ensures
        invertible(e, pattern),
    decreases e,
{
    match e {
        Expr::Array(items) => {
            assert forall|i: int| 0 <= i < items@.len() implies invertible(
                #[trigger] items@[i],
                pattern,
            ) by {
                lemma_plain_invertible(items@[i], pattern);
            }
        },
        Expr::Tuple(items) => {
            assert forall|i: int| 0 <= i < items@.len() implies invertible(
                #[trigger] items@[i],
                pattern,
            ) by {
                lemma_plain_invertible(items@[i], pattern);
            }
        },
        Expr::Operator(_, left, right) => {
            lemma_plain_invertible(*left, pattern);
            lemma_plain_invertible(*right, pattern);
        },
        Expr::UnaryOp(_, operand) => {
            lemma_plain_invertible(*operand, pattern);
        },
        Expr::Cast(operand, _, _) => {
            lemma_plain_invertible(*operand, pattern);
        },
        _ => {},
    }
}

/// Plain items can be undone.
pub proof fn lemma_all_plain_invertible(items: Seq<Expr>, pattern: bool)
    requires
        all_plain(items, pattern),
    ensures
        all_invertible(items, pattern),
{
    assert forall|i: int| 0 <= i < items.len() implies invertible(#[trigger] items[i], pattern) by {
        lemma_plain_invertible(items[i], pattern);
    }
}

/// No identifier stands in what is ground.
pub proof fn lemma_ground_names_nothing(e: Expr, name: Seq<char>)
    requires
        ground(e),
    ensures
        !occurs(e, name),
    decreases e,
{
    match e {
        Expr::Array(items) => {
            assert forall|i: int| 0 <= i < items@.len() implies !occurs(
                #[trigger] items@[i],
                name,
            ) by {
                lemma_ground_names_nothing(items@[i], name);
            }
        },
        Expr::Tuple(items) => {
            assert forall|i: int| 0 <= i < items@.len() implies !occurs(
                #[trigger] items@[i],
                name,
            ) by {
                lemma_ground_names_nothing(items@[i], name);
            }
        },
        Expr::Operator(_, left, right) => {
            lemma_ground_names_nothing(*left, name);
            lemma_ground_names_nothing(*right, name);
        },
        Expr::UnaryOp(_, operand) => {
            lemma_ground_names_nothing(*operand, name);
        },
        Expr::Cast(operand, _, _) => {
            lemma_ground_names_nothing(*operand, name);
        },
        _ => {},
    }
}

/// What is ground is constructed from any bindings as it is constructed from
/// none, and leaves them as they are.
pub proof fn lemma_ground_construct(e: Expr, env: Env, fns: Program, depth: nat, pattern: bool)
    requires
        plain(e, pattern),
        ground(e),
    ensures
        construct(e, env, fns, depth) == (construct(e, Env::empty(), fns, depth).0, env),
    decreases e, 0nat,
{
    let none = Env::empty();
    match e {
        Expr::Array(items) => {
            lemma_ground_construct_items(items@, items@.len(), env, fns, depth, pattern);
        },
        Expr::Tuple(items) => {
            lemma_ground_construct_items(items@, items@.len(), env, fns, depth, pattern);
        },
        Expr::Operator(_, left, right) => {
            lemma_ground_construct(*left, env, fns, depth, pattern);
            lemma_ground_construct(*left, none, fns, depth, pattern);
            lemma_ground_construct(*right, env, fns, depth, pattern);
            lemma_ground_construct(*right, none, fns, depth, pattern);
        },
        Expr::UnaryOp(_, operand) => {
            lemma_ground_construct(*operand, env, fns, depth, pattern);
        },
        Expr::Cast(operand, _, _) => {
            lemma_ground_construct(*operand, env, fns, depth, pattern);
        },
        _ => {},
    }
}

/// Ground items constructed in order: see [`lemma_ground_construct`].
pub proof fn lemma_ground_construct_items(
    items: Seq<Expr>,
    n: nat,
    env: Env,
    fns: Program,
    depth: nat,
    pattern: bool,
)
    requires
        all_plain(items, pattern),
        all_ground(items),
    ensures
        construct_items(items, n, env, fns, depth) == (
            construct_items(items, n, Env::empty(), fns, depth).0,
            env,
        ),
    decreases items, n,
{
    let none = Env::empty();
    if n == 0 || n > items.len() {
    } else {
        lemma_ground_construct_items(items, (n - 1) as nat, env, fns, depth, pattern);
        lemma_ground_construct_items(items, (n - 1) as nat, none, fns, depth, pattern);
        lemma_ground_construct(items[n - 1], env, fns, depth, pattern);
        lemma_ground_construct(items[n - 1], none, fns, depth, pattern);
    }
}

/// What is not ground cannot be constructed without bindings.
pub proof fn lemma_not_ground_unknown(e: Expr, fns: Program, depth: nat, pattern: bool)
    requires
        plain(e, pattern),
        !ground(e),
    ensures
        construct(e, Env::empty(), fns, depth).0 is Err,
    decreases e, 0nat,
{
    let none = Env::empty();
    match e {
        Expr::Array(items) => {
            let k = choose|k: int| 0 <= k < items@.len() && !ground(#[trigger] items@[k]);
            lemma_items_unknown(items@, items@.len(), k as nat, fns, depth, pattern);
        },
        Expr::Tuple(items) => {
            let k = choose|k: int| 0 <= k < items@.len() && !ground(#[trigger] items@[k]);
            lemma_items_unknown(items@, items@.len(), k as nat, fns, depth, pattern);
        },
        Expr::Operator(_, left, right) => {
            if !ground(*left) {
                lemma_not_ground_unknown(*left, fns, depth, pattern);
            } else {
                lemma_not_ground_unknown(*right, fns, depth, pattern);
                if construct(*left, none, fns, depth).0 is Ok {
                    lemma_closed_construct(*left, none, fns, depth);
                }
            }
        },
        Expr::UnaryOp(_, operand) => {
            lemma_not_ground_unknown(*operand, fns, depth, pattern);
        },
        Expr::Cast(operand, _, _) => {
            lemma_not_ground_unknown(*operand, fns, depth, pattern);
        },
        _ => {},
    }
}

/// Items of which one is not ground cannot be constructed without bindings.
pub proof fn lemma_items_unknown(
    items: Seq<Expr>,
    n: nat,
    k: nat,
    fns: Program,
    depth: nat,
    pattern: bool,
)
    requires
        all_plain(items, pattern),
        k < n <= items.len(),
        !ground(items[k as int]),
    ensures
        construct_items(items, n, Env::empty(), fns, depth).0 is Err,
    decreases items, n,
{
    let none = Env::empty();
    if k + 1 < n {
        lemma_items_unknown(items, (n - 1) as nat, k, fns, depth, pattern);
    } else {
        let (front, env1) = construct_items(items, (n - 1) as nat, none, fns, depth);
        if front is Ok {
            lemma_closed_construct_items(items, (n - 1) as nat, none, fns, depth);
            lemma_not_ground_unknown(items[k as int], fns, depth, pattern);
        }
    }
}

/// A plain constructor matches what it made.
///
/// `source` is what the value was made from, `held` what has been bound on
/// the way back so far.
pub proof fn lemma_match_succeeds(
    e: Expr,
    source: Env,
    held: Env,
    total: Env,
    fns: Program,
    depth: nat,
)
    requires
        fns.exact,
        plain(e, false),
        source.wf(),
        held.wf(),
        construct(e, source, fns, depth).0 is Ok,
        within(held, source),
        conserved(held, source, total),
    ensures
        destruct(e, construct(e, source, fns, depth).0->Ok_0, held, fns, depth).0 is Ok,
    decreases e, 1nat,
{
    lemma_plain_invertible(e, false);
    let made = construct(e, source, fns, depth).0->Ok_0;
    match e {
        Expr::Array(items) => {
            lemma_construct_items_len(items@, items@.len(), source, fns, depth);
            let vs = construct_items(items@, items@.len(), source, fns, depth).0->Ok_0;
            assert(made == Val::Array(vs));
            assert(vs.subrange(0, items@.len() as int) =~= vs);
            lemma_items_match_succeed(items@, vs, items@.len(), source, held, total, fns, depth);
        },
        Expr::Tuple(items) => {
            lemma_construct_items_len(items@, items@.len(), source, fns, depth);
            let vs = construct_items(items@, items@.len(), source, fns, depth).0->Ok_0;
            assert(made == Val::Tuple(vs));
            assert(vs.subrange(0, items@.len() as int) =~= vs);
            lemma_items_match_succeed(items@, vs, items@.len(), source, held, total, fns, depth);
        },
        Expr::Ident(i) => {
            assert(held.accepts(i@, made));
        },
        Expr::Operator(op, left, right) => {
            lemma_operator_match_succeeds(e, source, held, total, fns, depth);
        },
        Expr::UnaryOp(op, operand) => {
            lemma_plain_invertible(*operand, false);
            lemma_construct_wf(*operand, source, fns, depth, false);
            let v = construct(*operand, source, fns, depth).0->Ok_0;
            lemma_unary_undone(op, v);
            lemma_match_succeeds(*operand, source, held, total, fns, depth);
        },
        Expr::Cast(operand, to, from) => {
            lemma_plain_invertible(*operand, false);
            lemma_construct_wf(*operand, source, fns, depth, false);
            let v = construct(*operand, source, fns, depth).0->Ok_0;
            lemma_cast_undone(v, to, from);
            lemma_match_succeeds(*operand, source, held, total, fns, depth);
        },
        _ => {},
    }
}

/// A plain operator matches what it made: see [`lemma_match_succeeds`].
pub proof fn lemma_operator_match_succeeds(
    e: Expr,
    source: Env,
    held: Env,
    total: Env,
    fns: Program,
    depth: nat,
)
    requires
        fns.exact,
        e is Operator,
        plain(e, false),
        source.wf(),
        held.wf(),
        construct(e, source, fns, depth).0 is Ok,
        within(held, source),
        conserved(held, source, total),
    ensures
        destruct_operator(e, construct(e, source, fns, depth).0->Ok_0, held, fns, depth).0 is Ok,
    decreases e, 0nat,
{
    let op = e->Operator_0;
    let left = *e->Operator_1;
    let right = *e->Operator_2;
    let none = Env::empty();
    lemma_plain_invertible(left, false);
    lemma_plain_invertible(right, false);
    let made = construct(e, source, fns, depth).0->Ok_0;
    let (ra, s1) = construct(left, source, fns, depth);
    let (rb, s2) = construct(right, s1, fns, depth);
    lemma_construct_wf(left, source, fns, depth, false);
    lemma_construct_wf(right, s1, fns, depth, false);
    let va = ra->Ok_0;
    let vb = rb->Ok_0;
    assert(made == apply_operator(fns.exact, op, va, vb)->Ok_0);
    let known_left = construct(left, none, fns, depth).0;
    let known_right = construct(right, none, fns, depth).0;
    if ground(left) {
        lemma_ground_construct(left, source, fns, depth, false);
    }
    if ground(right) {
        lemma_ground_construct(right, s1, fns, depth, false);
    }
    match (known_left, known_right) {
        (Ok(a), Ok(b)) => {
            lemma_closed_construct(left, source, fns, depth);
            lemma_closed_construct(right, source, fns, depth);
            lemma_match_succeeds(left, source, held, total, fns, depth);
            lemma_made_then_matched(left, source, held, total, fns, depth);
            lemma_destruct_wf(left, a, held, fns, depth, false);
            let h1 = destruct(left, a, held, fns, depth).1;
            lemma_match_succeeds(right, source, h1, total, fns, depth);
        },
        (Ok(a), Err(_)) => {
            lemma_closed_construct(left, source, fns, depth);
            lemma_left_preimage_exists(op, a, vb);
            lemma_match_succeeds(right, source, held, total, fns, depth);
        },
        (Err(_), Ok(b)) => {
            lemma_closed_construct(right, s1, fns, depth);
            lemma_right_preimage_exists(op, va, b);
            lemma_match_succeeds(left, source, held, total, fns, depth);
        },
        (Err(_), Err(_)) => {
            assert(false);
        },
    }
}

/// Plain items match what they made: see [`lemma_match_succeeds`].
pub proof fn lemma_items_match_succeed(
    items: Seq<Expr>,
    targets: Seq<Val>,
    n: nat,
    source: Env,
    held: Env,
    total: Env,
    fns: Program,
    depth: nat,
)
    requires
        fns.exact,
        all_plain(items, false),
        n <= items.len(),
        items.len() == targets.len(),
        source.wf(),
        held.wf(),
        construct_items(items, n, source, fns, depth).0 is Ok,
        construct_items(items, n, source, fns, depth).0->Ok_0 == targets.subrange(0, n as int),
        within(held, source),
        conserved(held, source, total),
    ensures
        destruct_items(items, targets, n, held, fns, depth).0 is Ok,
    decreases items, n,
{
    lemma_all_plain_invertible(items, false);
    if n > 0 {
        lemma_construct_items_len(items, n, source, fns, depth);
        let (front, s1) = construct_items(items, (n - 1) as nat, source, fns, depth);
        assert(targets.subrange(0, n as int).subrange(0, n - 1) =~= targets.subrange(0, n - 1));
        lemma_items_match_succeed(
            items,
            targets,
            (n - 1) as nat,
            source,
            held,
            total,
            fns,
            depth,
        );
        lemma_items_made_then_matched(
            items,
            targets,
            (n - 1) as nat,
            source,
            held,
            total,
            fns,
            depth,
        );
        let h1 = destruct_items(items, targets, (n - 1) as nat, held, fns, depth).1;
        lemma_construct_items_wf(items, (n - 1) as nat, source, fns, depth, false);
        let (r, s2) = construct(items[n - 1], s1, fns, depth);
        assert(construct_items(items, n, source, fns, depth).0->Ok_0 == front->Ok_0.push(
            r->Ok_0,
        ));
        assert(r->Ok_0 == targets.subrange(0, n as int)[n - 1]);
        assert(within(h1, s1));
        lemma_match_succeeds(items[n - 1], s1, h1, total, fns, depth);
    }
}

/// A pattern that matched has bound every identifier that stands in it.
pub proof fn lemma_match_binds(
    e: Expr,
    target: Val,
    env: Env,
    name: Seq<char>,
    fns: Program,
    depth: nat,
    pattern: bool,
)
    requires
        plain(e, pattern),
        destruct(e, target, env, fns, depth).0 is Ok,
        occurs(e, name),
    ensures
        destruct(e, target, env, fns, depth).1.idents.contains_key(name),
    decreases e, 1nat,
{
    match e {
        Expr::Array(items) => {
            let k = choose|k: int| 0 <= k < items@.len() && occurs(#[trigger] items@[k], name);
            lemma_items_match_bind(
                items@,
                target->Array_0,
                items@.len(),
                k as nat,
                env,
                name,
                fns,
                depth,
                pattern,
            );
        },
        Expr::Tuple(items) => {
            let k = choose|k: int| 0 <= k < items@.len() && occurs(#[trigger] items@[k], name);
            lemma_items_match_bind(
                items@,
                target->Tuple_0,
                items@.len(),
                k as nat,
                env,
                name,
                fns,
                depth,
                pattern,
            );
        },
        Expr::Operator(op, left, right) => {
            let none = Env::empty();
            let known_left = construct(*left, none, fns, depth).0;
            let known_right = construct(*right, none, fns, depth).0;
            if known_left is Ok {
                if !ground(*left) {
                    lemma_not_ground_unknown(*left, fns, depth, pattern);
                }
                lemma_ground_names_nothing(*left, name);
            }
            if known_right is Ok {
                if !ground(*right) {
                    lemma_not_ground_unknown(*right, fns, depth, pattern);
                }
                lemma_ground_names_nothing(*right, name);
            }
            assert(destruct(e, target, env, fns, depth) == destruct_operator(
                e,
                target,
                env,
                fns,
                depth,
            ));
            match (known_left, known_right) {
                (Ok(a), Err(_)) => {
                    assert(left_preimage(fns.exact, op, a, target) is Ok);
                    let inner = left_preimage(fns.exact, op, a, target)->Ok_0;
                    assert(destruct(*right, inner, env, fns, depth).0 is Ok);
                    lemma_match_binds(*right, inner, env, name, fns, depth, pattern);
                },
                (Err(_), Ok(b)) => {
                    assert(right_preimage(fns.exact, op, b, target) is Ok);
                    let inner = right_preimage(fns.exact, op, b, target)->Ok_0;
                    assert(destruct(*left, inner, env, fns, depth).0 is Ok);
                    lemma_match_binds(*left, inner, env, name, fns, depth, pattern);
                },
                _ => {},
            }
        },
        Expr::UnaryOp(op, operand) => {
            lemma_match_binds(
                *operand,
                apply_unary(op, target)->Ok_0,
                env,
                name,
                fns,
                depth,
                pattern,
            );
        },
        Expr::Cast(operand, to, from) => {
            lemma_match_binds(
                *operand,
                target.cast(from, to)->Ok_0,
                env,
                name,
                fns,
                depth,
                pattern,
            );
        },
        _ => {},
    }
}

/// Items that matched have bound every identifier that stands in them.
pub proof fn lemma_items_match_bind(
    items: Seq<Expr>,
    targets: Seq<Val>,
    n: nat,
    k: nat,
    env: Env,
    name: Seq<char>,
    fns: Program,
    depth: nat,
    pattern: bool,
)
    requires
        all_plain(items, pattern),
        k < n <= items.len(),
        destruct_items(items, targets, n, env, fns, depth).0 is Ok,
        occurs(items[k as int], name),
    ensures
        destruct_items(items, targets, n, env, fns, depth).1.idents.contains_key(name),
    decreases items, n,
{
    let (front, env1) = destruct_items(items, targets, (n - 1) as nat, env, fns, depth);
    if k + 1 < n {
        lemma_items_match_bind(items, targets, (n - 1) as nat, k, env, name, fns, depth, pattern);
        lemma_destruct_frame(items[n - 1], targets[n - 1], env1, fns, depth);
    } else {
        lemma_match_binds(items[n - 1], targets[n - 1], env1, name, fns, depth, pattern);
    }
}

/// A plain pattern can be constructed from what it bound when it matched.
///
/// `base` is what was bound before the match, `given` what the constructor
/// starts from, and `whole` what was bound when all matching was done.
pub proof fn lemma_make_succeeds(
    e: Expr,
    x: Val,
    base: Env,
    given: Env,
    whole: Env,
    fns: Program,
    depth: nat,
)
    requires
        fns.exact,
        plain(e, true),
        x.wf(),
        base.wf(),
        given.wf(),
        destruct(e, x, base, fns, depth).0 is Ok,
        within(destruct(e, x, base, fns, depth).1, whole),
        ahead(destruct(e, x, base, fns, depth).1, whole),
        within(given, whole),
        conserved(base, given, whole),
        forall|name: Seq<char>| occurs(e, name) ==> given.idents.contains_key(name),
    ensures
        construct(e, given, fns, depth).0 is Ok,
    decreases e, 1nat,
{
    lemma_plain_invertible(e, true);
    match e {
        Expr::Array(items) => {
            let xs = x->Array_0;
            assert forall|name: Seq<char>|
                occurs_among(items@, items@.len(), name) implies given.idents.contains_key(
                name,
            ) by {
                assert(occurs(e, name));
            }
            lemma_items_make_succeed(items@, xs, items@.len(), base, given, whole, fns, depth);
        },
        Expr::Tuple(items) => {
            let xs = x->Tuple_0;
            assert forall|name: Seq<char>|
                occurs_among(items@, items@.len(), name) implies given.idents.contains_key(
                name,
            ) by {
                assert(occurs(e, name));
            }
            lemma_items_make_succeed(items@, xs, items@.len(), base, given, whole, fns, depth);
        },
        Expr::Ident(i) => {
            assert(occurs(e, i@));
        },
        Expr::PolyIdent(i) => {
            lemma_moved_back(base, given, whole, i@, x);
        },
        Expr::Operator(op, left, right) => {
            lemma_operator_make_succeeds(e, x, base, given, whole, fns, depth);
        },
        Expr::UnaryOp(op, operand) => {
            lemma_plain_invertible(*operand, true);
            lemma_unary_undone(op, x);
            let inner = apply_unary(op, x)->Ok_0;
            assert forall|name: Seq<char>| occurs(*operand, name) implies given.idents.contains_key(
                name,
            ) by {
                assert(occurs(e, name));
            }
            lemma_make_succeeds(*operand, inner, base, given, whole, fns, depth);
            lemma_matched_then_made(*operand, inner, base, given, whole, fns, depth);
        },
        Expr::Cast(operand, to, from) => {
            lemma_plain_invertible(*operand, true);
            lemma_cast_undone(x, from, to);
            let inner = x.cast(from, to)->Ok_0;
            assert forall|name: Seq<char>| occurs(*operand, name) implies given.idents.contains_key(
                name,
            ) by {
                assert(occurs(e, name));
            }
            lemma_make_succeeds(*operand, inner, base, given, whole, fns, depth);
            lemma_matched_then_made(*operand, inner, base, given, whole, fns, depth);
        },
        _ => {},
    }
}

/// A plain operator can be constructed from what it bound when it matched:
/// see [`lemma_make_succeeds`].
pub proof fn lemma_operator_make_succeeds(
    e: Expr,
    x: Val,
    base: Env,
    given: Env,
    whole: Env,
    fns: Program,
    depth: nat,
)
    requires
        fns.exact,
        e is Operator,
        plain(e, true),
        x.wf(),
        base.wf(),
        given.wf(),
        destruct_operator(e, x, base, fns, depth).0 is Ok,
        within(destruct_operator(e, x, base, fns, depth).1, whole),
        ahead(destruct_operator(e, x, base, fns, depth).1, whole),
        within(given, whole),
        conserved(base, given, whole),
        forall|name: Seq<char>| occurs(e, name) ==> given.idents.contains_key(name),
    ensures
        construct(e, given, fns, depth).0 is Ok,
    decreases e, 0nat,
{
    let op = e->Operator_0;
    let left = *e->Operator_1;
    let right = *e->Operator_2;
    let none = Env::empty();
    lemma_plain_invertible(left, true);
    lemma_plain_invertible(right, true);
    lemma_construct_wf(left, none, fns, depth, true);
    lemma_construct_wf(right, none, fns, depth, true);
    let known_left = construct(left, none, fns, depth).0;
    let known_right = construct(right, none, fns, depth).0;
    assert forall|name: Seq<char>| occurs(left, name) implies given.idents.contains_key(name) by {
        assert(occurs(e, name));
    }
    assert forall|name: Seq<char>| occurs(right, name) implies given.idents.contains_key(name) by {
        assert(occurs(e, name));
    }
    match (known_left, known_right) {
        (Ok(a), Ok(b)) => {
            lemma_closed_destruct(left, a, base, fns, depth, true);
            lemma_closed_destruct(right, b, base, fns, depth, true);
            lemma_closed_construct(left, given, fns, depth);
            lemma_closed_construct(right, given, fns, depth);
        },
        (Ok(a), Err(_)) => {
            lemma_closed_construct(left, given, fns, depth);
            lemma_left_preimage_applied(op, a, x);
            lemma_left_preimage_applies(op, a, x);
            let inner = left_preimage(fns.exact, op, a, x)->Ok_0;
            lemma_make_succeeds(right, inner, base, given, whole, fns, depth);
            lemma_matched_then_made(right, inner, base, given, whole, fns, depth);
        },
        (Err(_), Ok(b)) => {
            lemma_right_preimage_applied(op, b, x);
            lemma_right_preimage_applies(op, b, x);
            let inner = right_preimage(fns.exact, op, b, x)->Ok_0;
            lemma_make_succeeds(left, inner, base, given, whole, fns, depth);
            lemma_matched_then_made(left, inner, base, given, whole, fns, depth);
            let f1 = construct(left, given, fns, depth).1;
            lemma_closed_construct(right, f1, fns, depth);
        },
        (Err(_), Err(_)) => {
            assert(false);
        },
    }
}

/// Plain items can be constructed from what they bound when they matched:
/// see [`lemma_make_succeeds`].
pub proof fn lemma_items_make_succeed(
    items: Seq<Expr>,
    xs: Seq<Val>,
    n: nat,
    base: Env,
    given: Env,
    whole: Env,
    fns: Program,
    depth: nat,
)
    requires
        fns.exact,
        all_plain(items, true),
        n <= items.len(),
        items.len() == xs.len(),
        forall|i: int| 0 <= i < xs.len() ==> (#[trigger] xs[i]).wf(),
        base.wf(),
        given.wf(),
        destruct_items(items, xs, n, base, fns, depth).0 is Ok,
        within(destruct_items(items, xs, n, base, fns, depth).1, whole),
        ahead(destruct_items(items, xs, n, base, fns, depth).1, whole),
        within(given, whole),
        conserved(base, given, whole),
        forall|name: Seq<char>| occurs_among(items, n, name) ==> given.idents.contains_key(name),
    ensures
        construct_items(items, n, given, fns, depth).0 is Ok,
    decreases items, n,
{
    lemma_all_plain_invertible(items, true);
    if n > 0 {
        let (found, e1) = destruct_items(items, xs, (n - 1) as nat, base, fns, depth);
        let (matched, e2) = destruct(items[n - 1], xs[n - 1], e1, fns, depth);
        lemma_destruct_items_wf(items, xs, (n - 1) as nat, base, fns, depth, true);
        lemma_destruct_frame(items[n - 1], xs[n - 1], e1, fns, depth);
        lemma_grows_on(e1, e2, whole);
        assert forall|name: Seq<char>|
            occurs_among(items, (n - 1) as nat, name) implies given.idents.contains_key(name) by {
            let k = choose|k: int| 0 <= k < n - 1 && k < items.len() && occurs(
                #[trigger] items[k],
                name,
            );
            assert(occurs_among(items, n, name));
        }
        lemma_items_make_succeed(items, xs, (n - 1) as nat, base, given, whole, fns, depth);
        lemma_items_matched_then_made(items, xs, (n - 1) as nat, base, given, whole, fns, depth);
        let f1 = construct_items(items, (n - 1) as nat, given, fns, depth).1;
        lemma_construct_items_wf(items, (n - 1) as nat, given, fns, depth, true);
        assert(within(f1, whole));
        assert forall|name: Seq<char>| occurs(items[n - 1], name) implies f1.idents.contains_key(
            name,
        ) by {
            assert(occurs_among(items, n, name));
        }
        lemma_make_succeeds(items[n - 1], xs[n - 1], e1, f1, whole, fns, depth);
    }
}

/// The constructor names every identifier that the pattern names.
pub open spec fn names_kept(pattern: Expr, generator: Expr) -> bool {
    forall|name: Seq<char>| occurs(pattern, name) ==> occurs(generator, name)
}

/// Every rule is plain, and its constructor names every identifier that its
/// pattern names.
pub open spec fn plain_rules(rules: Seq<Transformation>) -> bool {
    forall|i: int|
        0 <= i < rules.len() ==> plain((#[trigger] rules[i])->destruct, true) && plain(
            rules[i]->construct,
            false,
        ) && names_kept(rules[i]->destruct, rules[i]->construct)
}

/// What is plain rules can be undone.
pub proof fn lemma_plain_rules_invertible(rules: Seq<Transformation>)
    requires
        plain_rules(rules),
    ensures
        invertible_rules(rules),
{
    assert forall|i: int| 0 <= i < rules.len() implies invertible(
        (#[trigger] rules[i])->destruct,
        true,
    ) && invertible(rules[i]->construct, false) by {
        lemma_plain_invertible(rules[i]->destruct, true);
        lemma_plain_invertible(rules[i]->construct, false);
    }
}

/// A plain rule applied in reverse to what it made gives the value that it
/// was applied to.
pub proof fn law_plain_rule_undone(
    pattern: Expr,
    generator: Expr,
    x: Val,
    fns: Program,
    depth: nat,
)
    requires
        fns.exact,
        plain(pattern, true),
        plain(generator, false),
        names_kept(pattern, generator),
        x.wf(),
        apply_rule(pattern, generator, x, fns, depth) is Ok,
    ensures
        apply_rule(
            generator,
            pattern,
            apply_rule(pattern, generator, x, fns, depth)->Ok_0,
            fns,
            depth,
        ) == Ok::<Val, RuntimeError>(x),
{
    lemma_plain_invertible(pattern, true);
    lemma_plain_invertible(generator, false);
    let none = Env::empty();
    let y = apply_rule(pattern, generator, x, fns, depth)->Ok_0;
    let (matched, bound) = destruct(pattern, x, none, fns, depth);
    let (made, left) = construct(generator, bound, fns, depth);
    lemma_destruct_wf(pattern, x, none, fns, depth, true);
    lemma_construct_wf(generator, bound, fns, depth, false);
    assert(y == made->Ok_0);
    assert forall|p: Seq<char>| none.queue(p) + bound.queue(p) == bound.queue(p) by {
        assert(none.queue(p) + bound.queue(p) =~= bound.queue(p));
    }
    // On the way back the constructor matches what it made,
    lemma_match_succeeds(generator, bound, none, bound, fns, depth);
    lemma_made_then_matched(generator, bound, none, bound, fns, depth);
    let (matched_back, bound_back) = destruct(generator, y, none, fns, depth);
    lemma_destruct_wf(generator, y, none, fns, depth, false);
    assert forall|p: Seq<char>| none.queue(p) + bound_back.queue(p) == bound.queue(p) by {
        assert(bound_back.queue(p) + left.queue(p) == bound.queue(p));
        if left.polyidents.contains_key(p) {
            assert(left.polyidents[p].len() == 0);
        }
        assert(left.queue(p).len() == 0);
        assert(none.queue(p) + bound_back.queue(p) =~= bound_back.queue(p) + left.queue(p));
    }
    // binds every identifier that the pattern names,
    assert forall|name: Seq<char>| occurs(pattern, name) implies bound_back.idents.contains_key(
        name,
    ) by {
        lemma_match_binds(generator, y, none, name, fns, depth, false);
    }
    // and the pattern makes the value from that.
    lemma_ahead_of_itself(bound);
    lemma_make_succeeds(pattern, x, none, bound_back, bound, fns, depth);
    lemma_matched_then_made(pattern, x, none, bound_back, bound, fns, depth);
    let left_back = construct(pattern, bound_back, fns, depth).1;
    assert forall|p: Seq<char>| #[trigger]
        left_back.polyidents.contains_key(p) implies left_back.polyidents[p].len() == 0 by {
        assert(bound.queue(p) + left_back.queue(p) == bound.queue(p));
        assert((bound.queue(p) + left_back.queue(p)).len() == bound.queue(p).len()
            + left_back.queue(p).len());
    }
}

/// Plain rules run in reverse on what they made give the value that they
/// were run on.
pub proof fn law_plain_rules_undone(rules: Seq<Transformation>, x: Val, fns: Program, depth: nat)
    requires
        fns.exact,
        plain_rules(rules),
        x.wf(),
        run_rules(rules, rules.len(), x, fns, depth) is Ok,
    ensures
        reverse_rules(
            rules,
            rules.len(),
            run_rules(rules, rules.len(), x, fns, depth)->Ok_0,
            fns,
            depth,
        ) == Ok::<Val, RuntimeError>(x),
    decreases rules.len(),
{
    if rules.len() > 0 {
        let n = rules.len();
        let init = rules.drop_last();
        let last = rules.last();
        let y = run_rules(rules, n, x, fns, depth)->Ok_0;
        lemma_run_rules_front(rules, (n - 1) as nat, x, fns, depth);
        let m = run_rules(init, (n - 1) as nat, x, fns, depth)->Ok_0;
        assert(run_rules(rules, (n - 1) as nat, x, fns, depth) is Ok);
        assert(rules[n - 1] == last);
        assert(y == apply_rule(last->destruct, last->construct, m, fns, depth)->Ok_0);
        lemma_reverse_rules_last(rules, (n - 1) as nat, y, fns, depth);
        assert(plain_rules(init)) by {
            assert forall|i: int| 0 <= i < init.len() implies plain(
                (#[trigger] init[i])->destruct,
                true,
            ) && plain(init[i]->construct, false) && names_kept(
                init[i]->destruct,
                init[i]->construct,
            ) by {
                assert(init[i] == rules[i]);
            }
        }
        lemma_plain_rules_invertible(init);
        lemma_rules_wf(init, x, fns, depth);
        law_plain_rule_undone(last->destruct, last->construct, m, fns, depth);
        law_plain_rules_undone(init, x, fns, depth);
    }
}

/// Running a function of plain rules exactly and then running it exactly in
/// reverse on what it made gives the value that the function was run on.
pub proof fn law_plain_reverse_undoes_run(name: Seq<char>, x: Val, fns: Program, depth: nat)
    requires
        fns.exact,
        fns.rules.contains_key(name),
        plain_rules(fns.rules[name]),
        x.wf(),
        run(name, x, fns, depth) is Ok,
    ensures
        reverse(name, run(name, x, fns, depth)->Ok_0, fns, depth) == Ok::<Val, RuntimeError>(x),
{
    law_plain_rules_undone(fns.rules[name], x, fns, depth);
}

/// Whether `e` holds no identifier, poly-identifier, wildcard or call: see
/// [`ground`].
pub fn is_ground(e: &Expr) -> (r: bool)
    ensures
        r == ground(*e),
    decreases e,
{
    match e {
        Expr::Number(_) => true,
        Expr::String(_, _) => true,
        Expr::Bool(_) => true,
        Expr::Ident(_) => false,
        Expr::PolyIdent(_) => false,
        Expr::Any => false,
        Expr::Call(_, _) => false,
        Expr::Array(items) => are_ground(items),
        Expr::Tuple(items) => are_ground(items),
        Expr::Operator(_, left, right) => is_ground(left) && is_ground(right),
        Expr::UnaryOp(_, operand) => is_ground(operand),
        Expr::Cast(operand, _, _) => is_ground(operand),
    }
}

/// Whether all of `items` are ground.
pub fn are_ground(items: &Vec<Expr>) -> (r: bool)
    ensures
        r == all_ground(items@),
    decreases items,
{
    let mut i: usize = 0;
    while i < items.len()
        invariant
            i <= items.len(),
            forall|j: int| 0 <= j < i ==> ground(#[trigger] items@[j]),
        decreases items.len() - i,
    {
        if !is_ground(&items[i]) {
            return false;
        }
        i = i + 1;
    }
    true
}

/// Whether `e` is plain: see [`plain`].
pub fn is_plain(e: &Expr, pattern: bool) -> (r: bool)
    ensures
        r == plain(*e, pattern),
    decreases e,
{
    match e {
        Expr::Number(n) => {
            n.is_nan();
            true
        },
        Expr::String(_, _) => true,
        Expr::Bool(_) => true,
        Expr::Ident(_) => true,
        Expr::PolyIdent(_) => true,
        Expr::Any => false,
        Expr::Call(_, _) => false,
        Expr::Array(items) => are_plain(items, pattern),
        Expr::Tuple(items) => are_plain(items, pattern),
        Expr::Operator(op, left, right) => {
            let sure = match op {
                Operator::Add => true,
                Operator::Sub => true,
                _ => false,
            };
            sure && is_plain(left, pattern) && is_plain(right, pattern) && (is_ground(left)
                || is_ground(right))
        },
        Expr::UnaryOp(_, operand) => is_plain(operand, pattern),
        Expr::Cast(operand, to, from) => {
            let kept = if pattern {
                loses_nothing(to, from)
            } else {
                loses_nothing(from, to)
            };
            is_plain(operand, pattern) && kept
        },
    }
}

/// Whether all of `items` are plain.
pub fn are_plain(items: &Vec<Expr>, pattern: bool) -> (r: bool)
    ensures
        r == all_plain(items@, pattern),
    decreases items,
{
    let mut i: usize = 0;
    while i < items.len()
        invariant
            i <= items.len(),
            forall|j: int| 0 <= j < i ==> plain(#[trigger] items@[j], pattern),
        decreases items.len() - i,
    {
        if !is_plain(&items[i], pattern) {
            return false;
        }
        i = i + 1;
    }
    true
}

/// Whether the identifier `name` stands somewhere in `e`: see [`occurs`].
pub fn names_it(e: &Expr, name: &Vec<char>) -> (r: bool)
    ensures
        r == occurs(*e, name@),
    decreases e,
{
    match e {
        Expr::Ident(i) => same_chars(i, name),
        Expr::Array(items) => name_it(items, name),
        Expr::Tuple(items) => name_it(items, name),
        Expr::Operator(_, left, right) => names_it(left, name) || names_it(right, name),
        Expr::UnaryOp(_, operand) => names_it(operand, name),
        Expr::Cast(operand, _, _) => names_it(operand, name),
        Expr::Call(_, argument) => names_it(argument, name),
        _ => false,
    }
}

/// Whether the identifier `name` stands somewhere in `items`.
pub fn name_it(items: &Vec<Expr>, name: &Vec<char>) -> (r: bool)
    ensures
        r == occurs_among(items@, items@.len(), name@),
    decreases items,
{
    let mut i: usize = 0;
    while i < items.len()
        invariant
            i <= items.len(),
            forall|j: int| 0 <= j < i ==> !occurs(#[trigger] items@[j], name@),
        decreases items.len() - i,
    {
        if names_it(&items[i], name) {
            return true;
        }
        i = i + 1;
    }
    false
}

/// Whether `generator` names every identifier that `e` names.
pub fn keeps_names(e: &Expr, generator: &Expr) -> (r: bool)
    ensures
        r == names_kept(*e, *generator),
    decreases e,
{
    match e {
        Expr::Ident(i) => {
            let r = names_it(generator, i);
            proof {
                assert(occurs(*e, i@));
            }
            r
        },
        Expr::Array(items) => {
            let r = keep_names(items, generator);
            proof {
                lemma_names_of_items(*e, items@, *generator);
            }
            r
        },
        Expr::Tuple(items) => {
            let r = keep_names(items, generator);
            proof {
                lemma_names_of_items(*e, items@, *generator);
            }
            r
        },
        Expr::Operator(_, left, right) => {
            let r = keeps_names(left, generator) && keeps_names(right, generator);
            proof {
                if !r {
                    if !names_kept(**left, *generator) {
                        let name = choose|name: Seq<char>|
                            occurs(**left, name) && !occurs(*generator, name);
                        assert(occurs(*e, name));
                    } else {
                        let name = choose|name: Seq<char>|
                            occurs(**right, name) && !occurs(*generator, name);
                        assert(occurs(*e, name));
                    }
                }
            }
            r
        },
        Expr::UnaryOp(_, operand) => {
            let r = keeps_names(operand, generator);
            proof {
                if !r {
                    let name = choose|name: Seq<char>|
                        occurs(**operand, name) && !occurs(*generator, name);
                    assert(occurs(*e, name));
                }
            }
            r
        },
        Expr::Cast(operand, _, _) => {
            let r = keeps_names(operand, generator);
            proof {
                if !r {
                    let name = choose|name: Seq<char>|
                        occurs(**operand, name) && !occurs(*generator, name);
                    assert(occurs(*e, name));
                }
            }
            r
        },
        Expr::Call(_, argument) => {
            let r = keeps_names(argument, generator);
            proof {
                if !r {
                    let name = choose|name: Seq<char>|
                        occurs(**argument, name) && !occurs(*generator, name);
                    assert(occurs(*e, name));
                }
            }
            r
        },
        _ => true,
    }
}

/// An array or a tuple names what its items name.
proof fn lemma_names_of_items(e: Expr, items: Seq<Expr>, generator: Expr)
    requires
        (e matches Expr::Array(v) && v@ == items) || (e matches Expr::Tuple(v) && v@ == items),
    ensures
        names_kept(e, generator) == (forall|k: int|
            0 <= k < items.len() ==> names_kept(#[trigger] items[k], generator)),
{
    if names_kept(e, generator) {
        assert forall|k: int| 0 <= k < items.len() implies names_kept(
            #[trigger] items[k],
            generator,
        ) by {
            assert forall|name: Seq<char>| occurs(items[k], name) implies occurs(
                generator,
                name,
            ) by {
                assert(occurs(e, name));
            }
        }
    }
    if forall|k: int| 0 <= k < items.len() ==> names_kept(#[trigger] items[k], generator) {
        assert forall|name: Seq<char>| occurs(e, name) implies occurs(generator, name) by {
            let k = choose|k: int| 0 <= k < items.len() && occurs(#[trigger] items[k], name);
            assert(names_kept(items[k], generator));
        }
    }
}

/// Whether `generator` names every identifier that `items` name.
pub fn keep_names(items: &Vec<Expr>, generator: &Expr) -> (r: bool)
    ensures
        r == (forall|k: int|
            0 <= k < items@.len() ==> names_kept(#[trigger] items@[k], *generator)),
    decreases items,
{
    let mut i: usize = 0;
    while i < items.len()
        invariant
            i <= items.len(),
            forall|j: int| 0 <= j < i ==> names_kept(#[trigger] items@[j], *generator),
        decreases items.len() - i,
    {
        if !keeps_names(&items[i], generator) {
            return false;
        }
        i = i + 1;
    }
    true
}

/// Whether every rule is plain and keeps the names of its pattern: see
/// [`plain_rules`].
pub fn are_plain_rules(rules: &Vec<Transformation>) -> (r: bool)
    ensures
        r == plain_rules(rules@),
{
    let mut i: usize = 0;
    while i < rules.len()
        invariant
            i <= rules.len(),
            forall|j: int|
                0 <= j < i ==> plain((#[trigger] rules@[j])->destruct, true) && plain(
                    rules@[j]->construct,
                    false,
                ) && names_kept(rules@[j]->destruct, rules@[j]->construct),
        decreases rules.len() - i,
    {
        let fine = match &rules[i] {
            Transformation::Forced { destruct, construct } => is_plain(destruct, true)
                && is_plain(construct, false) && keeps_names(destruct, construct),
        };
        if !fine {
            return false;
        }
        i = i + 1;
    }
    true
}

} // verus!
