//! Running a function exactly and then running it exactly in reverse gives,
//! if it gives anything, the input back.
//!
//! This holds of the functions whose rules are made of literals, identifiers,
//! poly-identifiers, the wildcard, arrays, tuples, the operators `+`, `-` and
//! `/`, the unary operators, and casts that lose nothing. The reverse run may
//! fail: a constructor may not name what the pattern needs, the wildcard
//! makes no value, and where 0 was divided the divisor is not found again.
//!
//! Throughout, the program is run exactly. Of a run in which a number
//! arose that is not finite or not the exact result, the law does not hold:
//! what is not a number, plus 1, less 1, is not the number that 1 was added
//! to. What holds of the interpreter's runs follows in `exactness`.
use crate::ast::{Expr, Operator, Transformation, Type};
use crate::error::RuntimeError;
use crate::frames::{
    ahead, lemma_ahead_of_itself, lemma_capture_ahead, lemma_closed_construct,
    lemma_closed_construct_items, lemma_destruct_frame, lemma_grows_on, within,
};
use crate::inverses::{
    invertible_operator, lemma_cast_undone, lemma_left_preimage_applied,
    lemma_left_preimage_found, lemma_operator_wf, lemma_right_preimage_applied,
    lemma_right_preimage_found, lemma_unary_undone, lossless,
};
use crate::text::lemma_parse_wf;
use crate::semantics::{
    apply_operator, apply_rule, apply_unary, construct, construct_items, destruct,
    destruct_items, destruct_operator, left_preimage, reverse, reverse_rules, right_preimage,
    run, run_rules, Program,
};
use crate::value::Val;
use crate::variables::Env;
use vstd::prelude::*;

verus! {

/// `e` is made of what can be undone. As a pattern it may cast to a type
/// from one that loses nothing on the way back; as a constructor, from a type
/// to one that loses nothing on the way back.
pub open spec fn invertible(e: Expr, pattern: bool) -> bool
    decreases e,
{
    match e {
        Expr::Number(n) => n@.wf(),
        Expr::String(_, _) => true,
        Expr::Bool(_) => true,
        Expr::Ident(_) => true,
        Expr::PolyIdent(_) => true,
        Expr::Any => true,
        Expr::Array(items) => forall|i: int|
            0 <= i < items@.len() ==> invertible(#[trigger] items@[i], pattern),
        Expr::Tuple(items) => forall|i: int|
            0 <= i < items@.len() ==> invertible(#[trigger] items@[i], pattern),
        Expr::Operator(op, left, right) => invertible_operator(op) && invertible(*left, pattern)
            && invertible(*right, pattern),
        Expr::UnaryOp(_, operand) => invertible(*operand, pattern),
        Expr::Cast(operand, to, from) => invertible(*operand, pattern) && if pattern {
            lossless(to, from)
        } else {
            lossless(from, to)
        },
        Expr::Call(_, _) => false,
    }
}

/// All of `items` are made of what can be undone.
pub open spec fn all_invertible(items: Seq<Expr>, pattern: bool) -> bool {
    forall|i: int| 0 <= i < items.len() ==> invertible(#[trigger] items[i], pattern)
}

/// What the poly-identifiers hold in `held` and then in `left` is together
/// what they hold in `total`.
pub open spec fn conserved(held: Env, left: Env, total: Env) -> bool {
    forall|p: Seq<char>|
        #![trigger held.queue(p)]
        #![trigger left.queue(p)]
        #![trigger total.queue(p)]
        held.queue(p) + left.queue(p) == total.queue(p)
}

/// What a cast makes of a well-formed value is well formed.
pub proof fn lemma_cast_wf(v: Val, to: Type, from: Type)
    requires
        v.wf(),
        v.cast(to, from) is Ok,
    ensures
        v.cast(to, from)->Ok_0.wf(),
{
    if to != from {
        match v {
            Val::String(s) => {
                lemma_parse_wf(s);
                assert forall|i: int| 0 <= i < Val::letters(s).len() implies (
                #[trigger] Val::letters(s)[i]).wf() by {}
            },
            _ => {},
        }
    }
}

/// Constructing leaves the identifiers as they are, and well-formed bindings
/// well formed; what it makes of them is well formed.
pub proof fn lemma_construct_wf(e: Expr, env: Env, fns: Program, depth: nat, pattern: bool)
    requires
        fns.exact,
        invertible(e, pattern),
        env.wf(),
    ensures
        construct(e, env, fns, depth).1.wf(),
        construct(e, env, fns, depth).1.idents == env.idents,
        construct(e, env, fns, depth).0 is Ok ==> construct(e, env, fns, depth).0->Ok_0.wf(),
    decreases e, 0nat,
{
    match e {
        Expr::Array(items) => {
            lemma_construct_items_wf(items@, items@.len(), env, fns, depth, pattern);
        },
        Expr::Tuple(items) => {
            lemma_construct_items_wf(items@, items@.len(), env, fns, depth, pattern);
        },
        Expr::PolyIdent(i) => {
            if env.queue(i@).len() > 0 {
                lemma_release_wf(env, i@);
            }
        },
        Expr::Operator(op, left, right) => {
            lemma_construct_wf(*left, env, fns, depth, pattern);
            let (ra, env1) = construct(*left, env, fns, depth);
            if ra is Ok {
                lemma_construct_wf(*right, env1, fns, depth, pattern);
                let (rb, env2) = construct(*right, env1, fns, depth);
                if rb is Ok && apply_operator(fns.exact, op, ra->Ok_0, rb->Ok_0) is Ok {
                    lemma_operator_wf(op, ra->Ok_0, rb->Ok_0);
                }
            }
        },
        Expr::UnaryOp(op, operand) => {
            lemma_construct_wf(*operand, env, fns, depth, pattern);
            let (r, env1) = construct(*operand, env, fns, depth);
            if r is Ok && apply_unary(op, r->Ok_0) is Ok {
                lemma_unary_undone(op, r->Ok_0);
            }
        },
        Expr::Cast(operand, to, from) => {
            lemma_construct_wf(*operand, env, fns, depth, pattern);
            let (r, env1) = construct(*operand, env, fns, depth);
            if r is Ok && r->Ok_0.cast(to, from) is Ok {
                lemma_cast_wf(r->Ok_0, to, from);
            }
        },
        _ => {},
    }
}

/// Taking a value from a poly-identifier leaves well-formed bindings well
/// formed, and the value is well formed.
pub proof fn lemma_release_wf(env: Env, name: Seq<char>)
    requires
        env.wf(),
        env.queue(name).len() > 0,
    ensures
        env.release(name).wf(),
        env.queue(name)[0].wf(),
{
    let after = env.release(name);
    assert(env.polyidents.contains_key(name));
    assert forall|key: Seq<char>, i: int|
        after.polyidents.contains_key(key) && 0 <= i < after.polyidents[key].len() implies (
    #[trigger] after.polyidents[key][i]).wf() by {
        if key == name {
            assert(after.polyidents[key][i] == env.polyidents[name][i + 1]);
            assert(env.polyidents[name][i + 1].wf());
        } else {
            assert(env.polyidents[key][i].wf());
        }
    }
    assert(env.polyidents[name][0].wf());
}

/// Constructing items in order: see [`lemma_construct_wf`].
pub proof fn lemma_construct_items_wf(
    items: Seq<Expr>,
    n: nat,
    env: Env,
    fns: Program,
    depth: nat,
    pattern: bool,
)
    requires
        fns.exact,
        all_invertible(items, pattern),
        env.wf(),
    ensures
        construct_items(items, n, env, fns, depth).1.wf(),
        construct_items(items, n, env, fns, depth).1.idents == env.idents,
        construct_items(items, n, env, fns, depth).0 is Ok ==> forall|i: int|
            0 <= i < construct_items(items, n, env, fns, depth).0->Ok_0.len() ==> (
            #[trigger] construct_items(items, n, env, fns, depth).0->Ok_0[i]).wf(),
    decreases items, n,
{
    if n == 0 || n > items.len() {
    } else {
        lemma_construct_items_wf(items, (n - 1) as nat, env, fns, depth, pattern);
        let (front, env1) = construct_items(items, (n - 1) as nat, env, fns, depth);
        if front is Ok {
            lemma_construct_wf(items[n - 1], env1, fns, depth, pattern);
        }
    }
}

/// Matching a well-formed value leaves well-formed bindings well formed.
pub proof fn lemma_destruct_wf(
    e: Expr,
    target: Val,
    env: Env,
    fns: Program,
    depth: nat,
    pattern: bool,
)
    requires
        fns.exact,
        invertible(e, pattern),
        target.wf(),
        env.wf(),
    ensures
        destruct(e, target, env, fns, depth).1.wf(),
    decreases e, 1nat,
{
    match e {
        Expr::Array(items) => {
            if let Val::Array(targets) = target {
                if items@.len() == targets.len() {
                    lemma_destruct_items_wf(
                        items@,
                        targets,
                        items@.len(),
                        env,
                        fns,
                        depth,
                        pattern,
                    );
                }
            }
        },
        Expr::Tuple(items) => {
            if let Val::Tuple(targets) = target {
                if items@.len() == targets.len() {
                    lemma_destruct_items_wf(
                        items@,
                        targets,
                        items@.len(),
                        env,
                        fns,
                        depth,
                        pattern,
                    );
                }
            }
        },
        Expr::Ident(i) => {
            if env.accepts(i@, target) {
                assert(env.bind(i@, target).wf());
            }
        },
        Expr::PolyIdent(i) => {
            lemma_capture_wf(env, i@, target);
        },
        Expr::Operator(op, left, right) => {
            lemma_destruct_operator_wf(e, target, env, fns, depth, pattern);
        },
        Expr::UnaryOp(op, operand) => {
            if apply_unary(op, target) is Ok {
                lemma_unary_undone(op, target);
                lemma_destruct_wf(
                    *operand,
                    apply_unary(op, target)->Ok_0,
                    env,
                    fns,
                    depth,
                    pattern,
                );
            }
        },
        Expr::Cast(operand, to, from) => {
            if target.cast(from, to) is Ok {
                lemma_cast_wf(target, from, to);
                lemma_destruct_wf(
                    *operand,
                    target.cast(from, to)->Ok_0,
                    env,
                    fns,
                    depth,
                    pattern,
                );
            }
        },
        _ => {},
    }
}

/// A capture of a well-formed value leaves well-formed bindings well formed.
pub proof fn lemma_capture_wf(env: Env, name: Seq<char>, value: Val)
    requires
        env.wf(),
        value.wf(),
    ensures
        env.capture(name, value).wf(),
{
    let after = env.capture(name, value);
    assert forall|key: Seq<char>, i: int|
        after.polyidents.contains_key(key) && 0 <= i < after.polyidents[key].len() implies (
    #[trigger] after.polyidents[key][i]).wf() by {
        if key == name {
            if i < env.queue(name).len() {
                assert(after.polyidents[key][i] == env.polyidents[name][i]);
            }
        } else {
            assert(env.polyidents[key][i].wf());
        }
    }
}

/// Matching against an operator: see [`lemma_destruct_wf`].
pub proof fn lemma_destruct_operator_wf(
    e: Expr,
    target: Val,
    env: Env,
    fns: Program,
    depth: nat,
    pattern: bool,
)
    requires
        fns.exact,
        e is Operator,
        invertible(e, pattern),
        target.wf(),
        env.wf(),
    ensures
        destruct_operator(e, target, env, fns, depth).1.wf(),
    decreases e, 0nat,
{
    let op = e->Operator_0;
    let left = *e->Operator_1;
    let right = *e->Operator_2;
    let none = Env::empty();
    lemma_construct_wf(left, none, fns, depth, pattern);
    lemma_construct_wf(right, none, fns, depth, pattern);
    let known_left = construct(left, none, fns, depth).0;
    let known_right = construct(right, none, fns, depth).0;
    match (known_left, known_right) {
        (Ok(a), Ok(b)) => {
            lemma_destruct_wf(left, a, env, fns, depth, pattern);
            let (r1, env1) = destruct(left, a, env, fns, depth);
            if r1 is Ok {
                lemma_destruct_wf(right, b, env1, fns, depth, pattern);
            }
        },
        (Ok(a), Err(_)) => {
            let inner = left_preimage(fns.exact, op, a, target);
            if inner is Ok {
                lemma_left_preimage_applied(op, a, target);
                lemma_destruct_wf(right, inner->Ok_0, env, fns, depth, pattern);
            }
        },
        (Err(_), Ok(b)) => {
            let inner = right_preimage(fns.exact, op, b, target);
            if inner is Ok {
                lemma_right_preimage_applied(op, b, target);
                lemma_destruct_wf(left, inner->Ok_0, env, fns, depth, pattern);
            }
        },
        (Err(_), Err(_)) => {},
    }
}

/// Matching items in order: see [`lemma_destruct_wf`].
pub proof fn lemma_destruct_items_wf(
    items: Seq<Expr>,
    targets: Seq<Val>,
    n: nat,
    env: Env,
    fns: Program,
    depth: nat,
    pattern: bool,
)
    requires
        fns.exact,
        all_invertible(items, pattern),
        items.len() == targets.len(),
        forall|i: int| 0 <= i < targets.len() ==> (#[trigger] targets[i]).wf(),
        env.wf(),
    ensures
        destruct_items(items, targets, n, env, fns, depth).1.wf(),
    decreases items, n,
{
    if n == 0 || n > items.len() {
    } else {
        lemma_destruct_items_wf(items, targets, (n - 1) as nat, env, fns, depth, pattern);
        let (front, env1) = destruct_items(items, targets, (n - 1) as nat, env, fns, depth);
        if front is Ok {
            lemma_destruct_wf(items[n - 1], targets[n - 1], env1, fns, depth, pattern);
        }
    }
}

/// What can be constructed without any bindings binds nothing when it is
/// matched.
pub proof fn lemma_closed_destruct(
    e: Expr,
    target: Val,
    env: Env,
    fns: Program,
    depth: nat,
    pattern: bool,
)
    requires
        invertible(e, pattern),
        construct(e, Env::empty(), fns, depth).0 is Ok,
    ensures
        destruct(e, target, env, fns, depth).1 == env,
    decreases e, 0nat,
{
    let none = Env::empty();
    match e {
        Expr::Array(items) => {
            if let Val::Array(targets) = target {
                lemma_closed_destruct_items(
                    items@,
                    targets,
                    items@.len(),
                    env,
                    fns,
                    depth,
                    pattern,
                );
            }
            assert(destruct(e, target, env, fns, depth).1 == env);
        },
        Expr::Tuple(items) => {
            if let Val::Tuple(targets) = target {
                lemma_closed_destruct_items(
                    items@,
                    targets,
                    items@.len(),
                    env,
                    fns,
                    depth,
                    pattern,
                );
            }
        },
        Expr::Operator(op, left, right) => {
            lemma_closed_construct(*left, none, fns, depth);
            assert(construct(*left, none, fns, depth).0 is Ok);
            assert(construct(*right, none, fns, depth).0 is Ok);
            let a = construct(*left, none, fns, depth).0->Ok_0;
            let b = construct(*right, none, fns, depth).0->Ok_0;
            lemma_closed_destruct(*left, a, env, fns, depth, pattern);
            lemma_closed_destruct(*right, b, env, fns, depth, pattern);
            assert(destruct_operator(e, target, env, fns, depth).1 == env);
            assert(destruct(e, target, env, fns, depth).1 == env);
        },
        Expr::UnaryOp(op, operand) => {
            if apply_unary(op, target) is Ok {
                lemma_closed_destruct(
                    *operand,
                    apply_unary(op, target)->Ok_0,
                    env,
                    fns,
                    depth,
                    pattern,
                );
            }
        },
        Expr::Cast(operand, to, from) => {
            if target.cast(from, to) is Ok {
                lemma_closed_destruct(
                    *operand,
                    target.cast(from, to)->Ok_0,
                    env,
                    fns,
                    depth,
                    pattern,
                );
            }
        },
        Expr::Ident(_) => {
            assert(false);
        },
        Expr::PolyIdent(_) => {
            assert(false);
        },
        Expr::Any => {
            assert(false);
        },
        Expr::Call(_, _) => {
            assert(false);
        },
        _ => {
            assert(destruct(e, target, env, fns, depth).1 == env);
        },
    }
}

/// Matching items in order: see [`lemma_closed_destruct`].
pub proof fn lemma_closed_destruct_items(
    items: Seq<Expr>,
    targets: Seq<Val>,
    n: nat,
    env: Env,
    fns: Program,
    depth: nat,
    pattern: bool,
)
    requires
        all_invertible(items, pattern),
        construct_items(items, items.len(), Env::empty(), fns, depth).0 is Ok,
    ensures
        destruct_items(items, targets, n, env, fns, depth).1 == env,
    decreases items, n,
{
    if n == 0 || n > items.len() {
    } else {
        lemma_closed_destruct_items(items, targets, (n - 1) as nat, env, fns, depth, pattern);
        lemma_items_constructed(items, n, items.len(), fns, depth);
        lemma_closed_construct_items(items, (n - 1) as nat, Env::empty(), fns, depth);
        lemma_closed_destruct(items[n - 1], targets[n - 1], env, fns, depth, pattern);
    }
}

/// Where all of the items can be constructed without any bindings, so can
/// the first `n` of them.
pub proof fn lemma_items_constructed(
    items: Seq<Expr>,
    n: nat,
    m: nat,
    fns: Program,
    depth: nat,
)
    requires
        n <= m <= items.len(),
        construct_items(items, m, Env::empty(), fns, depth).0 is Ok,
    ensures
        construct_items(items, n, Env::empty(), fns, depth).0 is Ok,
    decreases m,
{
    if n < m {
        lemma_items_constructed(items, n, (m - 1) as nat, fns, depth);
    }
}

/// Constructing as many items as there are gives as many values.
pub proof fn lemma_construct_items_len(items: Seq<Expr>, n: nat, env: Env, fns: Program, depth: nat)
    requires
        n <= items.len(),
        construct_items(items, n, env, fns, depth).0 is Ok,
    ensures
        construct_items(items, n, env, fns, depth).0->Ok_0.len() == n,
        n > 0 ==> construct_items(items, (n - 1) as nat, env, fns, depth).0 is Ok
            && construct_items(items, n, env, fns, depth).0->Ok_0.subrange(0, n - 1)
            == construct_items(items, (n - 1) as nat, env, fns, depth).0->Ok_0,
    decreases n,
{
    if n > 0 {
        lemma_construct_items_len(items, (n - 1) as nat, env, fns, depth);
        let front = construct_items(items, (n - 1) as nat, env, fns, depth).0->Ok_0;
        let all = construct_items(items, n, env, fns, depth).0->Ok_0;
        assert(all.subrange(0, n - 1) =~= front);
    }
}

/// A poly-identifier that gives a value to a constructor and takes it as a
/// pattern keeps the whole of what is held.
proof fn lemma_moved(source: Env, held: Env, total: Env, name: Seq<char>)
    requires
        conserved(held, source, total),
        source.queue(name).len() > 0,
        source.wf(),
        held.wf(),
    ensures
        conserved(held.capture(name, source.queue(name)[0]), source.release(name), total),
{
    let v = source.queue(name)[0];
    let held2 = held.capture(name, v);
    let source2 = source.release(name);
    assert forall|p: Seq<char>| held2.queue(p) + source2.queue(p) == total.queue(p) by {
        assert(held.queue(p) + source.queue(p) == total.queue(p));
        if p == name {
            assert(held2.queue(p) =~= held.queue(p).push(v));
            assert(source2.queue(p) =~= source.queue(p).drop_first());
            assert(held2.queue(p) + source2.queue(p) =~= held.queue(p) + source.queue(p));
        } else {
            assert(held2.queue(p) =~= held.queue(p));
            assert(source2.queue(p) =~= source.queue(p));
        }
    }
}

/// Matching what a constructor made against the constructor itself binds
/// only what the constructor used: the identifiers bound are bound to what
/// they were bound to when it was made, and each poly-identifier takes back
/// what it gave.
///
/// `source` is what the value was made from, `held` what has been bound on
/// the way back so far.
pub proof fn lemma_made_then_matched(
    e: Expr,
    source: Env,
    held: Env,
    total: Env,
    fns: Program,
    depth: nat,
)
    requires
        fns.exact,
        invertible(e, false),
        source.wf(),
        held.wf(),
        construct(e, source, fns, depth).0 is Ok,
        destruct(e, construct(e, source, fns, depth).0->Ok_0, held, fns, depth).0 is Ok,
        within(held, source),
        conserved(held, source, total),
    ensures
        within(
            destruct(e, construct(e, source, fns, depth).0->Ok_0, held, fns, depth).1,
            source,
        ),
        conserved(
            destruct(e, construct(e, source, fns, depth).0->Ok_0, held, fns, depth).1,
            construct(e, source, fns, depth).1,
            total,
        ),
    decreases e, 1nat,
{
    let made = construct(e, source, fns, depth).0->Ok_0;
    match e {
        Expr::Array(items) => {
            lemma_construct_items_len(items@, items@.len(), source, fns, depth);
            let vs = construct_items(items@, items@.len(), source, fns, depth).0->Ok_0;
            assert(made == Val::Array(vs));
            assert(vs.subrange(0, items@.len() as int) =~= vs);
            lemma_items_made_then_matched(
                items@,
                vs,
                items@.len(),
                source,
                held,
                total,
                fns,
                depth,
            );
        },
        Expr::Tuple(items) => {
            lemma_construct_items_len(items@, items@.len(), source, fns, depth);
            let vs = construct_items(items@, items@.len(), source, fns, depth).0->Ok_0;
            assert(made == Val::Tuple(vs));
            assert(vs.subrange(0, items@.len() as int) =~= vs);
            lemma_items_made_then_matched(
                items@,
                vs,
                items@.len(),
                source,
                held,
                total,
                fns,
                depth,
            );
        },
        Expr::Ident(i) => {
            let after = held.bind(i@, made);
            assert forall|p: Seq<char>| after.queue(p) + source.queue(p) == total.queue(p) by {
                assert(after.queue(p) == held.queue(p));
            }
        },
        Expr::PolyIdent(i) => {
            lemma_moved(source, held, total, i@);
        },
        Expr::Operator(op, left, right) => {
            lemma_operator_made_then_matched(e, source, held, total, fns, depth);
        },
        Expr::UnaryOp(op, operand) => {
            lemma_construct_wf(*operand, source, fns, depth, false);
            let v = construct(*operand, source, fns, depth).0->Ok_0;
            lemma_unary_undone(op, v);
            lemma_made_then_matched(*operand, source, held, total, fns, depth);
        },
        Expr::Cast(operand, to, from) => {
            lemma_construct_wf(*operand, source, fns, depth, false);
            let v = construct(*operand, source, fns, depth).0->Ok_0;
            lemma_cast_undone(v, to, from);
            lemma_made_then_matched(*operand, source, held, total, fns, depth);
        },
        Expr::Any => {
            assert(false);
        },
        Expr::Call(_, _) => {
            assert(false);
        },
        _ => {},
    }
}

/// An operator made and then matched: see [`lemma_made_then_matched`].
pub proof fn lemma_operator_made_then_matched(
    e: Expr,
    source: Env,
    held: Env,
    total: Env,
    fns: Program,
    depth: nat,
)
    requires
        fns.exact,
        e is Operator,
        invertible(e, false),
        source.wf(),
        held.wf(),
        construct(e, source, fns, depth).0 is Ok,
        destruct_operator(e, construct(e, source, fns, depth).0->Ok_0, held, fns, depth).0 is Ok,
        within(held, source),
        conserved(held, source, total),
    ensures
        within(
            destruct_operator(e, construct(e, source, fns, depth).0->Ok_0, held, fns, depth).1,
            source,
        ),
        conserved(
            destruct_operator(e, construct(e, source, fns, depth).0->Ok_0, held, fns, depth).1,
            construct(e, source, fns, depth).1,
            total,
        ),
    decreases e, 0nat,
{
    let op = e->Operator_0;
    let left = *e->Operator_1;
    let right = *e->Operator_2;
    let none = Env::empty();
    let made = construct(e, source, fns, depth).0->Ok_0;
    let (ra, s1) = construct(left, source, fns, depth);
    let (rb, s2) = construct(right, s1, fns, depth);
    lemma_construct_wf(left, source, fns, depth, false);
    lemma_construct_wf(right, s1, fns, depth, false);
    let va = ra->Ok_0;
    let vb = rb->Ok_0;
    assert(made == apply_operator(fns.exact, op, va, vb)->Ok_0);
    let known_left = construct(left, none, fns, depth).0;
    let known_right = construct(right, none, fns, depth).0;
    match (known_left, known_right) {
        (Ok(a), Ok(b)) => {
            lemma_closed_construct(left, source, fns, depth);
            lemma_closed_construct(right, source, fns, depth);
            let (r1, h1) = destruct(left, a, held, fns, depth);
            lemma_made_then_matched(left, source, held, total, fns, depth);
            lemma_destruct_wf(left, a, held, fns, depth, false);
            lemma_made_then_matched(right, source, h1, total, fns, depth);
        },
        (Ok(a), Err(_)) => {
            lemma_closed_construct(left, source, fns, depth);
            lemma_left_preimage_found(op, a, vb);
            lemma_made_then_matched(right, source, held, total, fns, depth);
        },
        (Err(_), Ok(b)) => {
            lemma_closed_construct(right, s1, fns, depth);
            lemma_right_preimage_found(op, va, b);
            lemma_made_then_matched(left, source, held, total, fns, depth);
        },
        (Err(_), Err(_)) => {
            assert(false);
        },
    }
}

/// Items made and then matched in order: see [`lemma_made_then_matched`].
pub proof fn lemma_items_made_then_matched(
    items: Seq<Expr>,
    targets: Seq<Val>,
    n: nat,
    source: Env,
    held: Env,
    total: Env,
    fns: Program,
    depth: nat,
)
    requires
        fns.exact,
        all_invertible(items, false),
        n <= items.len(),
        items.len() == targets.len(),
        source.wf(),
        held.wf(),
        construct_items(items, n, source, fns, depth).0 is Ok,
        construct_items(items, n, source, fns, depth).0->Ok_0 == targets.subrange(0, n as int),
        destruct_items(items, targets, n, held, fns, depth).0 is Ok,
        within(held, source),
        conserved(held, source, total),
    ensures
        within(destruct_items(items, targets, n, held, fns, depth).1, source),
        conserved(
            destruct_items(items, targets, n, held, fns, depth).1,
            construct_items(items, n, source, fns, depth).1,
            total,
        ),
        destruct_items(items, targets, n, held, fns, depth).1.wf(),
    decreases items, n,
{
    if n == 0 {
    } else {
        lemma_construct_items_len(items, n, source, fns, depth);
        let (front, s1) = construct_items(items, (n - 1) as nat, source, fns, depth);
        let (found, h1) = destruct_items(items, targets, (n - 1) as nat, held, fns, depth);
        assert(targets.subrange(0, n as int).subrange(0, n - 1) =~= targets.subrange(0, n - 1));
        lemma_items_made_then_matched(
            items,
            targets,
            (n - 1) as nat,
            source,
            held,
            total,
            fns,
            depth,
        );
        lemma_construct_items_wf(items, (n - 1) as nat, source, fns, depth, false);
        let (r, s2) = construct(items[n - 1], s1, fns, depth);
        assert(construct_items(items, n, source, fns, depth).0->Ok_0 == front->Ok_0.push(
            r->Ok_0,
        ));
        assert(r->Ok_0 == targets.subrange(0, n as int)[n - 1]);
        assert(r->Ok_0 == targets[n - 1]);
        lemma_construct_wf(items[n - 1], s1, fns, depth, false);
        assert(within(h1, s1));
        lemma_made_then_matched(items[n - 1], s1, h1, total, fns, depth);
        lemma_destruct_wf(items[n - 1], targets[n - 1], h1, fns, depth, false);
    }
}

/// A poly-identifier that took a value as a pattern and gives the value in
/// front of what is left as a constructor gives that value, and keeps the
/// whole of what is held.
pub proof fn lemma_moved_back(base: Env, given: Env, whole: Env, name: Seq<char>, x: Val)
    requires
        base.wf(),
        x.wf(),
        conserved(base, given, whole),
        ahead(base.capture(name, x), whole),
    ensures
        given.queue(name).len() > 0,
        given.queue(name)[0] == x,
        conserved(base.capture(name, x), given.release(name), whole),
{
    let base2 = base.capture(name, x);
    lemma_capture_ahead(base, name, x);
    assert(base.queue(name) + given.queue(name) == whole.queue(name));
    assert(base2.queue(name) == base.queue(name).push(x));
    assert(whole.queue(name).subrange(0, base2.queue(name).len() as int) == base2.queue(name));
    let k = base.queue(name).len() as int;
    assert(whole.queue(name).subrange(0, k + 1)[k] == x);
    assert(whole.queue(name)[k] == x);
    assert((base.queue(name) + given.queue(name))[k] == given.queue(name)[0]);
    let given2 = given.release(name);
    assert forall|p: Seq<char>| base2.queue(p) + given2.queue(p) == whole.queue(p) by {
        assert(base.queue(p) + given.queue(p) == whole.queue(p));
        if p == name {
            assert(given2.queue(p) =~= given.queue(p).drop_first());
            assert(base2.queue(p) + given2.queue(p) =~= base.queue(p) + given.queue(p));
        } else {
            assert(base2.queue(p) =~= base.queue(p));
            assert(given2.queue(p) =~= given.queue(p));
        }
    }
}

/// Constructing a pattern from what it bound when it matched a value makes
/// that value again, and each poly-identifier gives back what it took.
///
/// `base` is what was bound before the match, `given` what the constructor
/// starts from, and `whole` what was bound when all matching was done.
pub proof fn lemma_matched_then_made(
    e: Expr,
    x: Val,
    base: Env,
    given: Env,
    whole: Env,
    fns: Program,
    depth: nat,
)
    requires
        fns.exact,
        invertible(e, true),
        x.wf(),
        base.wf(),
        given.wf(),
        destruct(e, x, base, fns, depth).0 is Ok,
        within(destruct(e, x, base, fns, depth).1, whole),
        ahead(destruct(e, x, base, fns, depth).1, whole),
        within(given, whole),
        conserved(base, given, whole),
        construct(e, given, fns, depth).0 is Ok,
    ensures
        construct(e, given, fns, depth).0 == Ok::<Val, crate::error::RuntimeError>(x),
        conserved(destruct(e, x, base, fns, depth).1, construct(e, given, fns, depth).1, whole),
    decreases e, 1nat,
{
    let bound = destruct(e, x, base, fns, depth).1;
    match e {
        Expr::Array(items) => {
            let xs = x->Array_0;
            lemma_construct_items_len(items@, items@.len(), given, fns, depth);
            lemma_items_matched_then_made(
                items@,
                xs,
                items@.len(),
                base,
                given,
                whole,
                fns,
                depth,
            );
            assert(xs.subrange(0, items@.len() as int) =~= xs);
        },
        Expr::Tuple(items) => {
            let xs = x->Tuple_0;
            lemma_construct_items_len(items@, items@.len(), given, fns, depth);
            lemma_items_matched_then_made(
                items@,
                xs,
                items@.len(),
                base,
                given,
                whole,
                fns,
                depth,
            );
            assert(xs.subrange(0, items@.len() as int) =~= xs);
        },
        Expr::Ident(i) => {
            assert(bound == base.bind(i@, x));
            assert(bound.idents.contains_key(i@));
            assert(whole.idents[i@] == x);
            assert(given.idents.contains_key(i@));
            assert forall|p: Seq<char>| bound.queue(p) + given.queue(p) == whole.queue(p) by {
                assert(bound.queue(p) == base.queue(p));
            }
        },
        Expr::PolyIdent(i) => {
            lemma_moved_back(base, given, whole, i@, x);
        },
        Expr::Operator(op, left, right) => {
            lemma_operator_matched_then_made(e, x, base, given, whole, fns, depth);
        },
        Expr::UnaryOp(op, operand) => {
            lemma_unary_undone(op, x);
            let inner = apply_unary(op, x)->Ok_0;
            lemma_matched_then_made(*operand, inner, base, given, whole, fns, depth);
        },
        Expr::Cast(operand, to, from) => {
            lemma_cast_undone(x, from, to);
            let inner = x.cast(from, to)->Ok_0;
            lemma_matched_then_made(*operand, inner, base, given, whole, fns, depth);
        },
        Expr::Any => {
            assert(false);
        },
        Expr::Call(_, _) => {
            assert(false);
        },
        _ => {},
    }
}

/// An operator matched and then made: see [`lemma_matched_then_made`].
pub proof fn lemma_operator_matched_then_made(
    e: Expr,
    x: Val,
    base: Env,
    given: Env,
    whole: Env,
    fns: Program,
    depth: nat,
)
    requires
        fns.exact,
        e is Operator,
        invertible(e, true),
        x.wf(),
        base.wf(),
        given.wf(),
        destruct_operator(e, x, base, fns, depth).0 is Ok,
        within(destruct_operator(e, x, base, fns, depth).1, whole),
        ahead(destruct_operator(e, x, base, fns, depth).1, whole),
        within(given, whole),
        conserved(base, given, whole),
        construct(e, given, fns, depth).0 is Ok,
    ensures
        construct(e, given, fns, depth).0 == Ok::<Val, crate::error::RuntimeError>(x),
        conserved(
            destruct_operator(e, x, base, fns, depth).1,
            construct(e, given, fns, depth).1,
            whole,
        ),
    decreases e, 0nat,
{
    let op = e->Operator_0;
    let left = *e->Operator_1;
    let right = *e->Operator_2;
    let none = Env::empty();
    lemma_construct_wf(left, none, fns, depth, true);
    lemma_construct_wf(right, none, fns, depth, true);
    let known_left = construct(left, none, fns, depth).0;
    let known_right = construct(right, none, fns, depth).0;
    let (ra, f1) = construct(left, given, fns, depth);
    let (rb, f2) = construct(right, f1, fns, depth);
    match (known_left, known_right) {
        (Ok(a), Ok(b)) => {
            lemma_closed_destruct(left, a, base, fns, depth, true);
            lemma_closed_destruct(right, b, base, fns, depth, true);
            lemma_closed_construct(left, given, fns, depth);
            lemma_closed_construct(right, given, fns, depth);
        },
        (Ok(a), Err(_)) => {
            lemma_closed_construct(left, given, fns, depth);
            lemma_left_preimage_applied(op, a, x);
            let inner = left_preimage(fns.exact, op, a, x)->Ok_0;
            lemma_matched_then_made(right, inner, base, given, whole, fns, depth);
        },
        (Err(_), Ok(b)) => {
            lemma_right_preimage_applied(op, b, x);
            let inner = right_preimage(fns.exact, op, b, x)->Ok_0;
            lemma_matched_then_made(left, inner, base, given, whole, fns, depth);
            lemma_closed_construct(right, f1, fns, depth);
        },
        (Err(_), Err(_)) => {
            assert(false);
        },
    }
}

/// Items matched and then made in order: see [`lemma_matched_then_made`].
pub proof fn lemma_items_matched_then_made(
    items: Seq<Expr>,
    xs: Seq<Val>,
    n: nat,
    base: Env,
    given: Env,
    whole: Env,
    fns: Program,
    depth: nat,
)
    requires
        fns.exact,
        all_invertible(items, true),
        n <= items.len(),
        items.len() == xs.len(),
        forall|i: int| 0 <= i < xs.len() ==> (#[trigger] xs[i]).wf(),
        base.wf(),
        given.wf(),
        destruct_items(items, xs, n, base, fns, depth).0 is Ok,
        within(destruct_items(items, xs, n, base, fns, depth).1, whole),
        ahead(destruct_items(items, xs, n, base, fns, depth).1, whole),
        within(given, whole),
        conserved(base, given, whole),
        construct_items(items, n, given, fns, depth).0 is Ok,
    ensures
        construct_items(items, n, given, fns, depth).0->Ok_0 == xs.subrange(0, n as int),
        conserved(
            destruct_items(items, xs, n, base, fns, depth).1,
            construct_items(items, n, given, fns, depth).1,
            whole,
        ),
    decreases items, n,
{
    if n == 0 {
        assert(construct_items(items, n, given, fns, depth).0->Ok_0 =~= xs.subrange(0, 0));
    } else {
        lemma_construct_items_len(items, n, given, fns, depth);
        let (found, e1) = destruct_items(items, xs, (n - 1) as nat, base, fns, depth);
        let (front, f1) = construct_items(items, (n - 1) as nat, given, fns, depth);
        let (matched, e2) = destruct(items[n - 1], xs[n - 1], e1, fns, depth);
        let (made, f2) = construct(items[n - 1], f1, fns, depth);
        lemma_destruct_items_wf(items, xs, (n - 1) as nat, base, fns, depth, true);
        lemma_destruct_wf(items[n - 1], xs[n - 1], e1, fns, depth, true);
        lemma_destruct_frame(items[n - 1], xs[n - 1], e1, fns, depth);
        lemma_grows_on(e1, e2, whole);
        lemma_items_matched_then_made(items, xs, (n - 1) as nat, base, given, whole, fns, depth);
        lemma_construct_items_wf(items, (n - 1) as nat, given, fns, depth, true);
        assert(within(f1, whole));
        lemma_matched_then_made(items[n - 1], xs[n - 1], e1, f1, whole, fns, depth);
        assert(construct_items(items, n, given, fns, depth).0->Ok_0 =~= xs.subrange(0, n as int));
    }
}

/// Every rule has a pattern and a constructor that are made of what can be
/// undone.
pub open spec fn invertible_rules(rules: Seq<Transformation>) -> bool {
    forall|i: int|
        0 <= i < rules.len() ==> invertible((#[trigger] rules[i])->destruct, true) && invertible(
            rules[i]->construct,
            false,
        )
}

/// A rule applied in reverse to what it made gives, if it gives anything, the
/// value that it was applied to.
pub proof fn law_rule_undone(pattern: Expr, generator: Expr, x: Val, fns: Program, depth: nat)
    requires
        fns.exact,
        invertible(pattern, true),
        invertible(generator, false),
        x.wf(),
        apply_rule(pattern, generator, x, fns, depth) is Ok,
        apply_rule(
            generator,
            pattern,
            apply_rule(pattern, generator, x, fns, depth)->Ok_0,
            fns,
            depth,
        ) is Ok,
    ensures
        apply_rule(pattern, generator, x, fns, depth)->Ok_0.wf(),
        apply_rule(
            generator,
            pattern,
            apply_rule(pattern, generator, x, fns, depth)->Ok_0,
            fns,
            depth,
        ) == Ok::<Val, RuntimeError>(x),
{
    let none = Env::empty();
    let y = apply_rule(pattern, generator, x, fns, depth)->Ok_0;
    let (matched, bound) = destruct(pattern, x, none, fns, depth);
    let (made, left) = construct(generator, bound, fns, depth);
    lemma_destruct_wf(pattern, x, none, fns, depth, true);
    lemma_construct_wf(generator, bound, fns, depth, false);
    assert(y == made->Ok_0);
    let (matched_back, bound_back) = destruct(generator, y, none, fns, depth);
    let (made_back, left_back) = construct(pattern, bound_back, fns, depth);
    lemma_destruct_wf(generator, y, none, fns, depth, false);
    assert forall|p: Seq<char>| none.queue(p) + bound.queue(p) == bound.queue(p) by {
        assert(none.queue(p) + bound.queue(p) =~= bound.queue(p));
    }
    lemma_made_then_matched(generator, bound, none, bound, fns, depth);
    assert forall|p: Seq<char>| none.queue(p) + bound_back.queue(p) == bound.queue(p) by {
        assert(bound_back.queue(p) + left.queue(p) == bound.queue(p));
        if left.polyidents.contains_key(p) {
            assert(left.polyidents[p].len() == 0);
        }
        assert(left.queue(p).len() == 0);
        assert(none.queue(p) + bound_back.queue(p) =~= bound_back.queue(p) + left.queue(p));
    }
    lemma_ahead_of_itself(bound);
    lemma_matched_then_made(pattern, x, none, bound_back, bound, fns, depth);
}

/// The rules before the last are run as they are run without the last.
pub proof fn lemma_run_rules_front(
    rules: Seq<Transformation>,
    n: nat,
    x: Val,
    fns: Program,
    depth: nat,
)
    requires
        rules.len() > 0,
        n < rules.len(),
    ensures
        run_rules(rules, n, x, fns, depth) == run_rules(rules.drop_last(), n, x, fns, depth),
    decreases n,
{
    if n > 0 {
        lemma_run_rules_front(rules, (n - 1) as nat, x, fns, depth);
        assert(rules.drop_last()[n - 1] == rules[n - 1]);
    }
}

/// Running in reverse undoes the last rule first, and then the rules before
/// it as they are undone without the last.
pub proof fn lemma_reverse_rules_last(
    rules: Seq<Transformation>,
    k: nat,
    y: Val,
    fns: Program,
    depth: nat,
)
    requires
        rules.len() > 0,
        k < rules.len(),
    ensures
        reverse_rules(rules, k + 1, y, fns, depth) == match apply_rule(
            rules.last()->construct,
            rules.last()->destruct,
            y,
            fns,
            depth,
        ) {
            Ok(z) => reverse_rules(rules.drop_last(), k, z, fns, depth),
            Err(err) => Err(err),
        },
    decreases k,
{
    let init = rules.drop_last();
    if k == 0 {
        assert(reverse_rules(rules, 0, y, fns, depth) == Ok::<Val, RuntimeError>(y));
        assert(rules[rules.len() - 1] == rules.last());
    } else {
        lemma_reverse_rules_last(rules, (k - 1) as nat, y, fns, depth);
        assert(init[init.len() - k] == rules[rules.len() - (k + 1)]);
    }
}

/// Rules run in reverse on what they made give, if they give anything, the
/// value that they were run on.
pub proof fn law_rules_undone(rules: Seq<Transformation>, x: Val, fns: Program, depth: nat)
    requires
        fns.exact,
        invertible_rules(rules),
        x.wf(),
        run_rules(rules, rules.len(), x, fns, depth) is Ok,
        reverse_rules(
            rules,
            rules.len(),
            run_rules(rules, rules.len(), x, fns, depth)->Ok_0,
            fns,
            depth,
        ) is Ok,
    ensures
        run_rules(rules, rules.len(), x, fns, depth)->Ok_0.wf(),
        reverse_rules(
            rules,
            rules.len(),
            run_rules(rules, rules.len(), x, fns, depth)->Ok_0,
            fns,
            depth,
        ) == Ok::<Val, RuntimeError>(x),
    decreases rules.len(),
{
    if rules.len() > 0 {
        let n = rules.len();
        let init = rules.drop_last();
        let last = rules.last();
        let y = run_rules(rules, n, x, fns, depth)->Ok_0;
        lemma_run_rules_front(rules, (n - 1) as nat, x, fns, depth);
        let m = run_rules(init, (n - 1) as nat, x, fns, depth)->Ok_0;
        assert(run_rules(rules, (n - 1) as nat, x, fns, depth) is Ok);
        assert(y == apply_rule(last->destruct, last->construct, m, fns, depth)->Ok_0);
        lemma_reverse_rules_last(rules, (n - 1) as nat, y, fns, depth);
        let z = apply_rule(last->construct, last->destruct, y, fns, depth)->Ok_0;
        assert(invertible_rules(init)) by {
            assert forall|i: int| 0 <= i < init.len() implies invertible(
                (#[trigger] init[i])->destruct,
                true,
            ) && invertible(init[i]->construct, false) by {
                assert(init[i] == rules[i]);
            }
        }
        lemma_rules_wf(init, x, fns, depth);
        assert(rules[n - 1] == last);
        law_rule_undone(last->destruct, last->construct, m, fns, depth);
        assert(z == m);
        law_rules_undone(init, x, fns, depth);
    }
}

/// What rules make of a well-formed value is well formed.
pub proof fn lemma_rules_wf(rules: Seq<Transformation>, x: Val, fns: Program, depth: nat)
    requires
        fns.exact,
        invertible_rules(rules),
        x.wf(),
        run_rules(rules, rules.len(), x, fns, depth) is Ok,
    ensures
        run_rules(rules, rules.len(), x, fns, depth)->Ok_0.wf(),
    decreases rules.len(),
{
    if rules.len() > 0 {
        let n = rules.len();
        let init = rules.drop_last();
        let last = rules.last();
        lemma_run_rules_front(rules, (n - 1) as nat, x, fns, depth);
        assert(invertible_rules(init)) by {
            assert forall|i: int| 0 <= i < init.len() implies invertible(
                (#[trigger] init[i])->destruct,
                true,
            ) && invertible(init[i]->construct, false) by {
                assert(init[i] == rules[i]);
            }
        }
        assert(run_rules(rules, (n - 1) as nat, x, fns, depth) is Ok);
        lemma_rules_wf(init, x, fns, depth);
        let m = run_rules(init, (n - 1) as nat, x, fns, depth)->Ok_0;
        assert(rules[n - 1] == last);
        let y = run_rules(rules, n, x, fns, depth)->Ok_0;
        assert(y == apply_rule(last->destruct, last->construct, m, fns, depth)->Ok_0);
        let none = Env::empty();
        lemma_destruct_wf(last->destruct, m, none, fns, depth, true);
        let bound = destruct(last->destruct, m, none, fns, depth).1;
        lemma_construct_wf(last->construct, bound, fns, depth, false);
        assert(y == construct(last->construct, bound, fns, depth).0->Ok_0);
    }
}

/// Running a function exactly and then running it exactly in reverse on
/// what it made gives, if it gives anything, the value that the function was
/// run on.
///
/// This is said of the functions whose rules are made of literals,
/// identifiers, poly-identifiers, the wildcard, arrays, tuples, the operators
/// `+`, `-` and `/`, the unary operators, and casts that lose nothing on the
/// way back.
pub proof fn law_reverse_undoes_run(name: Seq<char>, x: Val, fns: Program, depth: nat)
    requires
        fns.exact,
        fns.rules.contains_key(name),
        invertible_rules(fns.rules[name]),
        x.wf(),
        run(name, x, fns, depth) is Ok,
        reverse(name, run(name, x, fns, depth)->Ok_0, fns, depth) is Ok,
    ensures
        reverse(name, run(name, x, fns, depth)->Ok_0, fns, depth) == Ok::<Val, RuntimeError>(x),
{
    law_rules_undone(fns.rules[name], x, fns, depth);
}

/// Whether `e` is made of what can be undone: see [`invertible`].
pub fn is_invertible(e: &Expr, pattern: bool) -> (r: bool)
    ensures
        r == invertible(*e, pattern),
    decreases e,
{
    match e {
        Expr::Number(n) => {
            n.is_nan();
            true
        },
        Expr::String(_, _) => true,
        Expr::Bool(_) => true,
        Expr::Ident(_) => true,
        Expr::PolyIdent(_) => true,
        Expr::Any => true,
        Expr::Array(items) => are_invertible(items, pattern),
        Expr::Tuple(items) => are_invertible(items, pattern),
        Expr::Operator(op, left, right) => {
            let undone = match op {
                Operator::Add => true,
                Operator::Sub => true,
                Operator::Div => true,
                _ => false,
            };
            undone && is_invertible(left, pattern) && is_invertible(right, pattern)
        },
        Expr::UnaryOp(_, operand) => is_invertible(operand, pattern),
        Expr::Cast(operand, to, from) => {
            let kept = if pattern {
                loses_nothing(to, from)
            } else {
                loses_nothing(from, to)
            };
            is_invertible(operand, pattern) && kept
        },
        Expr::Call(_, _) => false,
    }
}

/// Whether casting from `a` to `b` and back gives the value: see
/// [`lossless`].
pub fn loses_nothing(a: &Type, b: &Type) -> (r: bool)
    ensures
        r == lossless(*a, *b),
{
    match (a, b) {
        (Type::Number, Type::String) => true,
        (Type::String, Type::Array) => true,
        (Type::String, Type::Tuple) => true,
        _ => *a == *b,
    }
}

/// Whether all of `items` are made of what can be undone.
pub fn are_invertible(items: &Vec<Expr>, pattern: bool) -> (r: bool)
    ensures
        r == all_invertible(items@, pattern),
    decreases items,
{
    let mut i: usize = 0;
    while i < items.len()
        invariant
            i <= items.len(),
            forall|j: int| 0 <= j < i ==> invertible(#[trigger] items@[j], pattern),
        decreases items.len() - i,
    {
        if !is_invertible(&items[i], pattern) {
            return false;
        }
        i = i + 1;
    }
    true
}

/// Whether every rule has a pattern and a constructor that are made of what
/// can be undone: see [`invertible_rules`].
pub fn are_invertible_rules(rules: &Vec<Transformation>) -> (r: bool)
    ensures
        r == invertible_rules(rules@),
{
    let mut i: usize = 0;
    while i < rules.len()
        invariant
            i <= rules.len(),
            forall|j: int|
                0 <= j < i ==> invertible((#[trigger] rules@[j])->destruct, true) && invertible(
                    rules@[j]->construct,
                    false,
                ),
        decreases rules.len() - i,
    {
        let fine = match &rules[i] {
            Transformation::Forced { destruct, construct } => is_invertible(destruct, true)
                && is_invertible(construct, false),
        };
        if !fine {
            return false;
        }
        i = i + 1;
    }
    true
}

} // verus!
