//! What constructing and matching can do to the bindings, whatever the
//! expression: a constructor leaves the identifiers alone and takes values
//! from the front of what the poly-identifiers hold; a pattern binds more
//! identifiers and puts values behind what the poly-identifiers hold.
use crate::ast::{Expr, Operator};
use crate::semantics::{
    apply_unary, construct, construct_items, destruct, destruct_items, destruct_operator,
    left_preimage, repeat, repeat_more, reverse, right_preimage, Program,
};
use crate::value::Val;
use crate::variables::Env;
use vstd::prelude::*;

verus! {

/// Every identifier bound in `a` is bound to the same value in `b`.
pub open spec fn within(a: Env, b: Env) -> bool {
    forall|k: Seq<char>| #[trigger]
        a.idents.contains_key(k) ==> b.idents.contains_key(k) && b.idents[k] == a.idents[k]
}

/// Each poly-identifier holds in `b` what it holds in `a`, and then maybe
/// more.
pub open spec fn ahead(a: Env, b: Env) -> bool {
    forall|p: Seq<char>|
        #![trigger a.queue(p)]
        #![trigger b.queue(p)]
        a.queue(p).len() <= b.queue(p).len() && b.queue(p).subrange(0, a.queue(p).len() as int)
            == a.queue(p)
}

/// Each poly-identifier holds in `a` the end of what it holds in `b`: what
/// is missing was taken from the front.
pub open spec fn behind(a: Env, b: Env) -> bool {
    forall|p: Seq<char>|
        #![trigger a.queue(p)]
        #![trigger b.queue(p)]
        a.queue(p).len() <= b.queue(p).len() && b.queue(p).subrange(
            b.queue(p).len() - a.queue(p).len(),
            b.queue(p).len() as int,
        ) == a.queue(p)
}

/// Bindings are ahead of and behind themselves.
pub proof fn lemma_ahead_of_itself(env: Env)
    ensures
        ahead(env, env),
        behind(env, env),
        within(env, env),
{
    assert forall|p: Seq<char>|
        env.queue(p).len() <= env.queue(p).len() && env.queue(p).subrange(
            0,
            env.queue(p).len() as int,
        ) == env.queue(p) by {
        assert(env.queue(p).subrange(0, env.queue(p).len() as int) =~= env.queue(p));
    }
}

/// Being ahead, and holding the same identifiers, carries over.
pub proof fn lemma_grows_on(a: Env, b: Env, c: Env)
    requires
        within(a, b),
        ahead(a, b),
        within(b, c),
        ahead(b, c),
    ensures
        within(a, c),
        ahead(a, c),
{
    assert forall|k: Seq<char>| #[trigger] a.idents.contains_key(k) implies c.idents.contains_key(
        k,
    ) && c.idents[k] == a.idents[k] by {
        assert(b.idents.contains_key(k));
    }
    assert forall|p: Seq<char>|
        a.queue(p).len() <= c.queue(p).len() && c.queue(p).subrange(0, a.queue(p).len() as int)
            == a.queue(p) by {
        assert(a.queue(p).len() <= b.queue(p).len());
        assert(b.queue(p).len() <= c.queue(p).len());
        assert(b.queue(p).subrange(0, a.queue(p).len() as int) == a.queue(p));
        assert(c.queue(p).subrange(0, b.queue(p).len() as int) == b.queue(p));
        assert(c.queue(p).subrange(0, a.queue(p).len() as int) =~= c.queue(p).subrange(
            0,
            b.queue(p).len() as int,
        ).subrange(0, a.queue(p).len() as int));
    }
}

/// Being behind carries over.
pub proof fn lemma_behind_on(a: Env, b: Env, c: Env)
    requires
        behind(a, b),
        behind(b, c),
    ensures
        behind(a, c),
{
    assert forall|p: Seq<char>|
        a.queue(p).len() <= c.queue(p).len() && c.queue(p).subrange(
            c.queue(p).len() - a.queue(p).len(),
            c.queue(p).len() as int,
        ) == a.queue(p) by {
        let (qa, qb, qc) = (a.queue(p), b.queue(p), c.queue(p));
        assert(qa.len() <= qb.len());
        assert(qb.len() <= qc.len());
        assert(qb.subrange(qb.len() - qa.len(), qb.len() as int) == qa);
        assert(qc.subrange(qc.len() - qb.len(), qc.len() as int) == qb);
        assert(qc.subrange(qc.len() - qa.len(), qc.len() as int) =~= qc.subrange(
            qc.len() - qb.len(),
            qc.len() as int,
        ).subrange(qb.len() - qa.len(), qb.len() as int));
    }
}

/// What can be constructed without any bindings is constructed from any
/// bindings to the same value, and leaves them as they are.
pub proof fn lemma_closed_construct(e: Expr, env: Env, fns: Program, depth: nat)
    requires
        construct(e, Env::empty(), fns, depth).0 is Ok,
    ensures
        construct(e, Env::empty(), fns, depth).1 == Env::empty(),
        construct(e, env, fns, depth) == (construct(e, Env::empty(), fns, depth).0, env),
    decreases e, 1nat, 0nat,
{
    let none = Env::empty();
    match e {
        Expr::Array(items) => {
            lemma_closed_construct_items(items@, items@.len(), env, fns, depth);
        },
        Expr::Tuple(items) => {
            lemma_closed_construct_items(items@, items@.len(), env, fns, depth);
        },
        Expr::Operator(op, left, right) => {
            if op == Operator::Mul {
                lemma_closed_construct(*right, env, fns, depth);
                let b = construct(*right, none, fns, depth).0->Ok_0;
                lemma_closed_repeat(*left, b, env, fns, depth);
            } else {
                lemma_closed_construct(*left, env, fns, depth);
                lemma_closed_construct(*right, env, fns, depth);
            }
        },
        Expr::UnaryOp(op, operand) => {
            lemma_closed_construct(*operand, env, fns, depth);
        },
        Expr::Cast(operand, to, from) => {
            lemma_closed_construct(*operand, env, fns, depth);
        },
        Expr::Call(f, argument) => {
            lemma_closed_construct(*argument, env, fns, depth);
        },
        _ => {},
    }
}

/// Constructing items in order: see [`lemma_closed_construct`].
pub proof fn lemma_closed_construct_items(
    items: Seq<Expr>,
    n: nat,
    env: Env,
    fns: Program,
    depth: nat,
)
    requires
        construct_items(items, n, Env::empty(), fns, depth).0 is Ok,
    ensures
        construct_items(items, n, Env::empty(), fns, depth).1 == Env::empty(),
        construct_items(items, n, env, fns, depth) == (
            construct_items(items, n, Env::empty(), fns, depth).0,
            env,
        ),
    decreases items, 1nat, n,
{
    if n == 0 || n > items.len() {
    } else {
        lemma_closed_construct_items(items, (n - 1) as nat, env, fns, depth);
        lemma_closed_construct(items[n - 1], env, fns, depth);
    }
}

/// Repeating what can be constructed without any bindings: see
/// [`lemma_closed_construct`].
pub proof fn lemma_closed_repeat(left: Expr, right: Val, env: Env, fns: Program, depth: nat)
    requires
        repeat(left, right, Env::empty(), fns, depth).0 is Ok,
    ensures
        repeat(left, right, Env::empty(), fns, depth).1 == Env::empty(),
        repeat(left, right, env, fns, depth) == (
            repeat(left, right, Env::empty(), fns, depth).0,
            env,
        ),
    decreases left, 3nat, 0nat,
{
    let none = Env::empty();
    if let Val::Number(factor) = right {
        lemma_closed_construct(left, env, fns, depth);
        let first = construct(left, none, fns, depth).0->Ok_0;
        if !(first is Number) {
            if let Some(times) = factor.count() {
                if times > 0 {
                    lemma_closed_repeat_more(left, first, (times - 1) as nat, env, fns, depth);
                }
            }
        }
    } else {
        lemma_closed_construct(left, env, fns, depth);
    }
}

/// Adding up what can be constructed without any bindings: see
/// [`lemma_closed_construct`].
pub proof fn lemma_closed_repeat_more(
    left: Expr,
    sum: Val,
    times: nat,
    env: Env,
    fns: Program,
    depth: nat,
)
    requires
        repeat_more(left, sum, times, Env::empty(), fns, depth).0 is Ok,
    ensures
        repeat_more(left, sum, times, Env::empty(), fns, depth).1 == Env::empty(),
        repeat_more(left, sum, times, env, fns, depth) == (
            repeat_more(left, sum, times, Env::empty(), fns, depth).0,
            env,
        ),
    decreases left, 2nat, times,
{
    let none = Env::empty();
    if times > 0 {
        lemma_closed_construct(left, env, fns, depth);
        let v = construct(left, none, fns, depth).0->Ok_0;
        let more = sum.sum(v)->Ok_0;
        lemma_closed_repeat_more(left, more, (times - 1) as nat, env, fns, depth);
    }
}

/// Where the left side can be constructed without any bindings, multiplying
/// it leaves the bindings as they are, whatever comes of it.
pub proof fn lemma_closed_repeat_any(left: Expr, right: Val, env: Env, fns: Program, depth: nat)
    requires
        construct(left, Env::empty(), fns, depth).0 is Ok,
    ensures
        repeat(left, right, env, fns, depth).1 == env,
{
    if let Val::Number(factor) = right {
        lemma_closed_construct(left, env, fns, depth);
        let first = construct(left, env, fns, depth).0->Ok_0;
        if !(first is Number) {
            if let Some(times) = factor.count() {
                if times > 0 {
                    lemma_closed_repeat_more_any(left, first, (times - 1) as nat, env, fns, depth);
                }
            }
        }
    } else {
        lemma_closed_construct(left, env, fns, depth);
    }
}

/// Adding up more of what can be constructed without any bindings leaves the
/// bindings as they are, whatever comes of it.
pub proof fn lemma_closed_repeat_more_any(
    left: Expr,
    sum: Val,
    times: nat,
    env: Env,
    fns: Program,
    depth: nat,
)
    requires
        construct(left, Env::empty(), fns, depth).0 is Ok,
    ensures
        repeat_more(left, sum, times, env, fns, depth).1 == env,
    decreases times,
{
    if times > 0 {
        lemma_closed_construct(left, env, fns, depth);
        let v = construct(left, env, fns, depth).0->Ok_0;
        if sum.sum(v) is Ok {
            lemma_closed_repeat_more_any(
                left,
                sum.sum(v)->Ok_0,
                (times - 1) as nat,
                env,
                fns,
                depth,
            );
        }
    }
}

/// A constructor leaves the identifiers as they are, and each
/// poly-identifier with the end of what it held: whatever it took, it took
/// from the front, in order.
pub proof fn lemma_construct_frame(e: Expr, env: Env, fns: Program, depth: nat)
    ensures
        construct(e, env, fns, depth).1.idents == env.idents,
        behind(construct(e, env, fns, depth).1, env),
    decreases e, 1nat, 0nat,
{
    lemma_ahead_of_itself(env);
    match e {
        Expr::Array(items) => {
            lemma_construct_items_frame(items@, items@.len(), env, fns, depth);
        },
        Expr::Tuple(items) => {
            lemma_construct_items_frame(items@, items@.len(), env, fns, depth);
        },
        Expr::PolyIdent(i) => {
            if env.queue(i@).len() > 0 {
                lemma_release_behind(env, i@);
            }
        },
        Expr::Operator(op, left, right) => {
            if op == Operator::Mul {
                lemma_construct_frame(*right, env, fns, depth);
                let (rb, env1) = construct(*right, env, fns, depth);
                if rb is Ok {
                    lemma_repeat_frame(*left, rb->Ok_0, env1, fns, depth);
                    lemma_behind_on(repeat(*left, rb->Ok_0, env1, fns, depth).1, env1, env);
                }
            } else {
                lemma_construct_frame(*left, env, fns, depth);
                let (ra, env1) = construct(*left, env, fns, depth);
                if ra is Ok {
                    lemma_construct_frame(*right, env1, fns, depth);
                    lemma_behind_on(construct(*right, env1, fns, depth).1, env1, env);
                }
            }
        },
        Expr::UnaryOp(op, operand) => {
            lemma_construct_frame(*operand, env, fns, depth);
        },
        Expr::Cast(operand, to, from) => {
            lemma_construct_frame(*operand, env, fns, depth);
        },
        Expr::Call(f, argument) => {
            lemma_construct_frame(*argument, env, fns, depth);
        },
        _ => {},
    }
}

/// Taking a value from a poly-identifier leaves it with the end of what it
/// held.
pub proof fn lemma_release_behind(env: Env, name: Seq<char>)
    requires
        env.queue(name).len() > 0,
    ensures
        behind(env.release(name), env),
{
    let after = env.release(name);
    assert forall|p: Seq<char>|
        after.queue(p).len() <= env.queue(p).len() && env.queue(p).subrange(
            env.queue(p).len() - after.queue(p).len(),
            env.queue(p).len() as int,
        ) == after.queue(p) by {
        if p == name {
            assert(after.queue(p) =~= env.queue(p).drop_first());
            assert(env.queue(p).subrange(1, env.queue(p).len() as int) =~= after.queue(p));
        } else {
            assert(after.queue(p) =~= env.queue(p));
            assert(env.queue(p).subrange(0, env.queue(p).len() as int) =~= env.queue(p));
        }
    }
}

/// Constructing items in order: see [`lemma_construct_frame`].
pub proof fn lemma_construct_items_frame(
    items: Seq<Expr>,
    n: nat,
    env: Env,
    fns: Program,
    depth: nat,
)
    ensures
        construct_items(items, n, env, fns, depth).1.idents == env.idents,
        behind(construct_items(items, n, env, fns, depth).1, env),
    decreases items, 1nat, n,
{
    lemma_ahead_of_itself(env);
    if n == 0 || n > items.len() {
    } else {
        lemma_construct_items_frame(items, (n - 1) as nat, env, fns, depth);
        let (front, env1) = construct_items(items, (n - 1) as nat, env, fns, depth);
        if front is Ok {
            lemma_construct_frame(items[n - 1], env1, fns, depth);
            lemma_behind_on(construct(items[n - 1], env1, fns, depth).1, env1, env);
        }
    }
}

/// Multiplying: see [`lemma_construct_frame`].
pub proof fn lemma_repeat_frame(left: Expr, right: Val, env: Env, fns: Program, depth: nat)
    ensures
        repeat(left, right, env, fns, depth).1.idents == env.idents,
        behind(repeat(left, right, env, fns, depth).1, env),
    decreases left, 3nat, 0nat,
{
    lemma_ahead_of_itself(env);
    if let Val::Number(factor) = right {
        lemma_construct_frame(left, env, fns, depth);
        let (r, env1) = construct(left, env, fns, depth);
        if r is Ok && !(r->Ok_0 is Number) {
            if let Some(times) = factor.count() {
                if times > 0 {
                    lemma_repeat_more_frame(
                        left,
                        r->Ok_0,
                        (times - 1) as nat,
                        env1,
                        fns,
                        depth,
                    );
                    lemma_behind_on(
                        repeat_more(left, r->Ok_0, (times - 1) as nat, env1, fns, depth).1,
                        env1,
                        env,
                    );
                }
            }
        }
    } else {
        lemma_construct_frame(left, env, fns, depth);
    }
}

/// Adding up: see [`lemma_construct_frame`].
pub proof fn lemma_repeat_more_frame(
    left: Expr,
    sum: Val,
    times: nat,
    env: Env,
    fns: Program,
    depth: nat,
)
    ensures
        repeat_more(left, sum, times, env, fns, depth).1.idents == env.idents,
        behind(repeat_more(left, sum, times, env, fns, depth).1, env),
    decreases left, 2nat, times,
{
    lemma_ahead_of_itself(env);
    if times > 0 {
        lemma_construct_frame(left, env, fns, depth);
        let (r, env1) = construct(left, env, fns, depth);
        if r is Ok && sum.sum(r->Ok_0) is Ok {
            lemma_repeat_more_frame(
                left,
                sum.sum(r->Ok_0)->Ok_0,
                (times - 1) as nat,
                env1,
                fns,
                depth,
            );
            lemma_behind_on(
                repeat_more(left, sum.sum(r->Ok_0)->Ok_0, (times - 1) as nat, env1, fns, depth).1,
                env1,
                env,
            );
        }
    }
}

/// A capture puts the value behind what the poly-identifier holds and
/// changes nothing else.
pub proof fn lemma_capture_ahead(env: Env, name: Seq<char>, value: Val)
    ensures
        within(env, env.capture(name, value)),
        ahead(env, env.capture(name, value)),
        env.capture(name, value).queue(name) == env.queue(name).push(value),
        forall|p: Seq<char>| p != name ==> #[trigger] env.capture(name, value).queue(p) == env.queue(p),
{
    let after = env.capture(name, value);
    assert forall|p: Seq<char>|
        env.queue(p).len() <= after.queue(p).len() && after.queue(p).subrange(
            0,
            env.queue(p).len() as int,
        ) == env.queue(p) by {
        assert(after.queue(p).subrange(0, env.queue(p).len() as int) =~= env.queue(p));
    }
}

/// A binding changes nothing that was bound.
pub proof fn lemma_bind_ahead(env: Env, name: Seq<char>, value: Val)
    requires
        env.accepts(name, value),
    ensures
        within(env, env.bind(name, value)),
        ahead(env, env.bind(name, value)),
{
    let after = env.bind(name, value);
    assert forall|p: Seq<char>|
        env.queue(p).len() <= after.queue(p).len() && after.queue(p).subrange(
            0,
            env.queue(p).len() as int,
        ) == env.queue(p) by {
        assert(after.queue(p).subrange(0, env.queue(p).len() as int) =~= env.queue(p));
    }
}

/// A pattern leaves every binding as it was and adds to them: identifiers
/// stay bound to what they were bound to, and poly-identifiers hold what
/// they held, and then maybe more.
pub proof fn lemma_destruct_frame(e: Expr, target: Val, env: Env, fns: Program, depth: nat)
    ensures
        within(env, destruct(e, target, env, fns, depth).1),
        ahead(env, destruct(e, target, env, fns, depth).1),
    decreases e, 1nat, 0nat,
{
    lemma_ahead_of_itself(env);
    match e {
        Expr::Array(items) => {
            if let Val::Array(targets) = target {
                lemma_destruct_items_frame(items@, targets, items@.len(), env, fns, depth);
            }
        },
        Expr::Tuple(items) => {
            if let Val::Tuple(targets) = target {
                lemma_destruct_items_frame(items@, targets, items@.len(), env, fns, depth);
            }
        },
        Expr::Ident(i) => {
            if env.accepts(i@, target) {
                lemma_bind_ahead(env, i@, target);
            }
        },
        Expr::PolyIdent(i) => {
            lemma_capture_ahead(env, i@, target);
        },
        Expr::Operator(op, left, right) => {
            lemma_destruct_operator_frame(e, target, env, fns, depth);
        },
        Expr::UnaryOp(op, operand) => {
            if apply_unary(op, target) is Ok {
                lemma_destruct_frame(
                    *operand,
                    apply_unary(op, target)->Ok_0,
                    env,
                    fns,
                    depth,
                );
            }
        },
        Expr::Cast(operand, to, from) => {
            if target.cast(from, to) is Ok {
                lemma_destruct_frame(*operand, target.cast(from, to)->Ok_0, env, fns, depth);
            }
        },
        Expr::Call(f, argument) => {
            if depth > 0 && reverse(f@, target, fns, (depth - 1) as nat) is Ok {
                lemma_destruct_frame(
                    *argument,
                    reverse(f@, target, fns, (depth - 1) as nat)->Ok_0,
                    env,
                    fns,
                    depth,
                );
            }
        },
        _ => {},
    }
}

/// Matching against an operator: see [`lemma_destruct_frame`].
pub proof fn lemma_destruct_operator_frame(
    e: Expr,
    target: Val,
    env: Env,
    fns: Program,
    depth: nat,
)
    requires
        e is Operator,
    ensures
        within(env, destruct_operator(e, target, env, fns, depth).1),
        ahead(env, destruct_operator(e, target, env, fns, depth).1),
    decreases e, 0nat, 0nat,
{
    let op = e->Operator_0;
    let left = *e->Operator_1;
    let right = *e->Operator_2;
    let none = Env::empty();
    let known_left = construct(left, none, fns, depth).0;
    let known_right = construct(right, none, fns, depth).0;
    lemma_ahead_of_itself(env);
    match (known_left, known_right) {
        (Ok(a), Ok(b)) => {
            lemma_destruct_frame(left, a, env, fns, depth);
            let (r1, env1) = destruct(left, a, env, fns, depth);
            if r1 is Ok {
                lemma_destruct_frame(right, b, env1, fns, depth);
                let (r2, env2) = destruct(right, b, env1, fns, depth);
                lemma_grows_on(env, env1, env2);
                if r2 is Ok && op == Operator::Mul {
                    lemma_closed_repeat_any(left, b, env2, fns, depth);
                }
            }
        },
        (Ok(a), Err(_)) => {
            let inner = left_preimage(fns.exact, op, a, target);
            if inner is Ok {
                lemma_destruct_frame(right, inner->Ok_0, env, fns, depth);
            }
        },
        (Err(_), Ok(b)) => {
            let inner = right_preimage(fns.exact, op, b, target);
            if inner is Ok {
                lemma_destruct_frame(left, inner->Ok_0, env, fns, depth);
            }
        },
        (Err(_), Err(_)) => {},
    }
}

/// Matching items in order: see [`lemma_destruct_frame`].
pub proof fn lemma_destruct_items_frame(
    items: Seq<Expr>,
    targets: Seq<Val>,
    n: nat,
    env: Env,
    fns: Program,
    depth: nat,
)
    ensures
        within(env, destruct_items(items, targets, n, env, fns, depth).1),
        ahead(env, destruct_items(items, targets, n, env, fns, depth).1),
    decreases items, 1nat, n,
{
    lemma_ahead_of_itself(env);
    if n == 0 || n > items.len() {
    } else {
        lemma_destruct_items_frame(items, targets, (n - 1) as nat, env, fns, depth);
        let (front, env1) = destruct_items(items, targets, (n - 1) as nat, env, fns, depth);
        if front is Ok {
            lemma_destruct_frame(items[n - 1], targets[n - 1], env1, fns, depth);
            let env2 = destruct(items[n - 1], targets[n - 1], env1, fns, depth).1;
            lemma_grows_on(env, env1, env2);
        }
    }
}

} // verus!
