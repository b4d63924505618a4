//! The typing rules of the language (Hindley-Milner with let-polymorphism)
//! and the proofs that inference is sound and complete with respect to them,
//! and that the type it gives is principal.
use vstd::prelude::*;

use crate::{
    ast::{BinaryOp, Expr, ExprKind},
    infer::{
        env_var, extend, fresh, generalizable, infer_expr, infer_spec, inference_fits,
        lemma_infer_grows, lemma_position, lemma_rename_scoped, lookup_scheme, position, rename,
        shadowed, Binding, Inferred,
    },
    types::{Type, TypeVar},
    unify::{
        adds_none, apply, avoids, bound, law_unifier_unifies, lemma_adds_none_self,
        lemma_adds_none_trans, lemma_apply_resolved, lemma_apply_unbound, lemma_push_unbound,
        lemma_refines_apply, lemma_refines_self, lemma_refines_trans, lemma_resolved_scoped,
        lemma_scoped_mono, lemma_unify, lemma_unify_adds_none, lemma_unify_len, occurs, refines,
        resolved, law_unifier_is_most_general,
        scoped, unify, wf, Substitution,
    },
};

verus! {

/// Every binding's type mentions only variables below `n`.
pub open spec fn within(env: Seq<Binding>, n: nat) -> bool {
    forall|i: int| 0 <= i < env.len() ==> scoped(n, (#[trigger] env[i]).2)
}

/// Binding `i` is visible (not hidden by a later binding of its name) and
/// mentions `v` outside its quantified variables.
pub open spec fn mentions(env: Seq<Binding>, i: int, v: TypeVar) -> bool {
    &&& 0 <= i < env.len()
    &&& !shadowed(env, i)
    &&& occurs(v, env[i].2)
    &&& !env[i].1.contains(v)
}

/// `s` leaves the variables of `x` alone, they have been made, and what `s`
/// makes of any variable a visible binding mentions avoids them.
pub open spec fn guards(s: Substitution, env: Seq<Binding>, x: Set<TypeVar>) -> bool {
    &&& forall|w: TypeVar| #[trigger] x.contains(w) ==> w < s.len() && apply(s, Type::Var(w)) == Type::Var(w)
    &&& forall|i: int, v: TypeVar| #[trigger] mentions(env, i, v) ==> avoids(apply(s, Type::Var(v)), x)
}

/// Some binding of `env` quantifies `w`.
pub open spec fn quantified_in(env: Seq<Binding>, w: TypeVar) -> bool {
    exists|i: int| 0 <= i < env.len() && (#[trigger] env[i]).1.contains(w)
}

/// The variables that the bindings of `env` quantify.
pub open spec fn protected(env: Seq<Binding>) -> Set<TypeVar> {
    Set::new(|w: TypeVar| quantified_in(env, w))
}

/// The state inference works in: a well-formed substitution, bindings of
/// made variables, and quantified variables kept apart from everything the
/// visible bindings mention.
pub open spec fn inv(s: Substitution, env: Seq<Binding>) -> bool {
    &&& wf(s)
    &&& within(env, s.len())
    &&& guards(s, env, protected(env))
}

/// The inference of `expr` numbers its type variables without wrapping.
pub open spec fn fits(s: Substitution, expr: Expr, env: Seq<Binding>) -> bool {
    infer_expr(s, expr, env).0.len() <= TypeVar::MAX
}

/// What inference keeps, from a well-formed substitution `s` to the
/// substitution `s1` it reaches: `s1` is a well-formed instance of `s` that
/// binds everything `s` binds.
pub open spec fn keeps(s: Substitution, s1: Substitution) -> bool {
    &&& wf(s1)
    &&& refines(s1, s)
    &&& s1.len() >= s.len()
    &&& forall|v: TypeVar| bound(s, v) ==> #[trigger] bound(s1, v)
}

proof fn lemma_keeps_trans(s: Substitution, s1: Substitution, s2: Substitution)
    requires
        keeps(s, s1),
        keeps(s1, s2),
    ensures
        keeps(s, s2),
{
    lemma_refines_trans(s2, s1, s);
}

proof fn lemma_keeps_self(s: Substitution)
    requires
        wf(s),
    ensures
        keeps(s, s),
{
    lemma_refines_self(s);
}

/// Adding unbound variables changes nothing that a substitution makes of a type.
proof fn lemma_extend(s: Substitution, k: nat)
    requires
        wf(s),
    ensures
        keeps(s, extend(s, k)),
        extend(s, k).len() == s.len() + k,
        forall|t: Type| #[trigger] apply(extend(s, k), t) == apply(s, t),
        forall|v: TypeVar| #[trigger] bound(extend(s, k), v) == bound(s, v),
    decreases k,
{
    if k == 0 {
        assert(extend(s, 0) =~= s);
        lemma_keeps_self(s);
    } else {
        let prev = extend(s, (k - 1) as nat);
        lemma_extend(s, (k - 1) as nat);
        assert(extend(s, k) =~= prev.push(None));
        lemma_push_unbound(prev);
        lemma_push_keeps(prev);
        lemma_keeps_trans(s, prev, prev.push(None));
    }
}

proof fn lemma_push_keeps(s: Substitution)
    requires
        wf(s),
    ensures
        keeps(s, s.push(None)),
        forall|t: Type| #[trigger] apply(s.push(None), t) == apply(s, t),
{
    lemma_push_unbound(s);
    let s2 = s.push(None);
    assert forall|v: TypeVar| bound(s, v) implies #[trigger] apply(s2, s[v as int]->Some_0) == apply(
        s2,
        Type::Var(v),
    ) by {
        assert(s[v as int] is Some);
        assert(bound(s2, v));
        assert(s2[v as int] == s[v as int]);
        lemma_apply_unbound(s, s[v as int]->Some_0);
        assert(apply(s, s[v as int]->Some_0) == apply(s2, s[v as int]->Some_0));
    }
}

/// A fresh variable is made, unbound, just past the others.
proof fn lemma_fresh(s: Substitution)
    requires
        wf(s),
        s.len() <= TypeVar::MAX,
    ensures
        keeps(s, fresh(s).0),
        fresh(s).0.len() == s.len() + 1,
        fresh(s).1 == Type::Var(s.len() as TypeVar),
        scoped(fresh(s).0.len(), fresh(s).1),
        apply(fresh(s).0, fresh(s).1) == fresh(s).1,
        forall|t: Type| #[trigger] apply(fresh(s).0, t) == apply(s, t),
{
    lemma_push_keeps(s);
}

/// What a substitution makes of a variable of a type occurs in what it makes of the type.
proof fn lemma_occurs_apply(s: Substitution, u: TypeVar, t: Type, w: TypeVar)
    requires
        occurs(u, t),
        occurs(w, apply(s, Type::Var(u))),
    ensures
        occurs(w, apply(s, t)),
    decreases t,
{
    if let Type::Function(a, b) = t {
        if occurs(u, *a) {
            lemma_occurs_apply(s, u, *a, w);
        } else {
            lemma_occurs_apply(s, u, *b, w);
        }
    }
}

/// Every variable of what a substitution makes of a type comes from what it
/// makes of some variable of the type.
proof fn lemma_occurs_source(s: Substitution, t: Type, w: TypeVar) -> (u: TypeVar)
    requires
        occurs(w, apply(s, t)),
    ensures
        occurs(u, t),
        occurs(w, apply(s, Type::Var(u))),
    decreases t,
{
    match t {
        Type::Var(v) => v,
        Type::Function(a, b) => {
            if occurs(w, apply(s, *a)) {
                lemma_occurs_source(s, *a, w)
            } else {
                lemma_occurs_source(s, *b, w)
            }
        },
        _ => 0,
    }
}

/// The position of a variable in a sequence is where it first stands.
proof fn lemma_position_facts(q: Seq<TypeVar>, v: TypeVar)
    ensures
        position(q, v) matches Some(k) ==> k < q.len() && q[k as int] == v,
        position(q, v) is None <==> !q.contains(v),
    decreases q.len(),
{
    if q.len() > 0 {
        lemma_position_facts(q.drop_first(), v);
        if q[0] != v {
            if q.drop_first().contains(v) {
                let j = choose|j: int| 0 <= j < q.drop_first().len() && q.drop_first()[j] == v;
                assert(q[j + 1] == v);
            }
            if q.contains(v) {
                let j = choose|j: int| 0 <= j < q.len() && q[j] == v;
                assert(q.drop_first()[j - 1] == v);
            }
        } else {
            assert(q.contains(v)) by {
                assert(q[0] == v);
            }
        }
    }
}

/// The variables of a renamed instance: the fresh ones of the renaming, or
/// what the substitution makes of the variables the scheme does not quantify.
proof fn lemma_rename_occurs(s: Substitution, t: Type, q: Seq<TypeVar>, n: nat, w: TypeVar)
    requires
        n + q.len() <= TypeVar::MAX,
        forall|v: TypeVar| n <= v < n + q.len() ==> #[trigger] apply(s, Type::Var(v)) == Type::Var(v),
        occurs(w, apply(s, rename(t, q, n))),
    ensures
        w >= n || exists|v: TypeVar|
            occurs(v, t) && !q.contains(v) && #[trigger] occurs(w, apply(s, Type::Var(v))),
    decreases t,
{
    match t {
        Type::Var(v) => {
            lemma_position_facts(q, v);
            match position(q, v) {
                Some(k) => {
                    let u = (n + k) as TypeVar;
                    assert(apply(s, Type::Var(u)) == Type::Var(u));
                },
                None => {
                    assert(occurs(v, t));
                },
            }
        },
        Type::Function(a, b) => {
            if occurs(w, apply(s, rename(*a, q, n))) {
                lemma_rename_occurs(s, *a, q, n, w);
            } else {
                lemma_rename_occurs(s, *b, q, n, w);
            }
        },
        _ => {},
    }
}

/// The generalized variables of a type: made, occurring in it, and not
/// mentioned by the environment.
proof fn lemma_generalizable(s: Substitution, ty: Type, env: Seq<Binding>, n: nat, w: TypeVar)
    requires
        n <= TypeVar::MAX + 1,
        generalizable(s, ty, env, n).contains(w),
    ensures
        w < n,
        occurs(w, apply(s, ty)),
        !env_var(s, env, w),
    decreases n,
{
    let prev = generalizable(s, ty, env, (n - 1) as nat);
    let v = (n - 1) as TypeVar;
    let step = if occurs(v, apply(s, ty)) && !env_var(s, env, v) {
        seq![v]
    } else {
        seq![]
    };
    assert(generalizable(s, ty, env, n) == prev + step);
    let j = choose|j: int| 0 <= j < (prev + step).len() && (prev + step)[j] == w;
    if j < prev.len() {
        assert(prev[j] == w);
        lemma_generalizable(s, ty, env, (n - 1) as nat, w);
    } else {
        assert(step[j - prev.len()] == w);
    }
}

/// The binding that `lookup_scheme` finds is a visible one.
proof fn lemma_lookup_visible(env: Seq<Binding>, name: Seq<char>) -> (i: int)
    requires
        lookup_scheme(env, name) is Some,
    ensures
        0 <= i < env.len(),
        !shadowed(env, i),
        env[i].0 == name,
        lookup_scheme(env, name) == Some((env[i].1, env[i].2)),
    decreases env.len(),
{
    if env.last().0 == name {
        (env.len() - 1) as int
    } else {
        let rest = env.drop_last();
        let i = lemma_lookup_visible(rest, name);
        assert(env[i] == rest[i]);
        assert forall|j: int| i < j < env.len() implies #[trigger] env[j].0 != env[i].0 by {
            if j < rest.len() {
                assert(rest[j] == env[j]);
                assert(!(i < j < rest.len() && rest[j].0 == rest[i].0));
            }
        }
        i
    }
}


/// Inference from `s` reached `result` keeping `s`, adding no occurrence of a
/// variable of `x`, and giving a type of made variables that avoids `x`.
pub open spec fn framed(s: Substitution, result: Inferred, x: Set<TypeVar>) -> bool {
    &&& keeps(s, result.0)
    &&& adds_none(s, result.0, x)
    &&& result.1 matches Ok(t) ==> scoped(result.0.len(), t) && avoids(apply(result.0, t), x)
}

/// What guards `x` at `s` still does at a later substitution that adds no
/// occurrence of its variables.
proof fn lemma_guards_later(s: Substitution, s1: Substitution, env: Seq<Binding>, x: Set<TypeVar>)
    requires
        guards(s, env, x),
        keeps(s, s1),
        adds_none(s, s1, x),
    ensures
        guards(s1, env, x),
{
    assert forall|i: int, v: TypeVar| #[trigger] mentions(env, i, v) implies avoids(apply(s1, Type::Var(v)), x) by {
        assert(avoids(apply(s, Type::Var(v)), x));
        assert forall|w: TypeVar| x.contains(w) implies !#[trigger] occurs(w, apply(s1, Type::Var(v))) by {
            if occurs(w, apply(s1, Type::Var(v))) {
                assert(occurs(w, apply(s, Type::Var(v))));
            }
        }
    }
}

proof fn lemma_within_mono(env: Seq<Binding>, n: nat, m: nat)
    requires
        within(env, n),
        n <= m,
    ensures
        within(env, m),
{
    assert forall|i: int| 0 <= i < env.len() implies scoped(m, (#[trigger] env[i]).2) by {
        lemma_scoped_mono(n, m, env[i].2);
    }
}

/// The state inference works in holds at a later substitution that keeps
/// the quantified variables apart.
proof fn lemma_inv_later(s: Substitution, s1: Substitution, env: Seq<Binding>)
    requires
        inv(s, env),
        keeps(s, s1),
        adds_none(s, s1, protected(env)),
    ensures
        inv(s1, env),
{
    lemma_guards_later(s, s1, env, protected(env));
    lemma_within_mono(env, s.len(), s1.len());
}

/// Unifying two types of made variables that avoid `x`, under a substitution
/// that leaves `x` alone, keeps it and adds no occurrence of a variable of `x`.
proof fn lemma_unify_frame(s: Substitution, l: Type, r: Type, x: Set<TypeVar>)
    requires
        wf(s),
        scoped(s.len(), l),
        scoped(s.len(), r),
        forall|w: TypeVar| #[trigger] x.contains(w) ==> apply(s, Type::Var(w)) == Type::Var(w),
        avoids(apply(s, l), x),
        avoids(apply(s, r), x),
    ensures
        unify(s, l, r) matches Ok(s1) ==> {
            &&& keeps(s, s1)
            &&& adds_none(s, s1, x)
            &&& s1.len() == s.len()
            &&& apply(s1, l) == apply(s1, r)
        },
{
    lemma_unify(s, l, r);
    law_unifier_unifies(s, l, r);
    lemma_unify_adds_none(s, l, r, x);
}

/// A type resolved under a well-formed substitution has made variables and
/// avoids what the substitution's other types avoid.
proof fn lemma_resolved_type(s: Substitution, t: Type)
    requires
        wf(s),
        scoped(s.len(), t),
    ensures
        scoped(s.len(), apply(s, t)),
        apply(s, apply(s, t)) == apply(s, t),
{
    lemma_apply_resolved(s, t);
    lemma_resolved_scoped(s, apply(s, t));
    lemma_apply_unbound(s, apply(s, t));
}

/// Inference adds no occurrence of a variable that the visible bindings do
/// not mention and that is left alone, and gives a type avoiding it.
proof fn lemma_frame(s: Substitution, expr: Expr, env: Seq<Binding>, x: Set<TypeVar>)
    requires
        inv(s, env),
        fits(s, expr, env),
        guards(s, env, x),
    ensures
        framed(s, infer_expr(s, expr, env), x),
    decreases expr, 1nat,
{
    match expr.kind {
        ExprKind::Var(name) => {
            lemma_keeps_self(s);
            lemma_adds_none_self(s, x);
            if lookup_scheme(env, name@) is Some {
                let i = lemma_lookup_visible(env, name@);
                let q = env[i].1;
                let ty = env[i].2;
                let n = s.len();
                let s1 = extend(s, q.len());
                lemma_extend(s, q.len());
                lemma_rename_scoped(ty, q, n);
                assert forall|w: TypeVar| x.contains(w) implies #[trigger] apply(s1, Type::Var(w)) == Type::Var(w) by {
                    assert(apply(s1, Type::Var(w)) == apply(s, Type::Var(w)));
                }
                assert forall|t: Type, w: TypeVar|
                    x.contains(w) && #[trigger] occurs(w, apply(s1, t)) implies occurs(w, apply(s, t)) by {
                    assert(apply(s1, t) == apply(s, t));
                }
                assert forall|w: TypeVar| x.contains(w) implies !#[trigger] occurs(w, apply(s1, rename(ty, q, n))) by {
                    if occurs(w, apply(s1, rename(ty, q, n))) {
                        assert forall|v: TypeVar| n <= v < n + q.len() implies #[trigger] apply(s1, Type::Var(v)) == Type::Var(v) by {
                            assert(apply(s1, Type::Var(v)) == apply(s, Type::Var(v)));
                        }
                        lemma_rename_occurs(s1, ty, q, n, w);
                        if w < n {
                            let v = choose|v: TypeVar|
                                occurs(v, ty) && !q.contains(v) && #[trigger] occurs(w, apply(s1, Type::Var(v)));
                            assert(mentions(env, i, v));
                            assert(apply(s1, Type::Var(v)) == apply(s, Type::Var(v)));
                        }
                    }
                }
            }
        },
        ExprKind::Negate(..) => lemma_frame_negate(s, expr, env, x),
        ExprKind::Binary { .. } => lemma_frame_binary(s, expr, env, x),
        ExprKind::If { .. } => lemma_frame_if(s, expr, env, x),
        ExprKind::Fun { .. } => lemma_frame_fun(s, expr, env, x),
        ExprKind::Apply { .. } => lemma_frame_apply(s, expr, env, x),
        ExprKind::Let { .. } => lemma_frame_let(s, expr, env, x),
        _ => {
            lemma_keeps_self(s);
            lemma_adds_none_self(s, x);
        },
    }
}

/// One step of inference from `s` to `s1` in `env`: the frame facts for both
/// the quantified variables and `x`, and the state at `s1`.
proof fn lemma_step(s: Substitution, expr: Expr, env: Seq<Binding>, x: Set<TypeVar>)
    requires
        inv(s, env),
        fits(s, expr, env),
        guards(s, env, x),
    ensures
        framed(s, infer_expr(s, expr, env), x),
        framed(s, infer_expr(s, expr, env), protected(env)),
        inv(infer_expr(s, expr, env).0, env),
        guards(infer_expr(s, expr, env).0, env, x),
    decreases expr, 2nat,
{
    lemma_frame(s, expr, env, x);
    lemma_frame(s, expr, env, protected(env));
    let s1 = infer_expr(s, expr, env).0;
    lemma_inv_later(s, s1, env);
    lemma_guards_later(s, s1, env, x);
}

#[verifier::spinoff_prover]
proof fn lemma_frame_negate(s: Substitution, expr: Expr, env: Seq<Binding>, x: Set<TypeVar>)
    requires
        inv(s, env),
        fits(s, expr, env),
        guards(s, env, x),
        expr.kind is Negate,
    ensures
        framed(s, infer_expr(s, expr, env), x),
    decreases expr, 0nat,
{
    let inner = expr.kind->Negate_0;
    let (s1, r) = infer_expr(s, *inner, env);
    if let Ok(t) = r {
        lemma_unify_len(s1, t, Type::Int);
    }
    lemma_step(s, *inner, env, x);
    if let Ok(t) = r {
        lemma_unify_frame(s1, t, Type::Int, x);
        if let Ok(s2) = unify(s1, t, Type::Int) {
            lemma_keeps_trans(s, s1, s2);
            lemma_adds_none_trans(s, s1, s2, x);
        }
    }
}

#[verifier::spinoff_prover]
proof fn lemma_frame_binary(s: Substitution, expr: Expr, env: Seq<Binding>, x: Set<TypeVar>)
    requires
        inv(s, env),
        fits(s, expr, env),
        guards(s, env, x),
        expr.kind is Binary,
    ensures
        framed(s, infer_expr(s, expr, env), x),
    decreases expr, 0nat,
{
    let left = expr.kind->left;
    let right = expr.kind->right;
    let (s1, r1) = infer_expr(s, *left, env);
    if let Ok(a) = r1 {
        lemma_unify_len(s1, a, Type::Int);
        if let Ok(s2) = unify(s1, a, Type::Int) {
            lemma_infer_grows(s2, *right, env);
            let (s3, r2) = infer_expr(s2, *right, env);
            if let Ok(b) = r2 {
                lemma_unify_len(s3, b, Type::Int);
            }
        }
    }
    lemma_step(s, *left, env, x);
    if let Ok(a) = r1 {
        lemma_unify_frame(s1, a, Type::Int, x);
        lemma_unify_frame(s1, a, Type::Int, protected(env));
        if let Ok(s2) = unify(s1, a, Type::Int) {
            lemma_keeps_trans(s, s1, s2);
            lemma_adds_none_trans(s, s1, s2, x);
            lemma_inv_later(s1, s2, env);
            lemma_guards_later(s1, s2, env, x);
            lemma_step(s2, *right, env, x);
            let (s3, r2) = infer_expr(s2, *right, env);
            lemma_keeps_trans(s, s2, s3);
            lemma_adds_none_trans(s, s2, s3, x);
            if let Ok(b) = r2 {
                lemma_unify_frame(s3, b, Type::Int, x);
                if let Ok(s4) = unify(s3, b, Type::Int) {
                    lemma_keeps_trans(s, s3, s4);
                    lemma_adds_none_trans(s, s3, s4, x);
                }
            }
        }
    }
}

#[verifier::spinoff_prover]
proof fn lemma_frame_if(s: Substitution, expr: Expr, env: Seq<Binding>, x: Set<TypeVar>)
    requires
        inv(s, env),
        fits(s, expr, env),
        guards(s, env, x),
        expr.kind is If,
    ensures
        framed(s, infer_expr(s, expr, env), x),
    decreases expr, 0nat,
{
    let condition = expr.kind->condition;
    let then_branch = expr.kind->then_branch;
    let else_branch = expr.kind->else_branch;
    let (s1, r1) = infer_expr(s, *condition, env);
    if let Ok(c) = r1 {
        lemma_unify_len(s1, c, Type::Bool);
        if let Ok(s2) = unify(s1, c, Type::Bool) {
            lemma_infer_grows(s2, *then_branch, env);
            let (s3, r2) = infer_expr(s2, *then_branch, env);
            if let Ok(a) = r2 {
                lemma_infer_grows(s3, *else_branch, env);
                let (s4, r3) = infer_expr(s3, *else_branch, env);
                if let Ok(b) = r3 {
                    lemma_unify_len(s4, a, b);
                }
            }
        }
    }
    lemma_step(s, *condition, env, x);
    if let Ok(c) = r1 {
        lemma_unify_frame(s1, c, Type::Bool, x);
        lemma_unify_frame(s1, c, Type::Bool, protected(env));
        if let Ok(s2) = unify(s1, c, Type::Bool) {
            lemma_keeps_trans(s, s1, s2);
            lemma_adds_none_trans(s, s1, s2, x);
            lemma_inv_later(s1, s2, env);
            lemma_guards_later(s1, s2, env, x);
            lemma_step(s2, *then_branch, env, x);
            let (s3, r2) = infer_expr(s2, *then_branch, env);
            lemma_keeps_trans(s, s2, s3);
            lemma_adds_none_trans(s, s2, s3, x);
            if let Ok(a) = r2 {
                lemma_step(s3, *else_branch, env, x);
                let (s4, r3) = infer_expr(s3, *else_branch, env);
                lemma_keeps_trans(s, s3, s4);
                lemma_adds_none_trans(s, s3, s4, x);
                if let Ok(b) = r3 {
                    lemma_scoped_mono(s3.len(), s4.len(), a);
                    assert forall|w: TypeVar| x.contains(w) implies !#[trigger] occurs(w, apply(s4, a)) by {
                        if occurs(w, apply(s4, a)) {
                            assert(occurs(w, apply(s3, a)));
                        }
                    }
                    lemma_unify_frame(s4, a, b, x);
                    if let Ok(s5) = unify(s4, a, b) {
                        lemma_keeps_trans(s, s4, s5);
                        lemma_adds_none_trans(s, s4, s5, x);
                        lemma_resolved_type(s5, a);
                        assert forall|w: TypeVar| x.contains(w) implies !#[trigger] occurs(w, apply(s5, apply(s5, a))) by {
                            if occurs(w, apply(s5, a)) {
                                assert(occurs(w, apply(s4, a)));
                            }
                        }
                    }
                }
            }
        }
    }
}

#[verifier::spinoff_prover]
proof fn lemma_frame_fun(s: Substitution, expr: Expr, env: Seq<Binding>, x: Set<TypeVar>)
    requires
        inv(s, env),
        fits(s, expr, env),
        guards(s, env, x),
        expr.kind is Fun,
    ensures
        framed(s, infer_expr(s, expr, env), x),
    decreases expr, 0nat,
{
    let parameter = expr.kind->Fun_parameter;
    let body = expr.kind->Fun_body;
    let (s1, input) = fresh(s);
    let inner = env.push((parameter@, seq![], input));
    lemma_infer_grows(s1, *body, inner);
    lemma_push_parameter(s, env, parameter@, x);
    lemma_step(s1, *body, inner, x);
    let (s2, r) = infer_expr(s1, *body, inner);
    lemma_keeps_trans(s, s1, s2);
    assert(adds_none(s, s1, x));
    lemma_adds_none_trans(s, s1, s2, x);
    if let Ok(output) = r {
        lemma_scoped_mono(s1.len(), s2.len(), input);
        lemma_resolved_type(s2, input);
        let result = Type::Function(Box::new(apply(s2, input)), Box::new(output));
        lemma_fresh(s);
        assert(avoids(apply(s2, output), x));
        assert forall|w: TypeVar| x.contains(w) implies !#[trigger] occurs(w, apply(s2, result)) by {
            assert(w < s.len());
            if occurs(w, apply(s2, apply(s2, input))) {
                assert(occurs(w, apply(s2, input)));
                assert(occurs(w, apply(s1, input)));
                assert(apply(s1, input) == input);
            }
            if occurs(w, apply(s2, output)) {
                assert(!occurs(w, apply(s2, output)));
            }
        }
        assert forall|v: TypeVar| #[trigger] occurs(v, result) implies v < s2.len() by {
            if occurs(v, apply(s2, input)) {
            } else {
                assert(occurs(v, output));
            }
        }
    }
}

#[verifier::spinoff_prover]
proof fn lemma_frame_apply(s: Substitution, expr: Expr, env: Seq<Binding>, x: Set<TypeVar>)
    requires
        inv(s, env),
        fits(s, expr, env),
        guards(s, env, x),
        expr.kind is Apply,
    ensures
        framed(s, infer_expr(s, expr, env), x),
    decreases expr, 0nat,
{
    let function = expr.kind->function;
    let argument = expr.kind->argument;
    let (s1, r1) = infer_expr(s, *function, env);
    if let Ok(f) = r1 {
        lemma_infer_grows(s1, *argument, env);
        let (s2, r2) = infer_expr(s1, *argument, env);
        if let Ok(a) = r2 {
            let (s3, output) = fresh(s2);
            lemma_unify_len(s3, f, Type::Function(Box::new(a), Box::new(output)));
        }
    }
    lemma_step(s, *function, env, x);
    if let Ok(f) = r1 {
        lemma_step(s1, *argument, env, x);
        let (s2, r2) = infer_expr(s1, *argument, env);
        lemma_keeps_trans(s, s1, s2);
        lemma_adds_none_trans(s, s1, s2, x);
        if let Ok(a) = r2 {
            let (s3, output) = fresh(s2);
            lemma_fresh(s2);
            lemma_keeps_trans(s, s2, s3);
            let expected = Type::Function(Box::new(a), Box::new(output));
            lemma_scoped_mono(s1.len(), s3.len(), f);
            lemma_scoped_mono(s2.len(), s3.len(), a);
            assert(scoped(s3.len(), expected)) by {
                assert forall|v: TypeVar| #[trigger] occurs(v, expected) implies v < s3.len() by {
                    if occurs(v, a) {
                    } else {
                        assert(occurs(v, output));
                    }
                }
            }
            assert forall|w: TypeVar| x.contains(w) implies !#[trigger] occurs(w, apply(s3, f)) by {
                if occurs(w, apply(s3, f)) {
                    assert(occurs(w, apply(s2, f)));
                    assert(occurs(w, apply(s1, f)));
                }
            }
            assert forall|w: TypeVar| x.contains(w) implies !#[trigger] occurs(w, apply(s3, expected)) by {
                if occurs(w, apply(s3, expected)) {
                    if occurs(w, apply(s3, a)) {
                        assert(occurs(w, apply(s2, a)));
                    } else {
                        assert(occurs(w, apply(s3, output)));
                    }
                }
            }
            lemma_unify_frame(s3, f, expected, x);
            if let Ok(s4) = unify(s3, f, expected) {
                lemma_keeps_trans(s, s3, s4);
                assert(adds_none(s2, s3, x));
                lemma_adds_none_trans(s, s2, s3, x);
                lemma_adds_none_trans(s, s3, s4, x);
                lemma_resolved_type(s4, output);
                assert forall|w: TypeVar| x.contains(w) implies !#[trigger] occurs(w, apply(s4, apply(s4, output))) by {
                    if occurs(w, apply(s4, output)) {
                        assert(occurs(w, apply(s3, output)));
                    }
                }
            }
        }
    }
}

/// Pushing a binding whose non-quantified variables resolve to types avoiding
/// `x` and the quantified variables keeps the state and `x` guarded.
#[verifier::spinoff_prover]
proof fn lemma_push_binding(
    s: Substitution,
    s1: Substitution,
    env: Seq<Binding>,
    name: Seq<char>,
    q: Seq<TypeVar>,
    ty: Type,
    x: Set<TypeVar>,
)
    requires
        inv(s, env),
        guards(s, env, x),
        keeps(s, s1),
        adds_none(s, s1, x),
        adds_none(s, s1, protected(env)),
        scoped(s1.len(), ty),
        forall|w: TypeVar| #[trigger] q.contains(w) ==> w < s1.len() && apply(s1, Type::Var(w)) == Type::Var(w),
        forall|v: TypeVar| occurs(v, ty) && !q.contains(v) ==> avoids(#[trigger] apply(s1, Type::Var(v)), x),
        forall|v: TypeVar| occurs(v, ty) && !q.contains(v) ==> avoids(#[trigger] apply(s1, Type::Var(v)), protected(env)),
        forall|v: TypeVar| occurs(v, ty) && !q.contains(v) ==> avoids(#[trigger] apply(s1, Type::Var(v)), members(q)),
        forall|i: int, v: TypeVar| #[trigger] mentions(env, i, v) && env[i].0 != name ==> avoids(apply(s1, Type::Var(v)), members(q)),
        forall|w: TypeVar| #[trigger] q.contains(w) ==> !x.contains(w),
    ensures
        inv(s1, env.push((name, q, ty))),
        guards(s1, env.push((name, q, ty)), x),
{
    let inner = env.push((name, q, ty));
    lemma_inv_later(s, s1, env);
    lemma_guards_later(s, s1, env, x);
    lemma_within_mono(env, s.len(), s1.len());
    assert(within(inner, s1.len())) by {
        assert forall|i: int| 0 <= i < inner.len() implies scoped(s1.len(), (#[trigger] inner[i]).2) by {
            if i < env.len() {
                assert(inner[i] == env[i]);
            }
        }
    }
    assert forall|i: int, v: TypeVar| #[trigger] mentions(inner, i, v) implies mentions(env, i, v) && env[i].0 != name
        || (i == env.len() && occurs(v, ty) && !q.contains(v)) by {
        if i < env.len() {
            assert(inner[i] == env[i]);
            assert(inner[env.len() as int].0 == name);
            if exists|j: int| i < j < env.len() && #[trigger] env[j].0 == env[i].0 {
                let j = choose|j: int| i < j < env.len() && #[trigger] env[j].0 == env[i].0;
                assert(inner[j] == env[j]);
            }
        }
    }
    assert forall|w: TypeVar| #[trigger] protected(inner).contains(w) implies w < s1.len() && apply(s1, Type::Var(w))
        == Type::Var(w) by {
        let i = choose|i: int| 0 <= i < inner.len() && (#[trigger] inner[i]).1.contains(w);
        if i < env.len() {
            assert(inner[i] == env[i]);
            assert(protected(env).contains(w));
        }
    }
    assert forall|i: int, v: TypeVar| #[trigger] mentions(inner, i, v) implies avoids(
        apply(s1, Type::Var(v)),
        protected(inner),
    ) by {
        assert forall|w: TypeVar| protected(inner).contains(w) implies !#[trigger] occurs(w, apply(s1, Type::Var(v))) by {
            let j = choose|j: int| 0 <= j < inner.len() && (#[trigger] inner[j]).1.contains(w);
            if j < env.len() {
                assert(inner[j] == env[j]);
                assert(protected(env).contains(w));
            } else {
                assert(members(q).contains(w));
            }
            if i < env.len() {
                assert(mentions(env, i, v));
            }
        }
    }
    assert forall|i: int, v: TypeVar| #[trigger] mentions(inner, i, v) implies avoids(apply(s1, Type::Var(v)), x) by {
        if i < env.len() {
            assert(mentions(env, i, v));
        }
    }
}


/// The variables of a sequence, as a set.
pub open spec fn members(q: Seq<TypeVar>) -> Set<TypeVar> {
    Set::new(|w: TypeVar| q.contains(w))
}

/// What `let` generalizes: the variables of the value's resolved type that
/// no visible binding mentions, none of them bound, quantified elsewhere or
/// in `x` where the type avoids `x`; and what visible bindings mention
/// avoids them.
#[verifier::spinoff_prover]
proof fn lemma_generalized(s1: Substitution, t: Type, env: Seq<Binding>, x: Set<TypeVar>)
    requires
        inv(s1, env),
        s1.len() <= TypeVar::MAX,
        scoped(s1.len(), t),
        avoids(apply(s1, t), x),
        avoids(apply(s1, t), protected(env)),
    ensures
        forall|w: TypeVar| #[trigger] generalizable(s1, t, env, s1.len()).contains(w) ==> {
            &&& w < s1.len()
            &&& apply(s1, Type::Var(w)) == Type::Var(w)
            &&& !x.contains(w)
            &&& !protected(env).contains(w)
            &&& occurs(w, apply(s1, t))
        },
        forall|i: int, v: TypeVar| #[trigger] mentions(env, i, v) ==> avoids(
            apply(s1, Type::Var(v)),
            members(generalizable(s1, t, env, s1.len())),
        ),
{
    let q = generalizable(s1, t, env, s1.len());
    lemma_apply_resolved(s1, t);
    assert forall|w: TypeVar| #[trigger] q.contains(w) implies {
        &&& w < s1.len()
        &&& apply(s1, Type::Var(w)) == Type::Var(w)
        &&& !x.contains(w)
        &&& !protected(env).contains(w)
        &&& occurs(w, apply(s1, t))
    } by {
        lemma_generalizable(s1, t, env, s1.len(), w);
    }
    assert forall|i: int, v: TypeVar| #[trigger] mentions(env, i, v) implies avoids(
        apply(s1, Type::Var(v)),
        members(q),
    ) by {
        assert forall|w: TypeVar| members(q).contains(w) implies !#[trigger] occurs(w, apply(s1, Type::Var(v))) by {
            if occurs(w, apply(s1, Type::Var(v))) {
                lemma_generalizable(s1, t, env, s1.len(), w);
                lemma_occurs_apply(s1, v, env[i].2, w);
                if env[i].1.contains(w) {
                    assert(protected(env).contains(w));
                }
                assert(env_var(s1, env, w));
            }
        }
    }
}

#[verifier::spinoff_prover]
proof fn lemma_frame_let(s: Substitution, expr: Expr, env: Seq<Binding>, x: Set<TypeVar>)
    requires
        inv(s, env),
        fits(s, expr, env),
        guards(s, env, x),
        expr.kind is Let,
    ensures
        framed(s, infer_expr(s, expr, env), x),
    decreases expr, 0nat,
{
    let name = expr.kind->Let_name;
    let value = expr.kind->Let_value;
    let body = expr.kind->Let_body;
    let (s1, r) = infer_expr(s, *value, env);
    if let Ok(t) = r {
        let q = generalizable(s1, t, env, s1.len());
        lemma_infer_grows(s1, *body, env.push((name@, q, apply(s1, t))));
    }
    lemma_step(s, *value, env, x);
    if let Ok(t) = r {
        let q = generalizable(s1, t, env, s1.len());
        let ty = apply(s1, t);
        let inner = env.push((name@, q, ty));
        lemma_generalized(s1, t, env, x);
        lemma_resolved_type(s1, t);
        lemma_keeps_self(s1);
        lemma_adds_none_self(s1, x);
        lemma_adds_none_self(s1, protected(env));
        assert forall|v: TypeVar| occurs(v, ty) && !q.contains(v) implies #[trigger] apply(s1, Type::Var(v)) == Type::Var(v) by {
            lemma_apply_resolved(s1, t);
        }
        lemma_push_binding(s1, s1, env, name@, q, ty, x);
        lemma_step(s1, *body, inner, x);
        let s2 = infer_expr(s1, *body, inner).0;
        lemma_keeps_trans(s, s1, s2);
        lemma_adds_none_trans(s, s1, s2, x);
    }
}


/// A substitution that makes the same of every type adds nothing.
proof fn lemma_same_adds_none(s: Substitution, s1: Substitution, x: Set<TypeVar>)
    requires
        forall|t: Type| #[trigger] apply(s1, t) == apply(s, t),
        forall|w: TypeVar| #[trigger] x.contains(w) ==> apply(s, Type::Var(w)) == Type::Var(w),
    ensures
        adds_none(s, s1, x),
{
    assert forall|w: TypeVar| x.contains(w) implies #[trigger] apply(s1, Type::Var(w)) == Type::Var(w) by {
        assert(apply(s1, Type::Var(w)) == apply(s, Type::Var(w)));
    }
    assert forall|t: Type, w: TypeVar|
        x.contains(w) && #[trigger] occurs(w, apply(s1, t)) implies occurs(w, apply(s, t)) by {
        assert(apply(s1, t) == apply(s, t));
    }
}

/// Binding a function's parameter to a fresh variable keeps the state and
/// `x` guarded.
#[verifier::spinoff_prover]
proof fn lemma_push_parameter(s: Substitution, env: Seq<Binding>, name: Seq<char>, x: Set<TypeVar>)
    requires
        inv(s, env),
        guards(s, env, x),
        s.len() <= TypeVar::MAX,
    ensures
        keeps(s, fresh(s).0),
        adds_none(s, fresh(s).0, x),
        adds_none(s, fresh(s).0, protected(env)),
        inv(fresh(s).0, env.push((name, seq![], fresh(s).1))),
        guards(fresh(s).0, env.push((name, seq![], fresh(s).1)), x),
{
    let (s1, input) = fresh(s);
    lemma_fresh(s);
    lemma_same_adds_none(s, s1, x);
    lemma_same_adds_none(s, s1, protected(env));
    let n = s.len() as TypeVar;
    assert forall|v: TypeVar| occurs(v, input) && !seq![].contains(v) implies avoids(
        #[trigger] apply(s1, Type::Var(v)),
        x,
    ) by {
        assert(v == n);
        assert forall|w: TypeVar| x.contains(w) implies !#[trigger] occurs(w, apply(s1, Type::Var(v))) by {
        }
    }
    assert forall|v: TypeVar| occurs(v, input) && !seq![].contains(v) implies avoids(
        #[trigger] apply(s1, Type::Var(v)),
        protected(env),
    ) by {
        assert(v == n);
        assert forall|w: TypeVar| protected(env).contains(w) implies !#[trigger] occurs(w, apply(s1, Type::Var(v))) by {
        }
    }
    assert forall|v: TypeVar| occurs(v, input) && !seq![].contains(v) implies avoids(
        #[trigger] apply(s1, Type::Var(v)),
        members(seq![]),
    ) by {
        assert forall|w: TypeVar| members(seq![]).contains(w) implies !#[trigger] occurs(w, apply(s1, Type::Var(v))) by {
            assert(!seq![].contains(w));
        }
    }
    assert forall|i: int, v: TypeVar| #[trigger] mentions(env, i, v) && env[i].0 != name implies avoids(
        apply(s1, Type::Var(v)),
        members(seq![]),
    ) by {
        assert forall|w: TypeVar| members(seq![]).contains(w) implies !#[trigger] occurs(w, apply(s1, Type::Var(v))) by {
            assert(!seq![].contains(w));
        }
    }
    lemma_push_binding(s, s1, env, name, seq![], input, x);
}


/// The variables that the `let`s inside `expr` generalize, along the path of
/// a successful inference from `s` in `env`.
pub open spec fn retired(s: Substitution, expr: Expr, env: Seq<Binding>) -> Set<TypeVar>
    decreases expr,
{
    match expr.kind {
        ExprKind::Negate(inner) => retired(s, *inner, env),
        ExprKind::Binary { left, right, .. } => {
            let (s1, r1) = infer_expr(s, *left, env);
            retired(s, *left, env) + match r1 {
                Ok(a) => match unify(s1, a, Type::Int) {
                    Ok(s2) => retired(s2, *right, env),
                    Err(_) => Set::empty(),
                },
                Err(_) => Set::empty(),
            }
        },
        ExprKind::If { condition, then_branch, else_branch } => {
            let (s1, r1) = infer_expr(s, *condition, env);
            retired(s, *condition, env) + match r1 {
                Ok(c) => match unify(s1, c, Type::Bool) {
                    Ok(s2) => {
                        let (s3, r2) = infer_expr(s2, *then_branch, env);
                        retired(s2, *then_branch, env) + match r2 {
                            Ok(_) => retired(s3, *else_branch, env),
                            Err(_) => Set::empty(),
                        }
                    },
                    Err(_) => Set::empty(),
                },
                Err(_) => Set::empty(),
            }
        },
        ExprKind::Fun { parameter, body } => {
            let (s1, input) = fresh(s);
            retired(s1, *body, env.push((parameter@, seq![], input)))
        },
        ExprKind::Apply { function, argument } => {
            let (s1, r1) = infer_expr(s, *function, env);
            retired(s, *function, env) + match r1 {
                Ok(_) => retired(s1, *argument, env),
                Err(_) => Set::empty(),
            }
        },
        ExprKind::Let { name, value, body } => {
            let (s1, r) = infer_expr(s, *value, env);
            retired(s, *value, env) + match r {
                Ok(t) => {
                    let q = generalizable(s1, t, env, s1.len());
                    members(q) + retired(s1, *body, env.push((name@, q, apply(s1, t))))
                },
                Err(_) => Set::empty(),
            }
        },
        _ => Set::empty(),
    }
}

/// The variables of `r` were made after `s0`, are unbound at `s1`, and no
/// type of variables made before `s0` comes to mention them.
pub open spec fn retired_at(s0: Substitution, s1: Substitution, r: Set<TypeVar>) -> bool {
    &&& forall|w: TypeVar| #[trigger] r.contains(w) ==> s0.len() <= w < s1.len() && apply(s1, Type::Var(w)) == Type::Var(w)
    &&& forall|t: Type| scoped(s0.len(), t) ==> avoids(#[trigger] apply(s1, t), r)
}

proof fn lemma_retired_transfer(s0: Substitution, s1: Substitution, s2: Substitution, r: Set<TypeVar>)
    requires
        retired_at(s0, s1, r),
        keeps(s1, s2),
        adds_none(s1, s2, r),
    ensures
        retired_at(s0, s2, r),
{
    assert forall|t: Type| scoped(s0.len(), t) implies avoids(#[trigger] apply(s2, t), r) by {
        assert(avoids(apply(s1, t), r));
        assert forall|w: TypeVar| r.contains(w) implies !#[trigger] occurs(w, apply(s2, t)) by {
            if occurs(w, apply(s2, t)) {
                assert(occurs(w, apply(s1, t)));
            }
        }
    }
}

proof fn lemma_retired_earlier(s0: Substitution, s: Substitution, s1: Substitution, r: Set<TypeVar>)
    requires
        retired_at(s, s1, r),
        s0.len() <= s.len(),
    ensures
        retired_at(s0, s1, r),
{
    assert forall|t: Type| scoped(s0.len(), t) implies avoids(#[trigger] apply(s1, t), r) by {
        lemma_scoped_mono(s0.len(), s.len(), t);
    }
}

proof fn lemma_retired_union(s0: Substitution, s1: Substitution, a: Set<TypeVar>, b: Set<TypeVar>)
    requires
        retired_at(s0, s1, a),
        retired_at(s0, s1, b),
    ensures
        retired_at(s0, s1, a + b),
{
    assert forall|t: Type| scoped(s0.len(), t) implies avoids(#[trigger] apply(s1, t), a + b) by {
        assert(avoids(apply(s1, t), a));
        assert(avoids(apply(s1, t), b));
    }
}

/// The empty set of variables is retired at any later substitution.
proof fn lemma_retired_empty(s0: Substitution, s1: Substitution)
    ensures
        retired_at(s0, s1, Set::empty()),
{
}

/// Inference adds to older types only variables that the visible bindings
/// come to mention: where what they mention at `s1` avoids new variables
/// `y`, so does every type of variables made before `s`.
#[verifier::spinoff_prover]
proof fn lemma_old_types_avoid(s: Substitution, expr: Expr, env: Seq<Binding>, y: Set<TypeVar>)
    requires
        inv(s, env),
        fits(s, expr, env),
        forall|w: TypeVar| #[trigger] y.contains(w) ==> w >= s.len(),
        forall|i: int, v: TypeVar| #[trigger] mentions(env, i, v) ==> avoids(
            apply(infer_expr(s, expr, env).0, Type::Var(v)),
            y,
        ),
    ensures
        forall|t: Type| scoped(s.len(), t) ==> avoids(#[trigger] apply(infer_expr(s, expr, env).0, t), y),
{
    let s1 = infer_expr(s, expr, env).0;
    lemma_frame(s, expr, env, Set::empty());
    assert forall|t: Type| scoped(s.len(), t) implies avoids(#[trigger] apply(s1, t), y) by {
        assert forall|w: TypeVar| y.contains(w) implies !#[trigger] occurs(w, apply(s1, t)) by {
            if occurs(w, apply(s1, t)) {
                lemma_refines_apply(s1, s, t);
                lemma_resolved_type(s, t);
                lemma_apply_resolved(s, t);
                let u = lemma_occurs_source(s1, apply(s, t), w);
                assert(u < s.len());
                assert(!bound(s, u));
                if exists|i: int, v: TypeVar| #[trigger] mentions(env, i, v) && occurs(u, apply(s, Type::Var(v))) {
                    let (i, v) = choose|i: int, v: TypeVar|
                        #[trigger] mentions(env, i, v) && occurs(u, apply(s, Type::Var(v)));
                    lemma_occurs_apply(s1, u, apply(s, Type::Var(v)), w);
                    lemma_refines_apply(s1, s, Type::Var(v));
                    assert(avoids(apply(s1, Type::Var(v)), y));
                } else {
                    let only = Set::empty().insert(u);
                    assert(guards(s, env, only)) by {
                        assert forall|i: int, v: TypeVar| #[trigger] mentions(env, i, v) implies avoids(
                            apply(s, Type::Var(v)),
                            only,
                        ) by {
                            assert forall|z: TypeVar| only.contains(z) implies !#[trigger] occurs(z, apply(s, Type::Var(v))) by {
                                assert(z == u);
                            }
                        }
                    }
                    lemma_frame(s, expr, env, only);
                    assert(apply(s1, Type::Var(u)) == Type::Var(u));
                }
            }
        }
    }
}


/// A successful inference retires the variables its `let`s generalize: made
/// during it, left unbound, and avoided by older types and by its result.
pub open spec fn retires(s: Substitution, expr: Expr, env: Seq<Binding>) -> bool {
    let (s1, r) = infer_expr(s, expr, env);
    r matches Ok(t) ==> retired_at(s, s1, retired(s, expr, env)) && avoids(
        apply(s1, t),
        retired(s, expr, env),
    )
}

/// Variables retired since `s` are guarded at `s1` in an environment of
/// variables made before `s`.
proof fn lemma_retired_guards(s: Substitution, s1: Substitution, env: Seq<Binding>, r: Set<TypeVar>)
    requires
        within(env, s.len()),
        retired_at(s, s1, r),
    ensures
        guards(s1, env, r),
{
    assert forall|i: int, v: TypeVar| #[trigger] mentions(env, i, v) implies avoids(apply(s1, Type::Var(v)), r) by {
        assert(scoped(s.len(), env[i].2));
        assert(occurs(v, env[i].2));
        assert(scoped(s.len(), Type::Var(v)));
    }
}

/// Unification of types avoiding retired variables keeps them retired.
proof fn lemma_retired_unify(s: Substitution, s1: Substitution, l: Type, r: Type, x: Set<TypeVar>)
    requires
        wf(s1),
        scoped(s1.len(), l),
        scoped(s1.len(), r),
        retired_at(s, s1, x),
        avoids(apply(s1, l), x),
        avoids(apply(s1, r), x),
    ensures
        unify(s1, l, r) matches Ok(s2) ==> {
            &&& keeps(s1, s2)
            &&& adds_none(s1, s2, x)
            &&& s2.len() == s1.len()
            &&& apply(s2, l) == apply(s2, r)
            &&& retired_at(s, s2, x)
        },
{
    lemma_unify_frame(s1, l, r, x);
    if let Ok(s2) = unify(s1, l, r) {
        lemma_retired_transfer(s, s1, s2, x);
    }
}

/// A later step of a successful inference, after variables `before` were
/// retired since `s`: it keeps them retired, adds its own, and gives a
/// result avoiding both.
#[verifier::spinoff_prover]
proof fn lemma_retired_then(s: Substitution, s1: Substitution, expr: Expr, env: Seq<Binding>, before: Set<TypeVar>)
    requires
        inv(s1, env),
        fits(s1, expr, env),
        within(env, s.len()),
        keeps(s, s1),
        retired_at(s, s1, before),
        infer_expr(s1, expr, env).1 is Ok,
    ensures
        keeps(s1, infer_expr(s1, expr, env).0),
        adds_none(s1, infer_expr(s1, expr, env).0, before),
        adds_none(s1, infer_expr(s1, expr, env).0, protected(env)),
        inv(infer_expr(s1, expr, env).0, env),
        retired_at(s, infer_expr(s1, expr, env).0, before + retired(s1, expr, env)),
        retired_at(s1, infer_expr(s1, expr, env).0, retired(s1, expr, env)),
        avoids(apply(infer_expr(s1, expr, env).0, infer_expr(s1, expr, env).1->Ok_0), before + retired(s1, expr, env)),
        avoids(apply(infer_expr(s1, expr, env).0, infer_expr(s1, expr, env).1->Ok_0), protected(env)),
        scoped(infer_expr(s1, expr, env).0.len(), infer_expr(s1, expr, env).1->Ok_0),
    decreases expr, 2nat,
{
    let (s2, r) = infer_expr(s1, expr, env);
    lemma_retired_guards(s, s1, env, before);
    lemma_step(s1, expr, env, before);
    lemma_retired(s1, expr, env);
    lemma_retired_transfer(s, s1, s2, before);
    lemma_retired_earlier(s, s1, s2, retired(s1, expr, env));
    lemma_retired_union(s, s2, before, retired(s1, expr, env));
    let t = r->Ok_0;
    assert forall|w: TypeVar| (before + retired(s1, expr, env)).contains(w) implies !#[trigger] occurs(w, apply(s2, t)) by {
        if before.contains(w) {
            assert(avoids(apply(s2, t), before));
        } else {
            assert(avoids(apply(s2, t), retired(s1, expr, env)));
        }
    }
}

proof fn lemma_retired(s: Substitution, expr: Expr, env: Seq<Binding>)
    requires
        inv(s, env),
        fits(s, expr, env),
    ensures
        retires(s, expr, env),
    decreases expr, 1nat,
{
    match expr.kind {
        ExprKind::Negate(..) => lemma_retired_negate(s, expr, env),
        ExprKind::Binary { .. } => lemma_retired_binary(s, expr, env),
        ExprKind::If { .. } => lemma_retired_if(s, expr, env),
        ExprKind::Fun { .. } => lemma_retired_fun(s, expr, env),
        ExprKind::Apply { .. } => lemma_retired_apply(s, expr, env),
        ExprKind::Let { .. } => lemma_retired_let(s, expr, env),
        _ => {
            lemma_frame(s, expr, env, Set::empty());
            lemma_retired_empty(s, infer_expr(s, expr, env).0);
        },
    }
}

#[verifier::spinoff_prover]
proof fn lemma_retired_negate(s: Substitution, expr: Expr, env: Seq<Binding>)
    requires
        inv(s, env),
        fits(s, expr, env),
        expr.kind is Negate,
    ensures
        retires(s, expr, env),
    decreases expr, 0nat,
{
    let inner = expr.kind->Negate_0;
    let (s1, r) = infer_expr(s, *inner, env);
    if let Ok(t) = r {
        lemma_unify_len(s1, t, Type::Int);
        lemma_step(s, *inner, env, Set::empty());
        lemma_retired(s, *inner, env);
        lemma_retired_unify(s, s1, t, Type::Int, retired(s, *inner, env));
    }
}

#[verifier::spinoff_prover]
proof fn lemma_retired_binary(s: Substitution, expr: Expr, env: Seq<Binding>)
    requires
        inv(s, env),
        fits(s, expr, env),
        expr.kind is Binary,
    ensures
        retires(s, expr, env),
    decreases expr, 0nat,
{
    let left = expr.kind->left;
    let right = expr.kind->right;
    let (s1, r1) = infer_expr(s, *left, env);
    if let Ok(a) = r1 {
        lemma_unify_len(s1, a, Type::Int);
        if let Ok(s2) = unify(s1, a, Type::Int) {
            lemma_infer_grows(s2, *right, env);
            let (s3, r2) = infer_expr(s2, *right, env);
            if let Ok(b) = r2 {
                lemma_unify_len(s3, b, Type::Int);
                if let Ok(s4) = unify(s3, b, Type::Int) {
                    let rl = retired(s, *left, env);
                    lemma_step(s, *left, env, Set::empty());
                    lemma_retired(s, *left, env);
                    lemma_retired_unify(s, s1, a, Type::Int, rl);
                    lemma_unify_frame(s1, a, Type::Int, protected(env));
                    lemma_keeps_trans(s, s1, s2);
                    lemma_inv_later(s1, s2, env);
                    lemma_retired_then(s, s2, *right, env, rl);
                    let all = rl + retired(s2, *right, env);
                    lemma_retired_unify(s, s3, b, Type::Int, all);
                }
            }
        }
    }
}

#[verifier::spinoff_prover]
proof fn lemma_retired_if(s: Substitution, expr: Expr, env: Seq<Binding>)
    requires
        inv(s, env),
        fits(s, expr, env),
        expr.kind is If,
    ensures
        retires(s, expr, env),
    decreases expr, 0nat,
{
    let condition = expr.kind->condition;
    let then_branch = expr.kind->then_branch;
    let else_branch = expr.kind->else_branch;
    let (s1, r1) = infer_expr(s, *condition, env);
    if let Ok(c) = r1 {
        lemma_unify_len(s1, c, Type::Bool);
        if let Ok(s2) = unify(s1, c, Type::Bool) {
            lemma_infer_grows(s2, *then_branch, env);
            let (s3, r2) = infer_expr(s2, *then_branch, env);
            if let Ok(a) = r2 {
                lemma_infer_grows(s3, *else_branch, env);
                let (s4, r3) = infer_expr(s3, *else_branch, env);
                if let Ok(b) = r3 {
                    lemma_unify_len(s4, a, b);
                    if let Ok(s5) = unify(s4, a, b) {
                        let rc = retired(s, *condition, env);
                        lemma_step(s, *condition, env, Set::empty());
                        lemma_retired(s, *condition, env);
                        lemma_retired_unify(s, s1, c, Type::Bool, rc);
                        lemma_unify_frame(s1, c, Type::Bool, protected(env));
                        lemma_keeps_trans(s, s1, s2);
                        lemma_inv_later(s1, s2, env);
                        lemma_retired_then(s, s2, *then_branch, env, rc);
                        let rt = rc + retired(s2, *then_branch, env);
                        lemma_keeps_trans(s, s2, s3);
                        lemma_retired_then(s, s3, *else_branch, env, rt);
                        let all = rt + retired(s3, *else_branch, env);
                        lemma_scoped_mono(s3.len(), s4.len(), a);
                        assert forall|w: TypeVar| all.contains(w) implies !#[trigger] occurs(w, apply(s4, a)) by {
                            if occurs(w, apply(s4, a)) {
                                if rt.contains(w) {
                                    assert(occurs(w, apply(s3, a)));
                                } else {
                                    assert(avoids(apply(s4, a), retired(s3, *else_branch, env)));
                                }
                            }
                        }
                        lemma_retired_unify(s, s4, a, b, all);
                        lemma_resolved_type(s5, a);
                    }
                }
            }
        }
    }
}

/// What a function's inference retires, seen from before its parameter was made.
proof fn lemma_retired_fun_finish(
    s: Substitution,
    s1: Substitution,
    s2: Substitution,
    input: Type,
    output: Type,
    all: Set<TypeVar>,
)
    requires
        s1.len() == s.len() + 1,
        input == Type::Var(s.len() as TypeVar),
        s.len() <= TypeVar::MAX,
        wf(s2),
        s2.len() >= s1.len(),
        retired_at(s1, s2, all),
        avoids(apply(s2, output), all),
    ensures
        retired_at(s, s2, all),
        avoids(apply(s2, Type::Function(Box::new(apply(s2, input)), Box::new(output))), all),
{
    lemma_retired_earlier(s, s1, s2, all);
    assert(scoped(s1.len(), input)) by {
        assert forall|v: TypeVar| #[trigger] occurs(v, input) implies v < s1.len() by {}
    }
    assert(scoped(s2.len(), input)) by {
        lemma_scoped_mono(s1.len(), s2.len(), input);
    }
    lemma_resolved_type(s2, input);
    assert(avoids(apply(s2, input), all));
    let result = Type::Function(Box::new(apply(s2, input)), Box::new(output));
    assert(apply(s2, result) == Type::Function(
        Box::new(apply(s2, apply(s2, input))),
        Box::new(apply(s2, output)),
    ));
    assert forall|w: TypeVar| all.contains(w) implies !#[trigger] occurs(w, apply(s2, result)) by {
        assert(!occurs(w, apply(s2, input)));
        assert(!occurs(w, apply(s2, output)));
    }
}

#[verifier::spinoff_prover]
proof fn lemma_retired_fun(s: Substitution, expr: Expr, env: Seq<Binding>)
    requires
        inv(s, env),
        fits(s, expr, env),
        expr.kind is Fun,
    ensures
        retires(s, expr, env),
    decreases expr, 0nat,
{
    let parameter = expr.kind->Fun_parameter;
    let body = expr.kind->Fun_body;
    let (s1, input) = fresh(s);
    let inner = env.push((parameter@, seq![], input));
    lemma_infer_grows(s1, *body, inner);
    let (s2, r) = infer_expr(s1, *body, inner);
    assert(s.len() <= TypeVar::MAX);
    assert(inv(s1, inner) && s1.len() == s.len() + 1 && input == Type::Var(s.len() as TypeVar)) by {
        lemma_fresh(s);
        lemma_push_parameter(s, env, parameter@, Set::empty());
    }
    lemma_retired(s1, *body, inner);
    if let Ok(output) = r {
        assert(wf(s2) && s2.len() >= s1.len()) by {
            lemma_frame(s1, *body, inner, Set::empty());
        }
        let all = retired(s1, *body, inner);
        lemma_retired_fun_finish(s, s1, s2, input, output, all);
        assert(retired(s, expr, env) == all);
    }
}

#[verifier::spinoff_prover]
proof fn lemma_retired_apply(s: Substitution, expr: Expr, env: Seq<Binding>)
    requires
        inv(s, env),
        fits(s, expr, env),
        expr.kind is Apply,
    ensures
        retires(s, expr, env),
    decreases expr, 0nat,
{
    let function = expr.kind->function;
    let argument = expr.kind->argument;
    let (s1, r1) = infer_expr(s, *function, env);
    if let Ok(f) = r1 {
        lemma_infer_grows(s1, *argument, env);
        let (s2, r2) = infer_expr(s1, *argument, env);
        if let Ok(a) = r2 {
            let (s3, output) = fresh(s2);
            let expected = Type::Function(Box::new(a), Box::new(output));
            lemma_unify_len(s3, f, expected);
            if let Ok(s4) = unify(s3, f, expected) {
                let rf = retired(s, *function, env);
                lemma_step(s, *function, env, Set::empty());
                lemma_retired(s, *function, env);
                lemma_retired_then(s, s1, *argument, env, rf);
                let ra = retired(s1, *argument, env);
                let all = rf + ra;
                lemma_fresh(s2);
                lemma_same_adds_none(s2, s3, all);
                lemma_retired_transfer(s, s2, s3, all);
                lemma_scoped_mono(s1.len(), s3.len(), f);
                lemma_scoped_mono(s2.len(), s3.len(), a);
                assert(scoped(s3.len(), expected)) by {
                    assert forall|v: TypeVar| #[trigger] occurs(v, expected) implies v < s3.len() by {
                        if occurs(v, a) {
                        } else {
                            assert(occurs(v, output));
                        }
                    }
                }
                assert forall|w: TypeVar| all.contains(w) implies !#[trigger] occurs(w, apply(s3, f)) by {
                    if occurs(w, apply(s3, f)) {
                        assert(occurs(w, apply(s2, f)));
                        if rf.contains(w) {
                            assert(occurs(w, apply(s1, f)));
                        } else {
                            assert(avoids(apply(s2, f), ra));
                        }
                    }
                }
                assert forall|w: TypeVar| all.contains(w) implies !#[trigger] occurs(w, apply(s3, expected)) by {
                    if occurs(w, apply(s3, expected)) {
                        if occurs(w, apply(s3, a)) {
                            assert(occurs(w, apply(s2, a)));
                        } else {
                            assert(occurs(w, apply(s3, output)));
                        }
                    }
                }
                lemma_retired_unify(s, s3, f, expected, all);
                lemma_resolved_type(s4, output);
                assert forall|w: TypeVar| all.contains(w) implies !#[trigger] occurs(w, apply(s4, apply(s4, output))) by {
                    if occurs(w, apply(s4, output)) {
                        assert(occurs(w, apply(s3, output)));
                    }
                }
            }
        }
    }
}

#[verifier::spinoff_prover]
proof fn lemma_retired_let(s: Substitution, expr: Expr, env: Seq<Binding>)
    requires
        inv(s, env),
        fits(s, expr, env),
        expr.kind is Let,
    ensures
        retires(s, expr, env),
    decreases expr, 0nat,
{
    let name = expr.kind->Let_name;
    let value = expr.kind->Let_value;
    let body = expr.kind->Let_body;
    let (s1, r) = infer_expr(s, *value, env);
    if let Ok(t) = r {
        let q = generalizable(s1, t, env, s1.len());
        let ty = apply(s1, t);
        let inner = env.push((name@, q, ty));
        lemma_infer_grows(s1, *body, inner);
        let (s2, r2) = infer_expr(s1, *body, inner);
        if let Ok(result) = r2 {
            let rv = retired(s, *value, env);
            lemma_step(s, *value, env, Set::empty());
            lemma_retired(s, *value, env);
            lemma_generalized(s1, t, env, rv);
            lemma_resolved_type(s1, t);
            // The variables generalized here were made while inferring the value.
            assert forall|w: TypeVar| #[trigger] q.contains(w) implies w >= s.len() by {
                lemma_generalized_new(s, *value, env, q, w);
            }
            lemma_old_types_avoid(s, *value, env, members(q));
            // The state for the body.
            lemma_keeps_self(s1);
            lemma_adds_none_self(s1, rv);
            lemma_adds_none_self(s1, protected(env));
            assert forall|v: TypeVar| occurs(v, ty) && !q.contains(v) implies #[trigger] apply(s1, Type::Var(v)) == Type::Var(v) by {
                lemma_apply_resolved(s1, t);
            }
            lemma_retired_guards(s, s1, env, rv);
            lemma_push_binding(s1, s1, env, name@, q, ty, rv);
            lemma_step(s1, *body, inner, rv);
            lemma_retired(s1, *body, inner);
            let rb = retired(s1, *body, inner);
            // The body keeps the value's retired variables and the generalized ones.
            lemma_retired_transfer(s, s1, s2, rv);
            assert forall|w: TypeVar| #[trigger] q.contains(w) implies protected(inner).contains(w) by {
                assert(inner[env.len() as int].1.contains(w));
            }
            let qs = members(q);
            assert(retired_at(s, s2, qs)) by {
                assert forall|w: TypeVar| #[trigger] qs.contains(w) implies s.len() <= w < s2.len() && apply(s2, Type::Var(w))
                    == Type::Var(w) by {
                    assert(q.contains(w));
                    assert(protected(inner).contains(w));
                }
                assert forall|t2: Type| scoped(s.len(), t2) implies avoids(#[trigger] apply(s2, t2), qs) by {
                    assert(avoids(apply(s1, t2), qs));
                    assert forall|w: TypeVar| qs.contains(w) implies !#[trigger] occurs(w, apply(s2, t2)) by {
                        assert(protected(inner).contains(w));
                        if occurs(w, apply(s2, t2)) {
                            assert(occurs(w, apply(s1, t2)));
                        }
                    }
                }
            }
            lemma_retired_earlier(s, s1, s2, rb);
            lemma_retired_union(s, s2, qs, rb);
            lemma_retired_union(s, s2, rv, qs + rb);
            assert(rv + (qs + rb) =~= retired(s, expr, env));
            assert forall|w: TypeVar| retired(s, expr, env).contains(w) implies !#[trigger] occurs(w, apply(s2, result)) by {
                if rv.contains(w) {
                } else if qs.contains(w) {
                    assert(protected(inner).contains(w));
                } else {
                }
            }
        }
    }
}

/// A variable that `let` generalizes was made while inferring the value: an
/// older one either stays mentioned by a visible binding or does not reach
/// the value's type.
#[verifier::spinoff_prover]
proof fn lemma_generalized_new(s: Substitution, value: Expr, env: Seq<Binding>, q: Seq<TypeVar>, w: TypeVar)
    requires
        inv(s, env),
        fits(s, value, env),
        infer_expr(s, value, env).1 is Ok,
        q == generalizable(
            infer_expr(s, value, env).0,
            infer_expr(s, value, env).1->Ok_0,
            env,
            infer_expr(s, value, env).0.len(),
        ),
        q.contains(w),
    ensures
        w >= s.len(),
{
    if w >= s.len() {
        return;
    }
    let (s1, r) = infer_expr(s, value, env);
    let t = r->Ok_0;
    lemma_step(s, value, env, Set::empty());
    lemma_generalizable(s1, t, env, s1.len(), w);
    lemma_apply_resolved(s1, t);
    assert(!bound(s1, w));
    assert(!bound(s, w));
    if exists|i: int, v: TypeVar| #[trigger] mentions(env, i, v) && occurs(w, apply(s, Type::Var(v))) {
        let (i, v) = choose|i: int, v: TypeVar| #[trigger] mentions(env, i, v) && occurs(w, apply(s, Type::Var(v)));
        assert(apply(s1, Type::Var(w)) == Type::Var(w));
        lemma_occurs_apply(s1, w, apply(s, Type::Var(v)), w);
        lemma_refines_apply(s1, s, Type::Var(v));
        lemma_occurs_apply(s1, v, env[i].2, w);
        if env[i].1.contains(w) {
            assert(protected(env).contains(w));
            assert(avoids(apply(s, Type::Var(v)), protected(env)));
        }
        assert(env_var(s1, env, w));
    } else {
        let only = Set::empty().insert(w);
        assert(guards(s, env, only)) by {
            assert forall|i: int, v: TypeVar| #[trigger] mentions(env, i, v) implies avoids(apply(s, Type::Var(v)), only) by {
                assert forall|z: TypeVar| only.contains(z) implies !#[trigger] occurs(z, apply(s, Type::Var(v))) by {
                    assert(z == w);
                }
            }
        }
        lemma_frame(s, value, env, only);
        assert(only.contains(w));
    }
}


/// `t` with each quantified variable `q[k]` replaced by `instance[k]`.
pub open spec fn instantiate(t: Type, q: Seq<TypeVar>, instance: Seq<Type>) -> Type
    decreases t,
{
    match t {
        Type::Var(v) => match position(q, v) {
            Some(k) => instance[k as int],
            None => t,
        },
        Type::Function(a, b) => Type::Function(
            Box::new(instantiate(*a, q, instance)),
            Box::new(instantiate(*b, q, instance)),
        ),
        _ => t,
    }
}

/// `w` is free in the context: a visible binding mentions it outside its
/// quantified variables.
pub open spec fn free_in(context: Seq<Binding>, w: TypeVar) -> bool {
    exists|i: int| #[trigger] mentions(context, i, w)
}

/// A derivation in the typing rules: the derivations of the parts of an
/// expression, the instance chosen for a variable's scheme, the argument type
/// of an application, and the variables a `let` quantifies and the type of
/// its value.
pub enum Derivation {
    Leaf { instance: Seq<Type> },
    One(Box<Derivation>),
    Two(Box<Derivation>, Box<Derivation>),
    Three(Box<Derivation>, Box<Derivation>, Box<Derivation>),
    Call { input: Type, function: Box<Derivation>, argument: Box<Derivation> },
    Bind {
        quantified: Seq<TypeVar>,
        value_type: Type,
        value: Box<Derivation>,
        body: Box<Derivation>,
    },
}

/// The typing rules of the language with let-polymorphism: `d` derives that
/// `context` gives `expr` the type `ty`. A context binds each name to a
/// scheme: variables it quantifies and a type. Literals have their type; a
/// variable has an instance of the scheme of its most recent binding (its
/// quantified variables replaced by any types); `-` and the arithmetic
/// operators take and give `int`, `<` takes `int` and gives `bool`; a
/// condition is `bool` and both branches have the type of the whole; a
/// function `fun x -> body` has a type `a -> r` where `body` has type `r`
/// with `x` bound to `a`, quantifying nothing; an application of a function
/// of type `a -> ty` to an argument of type `a` has type `ty`; `let x = v in
/// b` has the type of `b` with `x` bound to the type of `v`, quantifying
/// variables that are free in no visible binding of the context.
pub open spec fn derives(context: Seq<Binding>, expr: Expr, ty: Type, d: Derivation) -> bool
    decreases expr,
{
    match expr.kind {
        ExprKind::Int(_) => ty == Type::Int,
        ExprKind::Bool(_) => ty == Type::Bool,
        ExprKind::Var(name) => match lookup_scheme(context, name@) {
            Some((q, t)) => {
                &&& d matches Derivation::Leaf { instance }
                &&& instance.len() == q.len()
                &&& ty == instantiate(t, q, instance)
            },
            None => false,
        },
        ExprKind::Negate(inner) => {
            &&& ty == Type::Int
            &&& d matches Derivation::One(di)
            &&& derives(context, *inner, Type::Int, *di)
        },
        ExprKind::Binary { op, left, right } => {
            &&& ty == (if op == BinaryOp::Less {
                Type::Bool
            } else {
                Type::Int
            })
            &&& d matches Derivation::Two(dl, dr)
            &&& derives(context, *left, Type::Int, *dl)
            &&& derives(context, *right, Type::Int, *dr)
        },
        ExprKind::If { condition, then_branch, else_branch } => {
            &&& d matches Derivation::Three(dc, dt, de)
            &&& derives(context, *condition, Type::Bool, *dc)
            &&& derives(context, *then_branch, ty, *dt)
            &&& derives(context, *else_branch, ty, *de)
        },
        ExprKind::Fun { parameter, body } => match ty {
            Type::Function(input, output) => {
                &&& d matches Derivation::One(db)
                &&& derives(context.push((parameter@, seq![], *input)), *body, *output, *db)
            },
            _ => false,
        },
        ExprKind::Apply { function, argument } => {
            &&& d matches Derivation::Call { input, function: df, argument: da }
            &&& derives(context, *function, Type::Function(Box::new(input), Box::new(ty)), *df)
            &&& derives(context, *argument, input, *da)
        },
        ExprKind::Let { name, value, body } => {
            &&& d matches Derivation::Bind { quantified, value_type, value: dv, body: db }
            &&& forall|w: TypeVar| #[trigger] quantified.contains(w) ==> !free_in(context, w)
            &&& derives(context, *value, value_type, *dv)
            &&& derives(context.push((name@, quantified, value_type)), *body, ty, *db)
        },
    }
}

/// The typing rules give `expr` the type `ty` in `context`.
pub open spec fn has_type(context: Seq<Binding>, expr: Expr, ty: Type) -> bool {
    exists|d: Derivation| #[trigger] derives(context, expr, ty, d)
}

/// The typing context that the substitution `sigma` makes of the environment:
/// each scheme keeps its quantified variables, and its type is what `sigma`
/// makes of it.
pub open spec fn context_under(sigma: Substitution, env: Seq<Binding>) -> Seq<Binding> {
    Seq::new(env.len(), |i: int| (env[i].0, env[i].1, apply(sigma, env[i].2)))
}

proof fn lemma_context_under_push(sigma: Substitution, env: Seq<Binding>, b: Binding)
    ensures
        context_under(sigma, env.push(b)) == context_under(sigma, env).push((b.0, b.1, apply(sigma, b.2))),
{
    assert(context_under(sigma, env.push(b)) =~= context_under(sigma, env).push((b.0, b.1, apply(sigma, b.2))));
}

/// A name's scheme in the context under `sigma` is its scheme in the
/// environment with its type under `sigma`.
proof fn lemma_lookup_under(sigma: Substitution, env: Seq<Binding>, name: Seq<char>)
    ensures
        lookup_scheme(context_under(sigma, env), name) == match lookup_scheme(env, name) {
            Some((q, t)) => Some((q, apply(sigma, t))),
            None => None,
        },
    decreases env.len(),
{
    if env.len() > 0 {
        let rest = env.drop_last();
        lemma_lookup_under(sigma, rest, name);
        assert(context_under(sigma, env).drop_last() =~= context_under(sigma, rest));
    }
}

/// Visibility and what a binding mentions are the same in the context under
/// any substitution, except that the mentioned variables are those of the
/// substituted types.
proof fn lemma_mentions_under(sigma: Substitution, env: Seq<Binding>, i: int, w: TypeVar)
    requires
        mentions(context_under(sigma, env), i, w),
    ensures
        0 <= i < env.len(),
        !shadowed(env, i),
        occurs(w, apply(sigma, env[i].2)),
        !env[i].1.contains(w),
{
    let c = context_under(sigma, env);
    if shadowed(env, i) {
        let j = choose|j: int| i < j < env.len() && #[trigger] env[j].0 == env[i].0;
        assert(c[j].0 == c[i].0);
    }
}

/// Instantiating variables that a type does not mention leaves it as it is.
proof fn lemma_instantiate_absent(t: Type, q: Seq<TypeVar>, instance: Seq<Type>)
    requires
        avoids(t, members(q)),
    ensures
        instantiate(t, q, instance) == t,
    decreases t,
{
    match t {
        Type::Var(v) => {
            lemma_position_facts(q, v);
            assert(occurs(v, t));
            assert(!members(q).contains(v));
        },
        Type::Function(a, b) => {
            assert forall|w: TypeVar| members(q).contains(w) implies !#[trigger] occurs(w, *a) by {
                assert(!occurs(w, t));
            }
            assert forall|w: TypeVar| members(q).contains(w) implies !#[trigger] occurs(w, *b) by {
                assert(!occurs(w, t));
            }
            lemma_instantiate_absent(*a, q, instance);
            lemma_instantiate_absent(*b, q, instance);
        },
        _ => {},
    }
}

/// What `sigma` makes of an instance renamed to fresh variables is an
/// instance of what it makes of the scheme's type, where `sigma` leaves the
/// quantified variables alone and keeps them out of what it makes of the others.
proof fn lemma_instance(sigma: Substitution, t: Type, q: Seq<TypeVar>, n: nat)
    requires
        n + q.len() <= TypeVar::MAX,
        forall|w: TypeVar| #[trigger] q.contains(w) ==> apply(sigma, Type::Var(w)) == Type::Var(w),
        forall|v: TypeVar| occurs(v, t) && !q.contains(v) ==> avoids(#[trigger] apply(sigma, Type::Var(v)), members(q)),
    ensures
        apply(sigma, rename(t, q, n)) == instantiate(
            apply(sigma, t),
            q,
            Seq::new(q.len(), |k: int| apply(sigma, Type::Var((n + k) as TypeVar))),
        ),
    decreases t,
{
    let instance = Seq::new(q.len(), |k: int| apply(sigma, Type::Var((n + k) as TypeVar)));
    match t {
        Type::Var(v) => {
            lemma_position_facts(q, v);
            match position(q, v) {
                Some(k) => {
                    assert(q.contains(v));
                    assert(apply(sigma, t) == t);
                },
                None => {
                    assert(occurs(v, t));
                    lemma_instantiate_absent(apply(sigma, t), q, instance);
                },
            }
        },
        Type::Function(a, b) => {
            assert forall|v: TypeVar| occurs(v, *a) && !q.contains(v) implies avoids(
                #[trigger] apply(sigma, Type::Var(v)),
                members(q),
            ) by {
                assert(occurs(v, t));
            }
            assert forall|v: TypeVar| occurs(v, *b) && !q.contains(v) implies avoids(
                #[trigger] apply(sigma, Type::Var(v)),
                members(q),
            ) by {
                assert(occurs(v, t));
            }
            lemma_instance(sigma, *a, q, n);
            lemma_instance(sigma, *b, q, n);
        },
        _ => {},
    }
}

proof fn lemma_adds_none_subset(s: Substitution, s1: Substitution, x: Set<TypeVar>, y: Set<TypeVar>)
    requires
        adds_none(s, s1, x),
        y.subset_of(x),
    ensures
        adds_none(s, s1, y),
{
    assert forall|w: TypeVar| y.contains(w) implies #[trigger] apply(s1, Type::Var(w)) == Type::Var(w) by {
        assert(x.contains(w));
    }
    assert forall|t: Type, w: TypeVar|
        y.contains(w) && #[trigger] occurs(w, apply(s1, t)) implies occurs(w, apply(s, t)) by {
        assert(x.contains(w));
    }
}

proof fn lemma_adds_none_union(s: Substitution, s1: Substitution, x: Set<TypeVar>, y: Set<TypeVar>)
    requires
        adds_none(s, s1, x),
        adds_none(s, s1, y),
    ensures
        adds_none(s, s1, x + y),
{
    assert forall|w: TypeVar| (x + y).contains(w) implies #[trigger] apply(s1, Type::Var(w)) == Type::Var(w) by {
        if x.contains(w) {
        } else {
            assert(y.contains(w));
        }
    }
    assert forall|t: Type, w: TypeVar|
        (x + y).contains(w) && #[trigger] occurs(w, apply(s1, t)) implies occurs(w, apply(s, t)) by {
        if x.contains(w) {
        } else {
            assert(y.contains(w));
        }
    }
}

proof fn lemma_guards_union(s: Substitution, env: Seq<Binding>, x: Set<TypeVar>, y: Set<TypeVar>)
    requires
        guards(s, env, x),
        guards(s, env, y),
    ensures
        guards(s, env, x + y),
{
    assert forall|w: TypeVar| #[trigger] (x + y).contains(w) implies w < s.len() && apply(s, Type::Var(w)) == Type::Var(w) by {
        if x.contains(w) {
        } else {
            assert(y.contains(w));
        }
    }
    assert forall|i: int, v: TypeVar| #[trigger] mentions(env, i, v) implies avoids(apply(s, Type::Var(v)), x + y) by {
        assert(avoids(apply(s, Type::Var(v)), x));
        assert(avoids(apply(s, Type::Var(v)), y));
    }
}

/// The quantified variables after pushing a binding: those before and its own.
proof fn lemma_protected_push(env: Seq<Binding>, b: Binding)
    ensures
        protected(env.push(b)) == protected(env) + members(b.1),
{
    let inner = env.push(b);
    assert forall|w: TypeVar| protected(inner).contains(w) == (protected(env) + members(b.1)).contains(w) by {
        if protected(inner).contains(w) {
            let i = choose|i: int| 0 <= i < inner.len() && (#[trigger] inner[i]).1.contains(w);
            if i < env.len() {
                assert(inner[i] == env[i]);
                assert(protected(env).contains(w));
            }
        }
        if protected(env).contains(w) {
            let i = choose|i: int| 0 <= i < env.len() && (#[trigger] env[i]).1.contains(w);
            assert(inner[i] == env[i]);
            assert(quantified_in(inner, w));
        }
        if members(b.1).contains(w) {
            assert(inner[env.len() as int] == b);
            assert(quantified_in(inner, w));
        }
    }
    assert(protected(inner) =~= protected(env) + members(b.1));
}


/// `sigma` is an instance of the substitution inference reached that adds no
/// occurrence of a variable retired by it or quantified in the environment.
pub open spec fn good(sigma: Substitution, s: Substitution, expr: Expr, env: Seq<Binding>) -> bool {
    &&& refines(sigma, infer_expr(s, expr, env).0)
    &&& adds_none(infer_expr(s, expr, env).0, sigma, retired(s, expr, env) + protected(env))
}

/// What holds of `sigma` after a later substitution holds after an earlier one
/// that the later one keeps and adds nothing to.
proof fn lemma_good_earlier(sigma: Substitution, a: Substitution, b: Substitution, x: Set<TypeVar>)
    requires
        refines(sigma, b),
        adds_none(b, sigma, x),
        keeps(a, b),
        adds_none(a, b, x),
    ensures
        refines(sigma, a),
        adds_none(a, sigma, x),
{
    lemma_refines_trans(sigma, b, a);
    lemma_adds_none_trans(a, b, sigma, x);
}

/// The rules give a variable an instance of its scheme under `sigma`.
#[verifier::spinoff_prover]
proof fn lemma_sound_var(s: Substitution, expr: Expr, env: Seq<Binding>, sigma: Substitution) -> (d: Derivation)
    requires
        inv(s, env),
        fits(s, expr, env),
        expr.kind is Var,
        infer_expr(s, expr, env).1 is Ok,
        good(sigma, s, expr, env),
    ensures
        derives(context_under(sigma, env), expr, apply(sigma, infer_expr(s, expr, env).1->Ok_0), d),
{
    let name = expr.kind->Var_0;
    let i = lemma_lookup_visible(env, name@);
    let q = env[i].1;
    let ty = env[i].2;
    let n = s.len();
    let s1 = extend(s, q.len());
    lemma_extend(s, q.len());
    lemma_lookup_under(sigma, env, name@);
    let p = protected(env);
    assert(adds_none(s1, sigma, p)) by {
        lemma_adds_none_subset(s1, sigma, retired(s, expr, env) + p, p);
    }
    assert forall|w: TypeVar| #[trigger] q.contains(w) implies apply(sigma, Type::Var(w)) == Type::Var(w) by {
        assert(quantified_in(env, w));
        assert(p.contains(w));
    }
    assert forall|v: TypeVar| occurs(v, ty) && !q.contains(v) implies avoids(
        #[trigger] apply(sigma, Type::Var(v)),
        members(q),
    ) by {
        assert(mentions(env, i, v));
        assert(avoids(apply(s, Type::Var(v)), p));
        assert(apply(s1, Type::Var(v)) == apply(s, Type::Var(v)));
        assert forall|w: TypeVar| members(q).contains(w) implies !#[trigger] occurs(w, apply(sigma, Type::Var(v))) by {
            assert(quantified_in(env, w));
            assert(p.contains(w));
            if occurs(w, apply(sigma, Type::Var(v))) {
                assert(occurs(w, apply(s1, Type::Var(v))));
            }
        }
    }
    lemma_instance(sigma, ty, q, n);
    Derivation::Leaf { instance: Seq::new(q.len(), |k: int| apply(sigma, Type::Var((n + k) as TypeVar))) }
}

/// Inference is sound in any state it works in: from a substitution `s` and
/// an environment `env` kept apart as `inv` says, where it gives `expr` a type,
/// every instance `sigma` of the substitution it reaches that adds nothing
/// to its generalized or quantified variables (`good`) makes of the
/// environment a context in which the typing rules give `expr` what `sigma`
/// makes of that type; the derivation is returned.
pub proof fn law_inference_sound_in_context(s: Substitution, expr: Expr, env: Seq<Binding>, sigma: Substitution) -> (d: Derivation)
    requires
        inv(s, env),
        fits(s, expr, env),
        infer_expr(s, expr, env).1 is Ok,
        good(sigma, s, expr, env),
    ensures
        derives(context_under(sigma, env), expr, apply(sigma, infer_expr(s, expr, env).1->Ok_0), d),
    decreases expr, 1nat,
{
    match expr.kind {
        ExprKind::Var(..) => lemma_sound_var(s, expr, env, sigma),
        ExprKind::Negate(..) => lemma_sound_negate(s, expr, env, sigma),
        ExprKind::Binary { .. } => lemma_sound_binary(s, expr, env, sigma),
        ExprKind::If { .. } => lemma_sound_if(s, expr, env, sigma),
        ExprKind::Fun { .. } => lemma_sound_fun(s, expr, env, sigma),
        ExprKind::Apply { .. } => lemma_sound_apply(s, expr, env, sigma),
        ExprKind::Let { .. } => lemma_sound_let(s, expr, env, sigma),

        _ => Derivation::Leaf { instance: seq![] },
    }
}

#[verifier::spinoff_prover]
proof fn lemma_sound_negate(s: Substitution, expr: Expr, env: Seq<Binding>, sigma: Substitution) -> (d: Derivation)
    requires
        inv(s, env),
        fits(s, expr, env),
        expr.kind is Negate,
        infer_expr(s, expr, env).1 is Ok,
        good(sigma, s, expr, env),
    ensures
        derives(context_under(sigma, env), expr, apply(sigma, infer_expr(s, expr, env).1->Ok_0), d),
    decreases expr, 0nat,
{
    let inner = expr.kind->Negate_0;
    let (s1, r) = infer_expr(s, *inner, env);
    let t = r->Ok_0;
    lemma_unify_len(s1, t, Type::Int);
    let s2 = unify(s1, t, Type::Int)->Ok_0;
    let p = protected(env);
    let ri = retired(s, *inner, env);
    lemma_step(s, *inner, env, Set::empty());
    lemma_retired(s, *inner, env);
    lemma_retired_guards(s, s1, env, ri);
    lemma_guards_union(s1, env, ri, p);
    lemma_unify_frame(s1, t, Type::Int, ri + p);
    lemma_good_earlier(sigma, s1, s2, ri + p);
    let di = law_inference_sound_in_context(s, *inner, env, sigma);
    lemma_refines_apply(sigma, s2, t);
    Derivation::One(Box::new(di))
}


/// The facts for continuing after a step from `s` to `s1` that retired `r`:
/// the state at `s1` and every variable of `r` and of the quantified ones guarded.
proof fn lemma_after(s: Substitution, s1: Substitution, env: Seq<Binding>, r: Set<TypeVar>)
    requires
        inv(s1, env),
        within(env, s.len()),
        retired_at(s, s1, r),
    ensures
        guards(s1, env, r + protected(env)),
        forall|w: TypeVar| #[trigger] (r + protected(env)).contains(w) ==> apply(s1, Type::Var(w)) == Type::Var(w),
{
    lemma_retired_guards(s, s1, env, r);
    lemma_guards_union(s1, env, r, protected(env));
}

#[verifier::spinoff_prover]
proof fn lemma_sound_binary(s: Substitution, expr: Expr, env: Seq<Binding>, sigma: Substitution) -> (d: Derivation)
    requires
        inv(s, env),
        fits(s, expr, env),
        expr.kind is Binary,
        infer_expr(s, expr, env).1 is Ok,
        good(sigma, s, expr, env),
    ensures
        derives(context_under(sigma, env), expr, apply(sigma, infer_expr(s, expr, env).1->Ok_0), d),
    decreases expr, 0nat,
{
    let left = expr.kind->left;
    let right = expr.kind->right;
    let p = protected(env);
    let (s1, r1) = infer_expr(s, *left, env);
    let a = r1->Ok_0;
    lemma_unify_len(s1, a, Type::Int);
    let s2 = unify(s1, a, Type::Int)->Ok_0;
    lemma_infer_grows(s2, *right, env);
    let (s3, r2) = infer_expr(s2, *right, env);
    let b = r2->Ok_0;
    lemma_unify_len(s3, b, Type::Int);
    let s4 = unify(s3, b, Type::Int)->Ok_0;
    let rl = retired(s, *left, env);
    let rr = retired(s2, *right, env);
    assert(retired(s, expr, env) == rl + rr);
    // Left, and the unification after it.
    lemma_step(s, *left, env, Set::empty());
    lemma_retired(s, *left, env);
    lemma_after(s, s1, env, rl);
    lemma_unify_frame(s1, a, Type::Int, rl + p);
    lemma_adds_none_subset(s1, s2, rl + p, p);
    lemma_adds_none_subset(s1, s2, rl + p, rl);
    lemma_inv_later(s1, s2, env);
    lemma_keeps_trans(s, s1, s2);
    lemma_retired_transfer(s, s1, s2, rl);
    // Right, and the unification after it.
    lemma_retired_then(s, s2, *right, env, rl);
    lemma_after(s, s3, env, rl + rr);
    lemma_unify_frame(s3, b, Type::Int, (rl + rr) + p);
    // What sigma adds nothing to, back to each part.
    let all = (rl + rr) + p;
    assert(adds_none(s4, sigma, all));
    lemma_adds_none_subset(s3, s4, all, rr + p);
    lemma_adds_none_subset(s4, sigma, all, rr + p);
    lemma_good_earlier(sigma, s3, s4, rr + p);
    lemma_adds_none_union(s2, s3, rl, p);
    lemma_adds_none_subset(s3, s4, all, rl + p);
    lemma_adds_none_trans(s2, s3, s4, rl + p);
    lemma_adds_none_trans(s1, s2, s4, rl + p);
    lemma_keeps_trans(s2, s3, s4);
    lemma_keeps_trans(s1, s2, s4);
    lemma_adds_none_subset(s4, sigma, all, rl + p);
    lemma_good_earlier(sigma, s1, s4, rl + p);
    let dl = law_inference_sound_in_context(s, *left, env, sigma);
    let dr = law_inference_sound_in_context(s2, *right, env, sigma);
    lemma_refines_trans(sigma, s4, s2);
    lemma_refines_apply(sigma, s2, a);
    lemma_refines_apply(sigma, s4, b);
    Derivation::Two(Box::new(dl), Box::new(dr))
}


#[verifier::spinoff_prover]
#[verifier::rlimit(25)]
proof fn lemma_sound_if(s: Substitution, expr: Expr, env: Seq<Binding>, sigma: Substitution) -> (d: Derivation)
    requires
        inv(s, env),
        fits(s, expr, env),
        expr.kind is If,
        infer_expr(s, expr, env).1 is Ok,
        good(sigma, s, expr, env),
    ensures
        derives(context_under(sigma, env), expr, apply(sigma, infer_expr(s, expr, env).1->Ok_0), d),
    decreases expr, 0nat,
{
    let condition = expr.kind->condition;
    let then_branch = expr.kind->then_branch;
    let else_branch = expr.kind->else_branch;
    let p = protected(env);
    let (s1, r1) = infer_expr(s, *condition, env);
    let c = r1->Ok_0;
    lemma_unify_len(s1, c, Type::Bool);
    let s2 = unify(s1, c, Type::Bool)->Ok_0;
    lemma_infer_grows(s2, *then_branch, env);
    let (s3, r2) = infer_expr(s2, *then_branch, env);
    let a = r2->Ok_0;
    lemma_infer_grows(s3, *else_branch, env);
    let (s4, r3) = infer_expr(s3, *else_branch, env);
    let b = r3->Ok_0;
    lemma_unify_len(s4, a, b);
    let s5 = unify(s4, a, b)->Ok_0;
    let rc = retired(s, *condition, env);
    let rt = retired(s2, *then_branch, env);
    let re = retired(s3, *else_branch, env);
    assert(retired(s, expr, env) == rc + (rt + re));
    let all = (rc + (rt + re)) + p;
    // The condition, and the unification after it.
    lemma_step(s, *condition, env, Set::empty());
    lemma_retired(s, *condition, env);
    lemma_after(s, s1, env, rc);
    lemma_unify_frame(s1, c, Type::Bool, rc + p);
    lemma_adds_none_subset(s1, s2, rc + p, p);
    lemma_adds_none_subset(s1, s2, rc + p, rc);
    lemma_inv_later(s1, s2, env);
    lemma_keeps_trans(s, s1, s2);
    lemma_retired_transfer(s, s1, s2, rc);
    // The branches.
    lemma_retired_then(s, s2, *then_branch, env, rc);
    lemma_keeps_trans(s, s2, s3);
    lemma_retired_then(s, s3, *else_branch, env, rc + rt);
    lemma_after(s, s4, env, (rc + rt) + re);
    lemma_scoped_mono(s3.len(), s4.len(), a);
    assert((rc + rt) + re =~= rc + (rt + re));
    assert forall|w: TypeVar| all.contains(w) implies !#[trigger] occurs(w, apply(s4, a)) by {
        if occurs(w, apply(s4, a)) {
            if (rc + rt).contains(w) || p.contains(w) {
                assert(occurs(w, apply(s3, a)));
            } else {
                assert(avoids(apply(s4, a), re));
            }
        }
    }
    assert forall|w: TypeVar| all.contains(w) implies !#[trigger] occurs(w, apply(s4, b)) by {
        if occurs(w, apply(s4, b)) {
            assert(avoids(apply(s4, b), (rc + rt) + re));
        }
    }
    lemma_unify_frame(s4, a, b, all);
    assert(adds_none(s5, sigma, all));
    // Back to the else branch.
    lemma_adds_none_subset(s4, s5, all, re + p);
    lemma_adds_none_subset(s5, sigma, all, re + p);
    lemma_good_earlier(sigma, s4, s5, re + p);
    // Back to the then branch.
    lemma_adds_none_union(s3, s4, rc + rt, p);
    lemma_adds_none_subset(s3, s4, (rc + rt) + p, rt + p);
    lemma_adds_none_subset(s4, s5, all, rt + p);
    lemma_adds_none_trans(s3, s4, s5, rt + p);
    lemma_keeps_trans(s3, s4, s5);
    lemma_adds_none_subset(s5, sigma, all, rt + p);
    lemma_good_earlier(sigma, s3, s5, rt + p);
    // Back to the condition.
    lemma_adds_none_union(s2, s3, rc, p);
    lemma_adds_none_subset(s3, s4, (rc + rt) + p, rc + p);
    lemma_adds_none_subset(s4, s5, all, rc + p);
    lemma_adds_none_trans(s2, s3, s4, rc + p);
    lemma_adds_none_trans(s2, s4, s5, rc + p);
    lemma_adds_none_trans(s1, s2, s5, rc + p);
    lemma_keeps_trans(s2, s3, s5);
    lemma_keeps_trans(s1, s2, s5);
    lemma_adds_none_subset(s5, sigma, all, rc + p);
    lemma_good_earlier(sigma, s1, s5, rc + p);
    let dc = law_inference_sound_in_context(s, *condition, env, sigma);
    let dt = law_inference_sound_in_context(s2, *then_branch, env, sigma);
    let de = law_inference_sound_in_context(s3, *else_branch, env, sigma);
    lemma_refines_trans(sigma, s5, s2);
    lemma_refines_apply(sigma, s2, c);
    lemma_refines_apply(sigma, s5, a);
    lemma_refines_apply(sigma, s5, b);
    lemma_refines_apply(sigma, s5, apply(s5, a));
    lemma_resolved_type(s5, a);
    Derivation::Three(Box::new(dc), Box::new(dt), Box::new(de))
}

#[verifier::spinoff_prover]
proof fn lemma_sound_fun(s: Substitution, expr: Expr, env: Seq<Binding>, sigma: Substitution) -> (d: Derivation)
    requires
        inv(s, env),
        fits(s, expr, env),
        expr.kind is Fun,
        infer_expr(s, expr, env).1 is Ok,
        good(sigma, s, expr, env),
    ensures
        derives(context_under(sigma, env), expr, apply(sigma, infer_expr(s, expr, env).1->Ok_0), d),
    decreases expr, 0nat,
{
    let parameter = expr.kind->Fun_parameter;
    let body = expr.kind->Fun_body;
    let (s1, input) = fresh(s);
    let inner = env.push((parameter@, seq![], input));
    lemma_infer_grows(s1, *body, inner);
    let (s2, r) = infer_expr(s1, *body, inner);
    let output = r->Ok_0;
    assert(s.len() <= TypeVar::MAX);
    assert(inv(s1, inner)) by {
        lemma_push_parameter(s, env, parameter@, Set::empty());
    }
    lemma_protected_push(env, (parameter@, seq![], input));
    assert(members(seq![]) =~= Set::<TypeVar>::empty());
    assert(protected(inner) =~= protected(env));
    assert(retired(s, expr, env) == retired(s1, *body, inner));
    let db = law_inference_sound_in_context(s1, *body, inner, sigma);
    lemma_refines_apply(sigma, s2, input);
    lemma_context_under_push(sigma, env, (parameter@, seq![], input));
    Derivation::One(Box::new(db))
}

#[verifier::spinoff_prover]
proof fn lemma_sound_apply(s: Substitution, expr: Expr, env: Seq<Binding>, sigma: Substitution) -> (d: Derivation)
    requires
        inv(s, env),
        fits(s, expr, env),
        expr.kind is Apply,
        infer_expr(s, expr, env).1 is Ok,
        good(sigma, s, expr, env),
    ensures
        derives(context_under(sigma, env), expr, apply(sigma, infer_expr(s, expr, env).1->Ok_0), d),
    decreases expr, 0nat,
{
    let function = expr.kind->function;
    let argument = expr.kind->argument;
    let p = protected(env);
    let (s1, r1) = infer_expr(s, *function, env);
    let f = r1->Ok_0;
    lemma_infer_grows(s1, *argument, env);
    let (s2, r2) = infer_expr(s1, *argument, env);
    let a = r2->Ok_0;
    let (s3, output) = fresh(s2);
    let expected = Type::Function(Box::new(a), Box::new(output));
    lemma_unify_len(s3, f, expected);
    let s4 = unify(s3, f, expected)->Ok_0;
    let rf = retired(s, *function, env);
    let ra = retired(s1, *argument, env);
    assert(retired(s, expr, env) == rf + ra);
    let all = (rf + ra) + p;
    // The function, then the argument.
    lemma_step(s, *function, env, Set::empty());
    lemma_retired(s, *function, env);
    lemma_retired_then(s, s1, *argument, env, rf);
    lemma_after(s, s2, env, rf + ra);
    lemma_fresh(s2);
    lemma_same_adds_none(s2, s3, all);
    lemma_keeps_trans(s, s1, s2);
    lemma_scoped_mono(s1.len(), s3.len(), f);
    lemma_scoped_mono(s2.len(), s3.len(), a);
    assert(scoped(s3.len(), expected)) by {
        assert forall|v: TypeVar| #[trigger] occurs(v, expected) implies v < s3.len() by {
            if occurs(v, a) {
            } else {
                assert(occurs(v, output));
            }
        }
    }
    assert forall|w: TypeVar| all.contains(w) implies !#[trigger] occurs(w, apply(s3, f)) by {
        if occurs(w, apply(s3, f)) {
            assert(occurs(w, apply(s2, f)));
            if ra.contains(w) {
                assert(avoids(apply(s2, f), ra));
            } else {
                assert(occurs(w, apply(s1, f)));
            }
        }
    }
    assert forall|w: TypeVar| all.contains(w) implies !#[trigger] occurs(w, apply(s3, expected)) by {
        if occurs(w, apply(s3, expected)) {
            if occurs(w, apply(s3, a)) {
                assert(occurs(w, apply(s2, a)));
            } else {
                assert(occurs(w, apply(s3, output)));
            }
        }
    }
    assert forall|w: TypeVar| #[trigger] all.contains(w) implies apply(s3, Type::Var(w)) == Type::Var(w) by {
        assert(apply(s2, Type::Var(w)) == Type::Var(w));
    }
    lemma_unify_frame(s3, f, expected, all);
    lemma_keeps_trans(s2, s3, s4);
    lemma_adds_none_trans(s2, s3, s4, all);
    assert(adds_none(s4, sigma, all));
    // Back to the argument.
    lemma_adds_none_subset(s2, s4, all, ra + p);
    lemma_adds_none_subset(s4, sigma, all, ra + p);
    lemma_good_earlier(sigma, s2, s4, ra + p);
    // Back to the function.
    lemma_adds_none_union(s1, s2, rf, p);
    lemma_adds_none_subset(s2, s4, all, rf + p);
    lemma_adds_none_trans(s1, s2, s4, rf + p);
    lemma_keeps_trans(s1, s2, s4);
    lemma_adds_none_subset(s4, sigma, all, rf + p);
    lemma_good_earlier(sigma, s1, s4, rf + p);
    let df = law_inference_sound_in_context(s, *function, env, sigma);
    let da = law_inference_sound_in_context(s1, *argument, env, sigma);
    lemma_refines_apply(sigma, s4, f);
    lemma_refines_apply(sigma, s4, expected);
    lemma_refines_apply(sigma, s4, output);
    lemma_refines_apply(sigma, s4, apply(s4, output));
    lemma_resolved_type(s4, output);
    let input = apply(sigma, a);
    let result = apply(s4, output);
    assert(infer_expr(s, expr, env).1->Ok_0 == result);
    assert(apply(sigma, result) == apply(sigma, output));
    assert(apply(sigma, f) == Type::Function(Box::new(input), Box::new(apply(sigma, result))));
    Derivation::Call { input, function: Box::new(df), argument: Box::new(da) }
}


/// No variable that `let` quantifies is free in the context under `sigma`.
proof fn lemma_let_side_condition(
    sigma: Substitution,
    s1: Substitution,
    s2: Substitution,
    env: Seq<Binding>,
    q: Seq<TypeVar>,
    all: Set<TypeVar>,
)
    requires
        forall|i: int, v: TypeVar| #[trigger] mentions(env, i, v) ==> avoids(apply(s1, Type::Var(v)), members(q)),
        adds_none(s1, s2, members(q)),
        adds_none(s2, sigma, all),
        members(q).subset_of(all),
        protected(env).subset_of(all),
    ensures
        forall|w: TypeVar| #[trigger] q.contains(w) ==> !free_in(context_under(sigma, env), w),
{
    assert forall|w: TypeVar| #[trigger] q.contains(w) implies !free_in(context_under(sigma, env), w) by {
        if free_in(context_under(sigma, env), w) {
            let i = choose|i: int| #[trigger] mentions(context_under(sigma, env), i, w);
            lemma_mentions_under(sigma, env, i, w);
            let u = lemma_occurs_source(sigma, env[i].2, w);
            assert(members(q).contains(w));
            if env[i].1.contains(u) {
                assert(quantified_in(env, u));
                assert(protected(env).contains(u));
                assert(all.contains(u));
                assert(apply(sigma, Type::Var(u)) == Type::Var(u));
            } else {
                assert(mentions(env, i, u));
                assert(avoids(apply(s1, Type::Var(u)), members(q)));
                assert(all.contains(w));
                assert(occurs(w, apply(s2, Type::Var(u))));
                assert(occurs(w, apply(s1, Type::Var(u))));
            }
        }
    }
}

#[verifier::spinoff_prover]
proof fn lemma_sound_let(s: Substitution, expr: Expr, env: Seq<Binding>, sigma: Substitution) -> (d: Derivation)
    requires
        inv(s, env),
        fits(s, expr, env),
        expr.kind is Let,
        infer_expr(s, expr, env).1 is Ok,
        good(sigma, s, expr, env),
    ensures
        derives(context_under(sigma, env), expr, apply(sigma, infer_expr(s, expr, env).1->Ok_0), d),
    decreases expr, 0nat,
{
    let name = expr.kind->Let_name;
    let value = expr.kind->Let_value;
    let body = expr.kind->Let_body;
    let p = protected(env);
    let (s1, r) = infer_expr(s, *value, env);
    let t = r->Ok_0;
    let q = generalizable(s1, t, env, s1.len());
    let ty = apply(s1, t);
    let inner = env.push((name@, q, ty));
    lemma_infer_grows(s1, *body, inner);
    let s2 = infer_expr(s1, *body, inner).0;
    let rv = retired(s, *value, env);
    let rb = retired(s1, *body, inner);
    assert(retired(s, expr, env) == rv + (members(q) + rb));
    let all = (rv + (members(q) + rb)) + p;
    // The value, and the binding it makes.
    lemma_step(s, *value, env, Set::empty());
    lemma_retired(s, *value, env);
    lemma_generalized(s1, t, env, rv);
    lemma_resolved_type(s1, t);
    lemma_keeps_self(s1);
    lemma_adds_none_self(s1, rv);
    lemma_adds_none_self(s1, p);
    assert forall|v: TypeVar| occurs(v, ty) && !q.contains(v) implies #[trigger] apply(s1, Type::Var(v)) == Type::Var(v) by {
        lemma_apply_resolved(s1, t);
    }
    lemma_retired_guards(s, s1, env, rv);
    lemma_push_binding(s1, s1, env, name@, q, ty, rv);
    // The body.
    lemma_step(s1, *body, inner, rv);
    lemma_protected_push(env, (name@, q, ty));
    assert(protected(inner) == p + members(q));
    lemma_adds_none_subset(s1, s2, protected(inner), p);
    lemma_adds_none_subset(s1, s2, protected(inner), members(q));
    lemma_adds_none_union(s1, s2, rv, p);
    assert(adds_none(s2, sigma, all));
    assert((rb + protected(inner)).subset_of(all));
    lemma_adds_none_subset(s2, sigma, all, rb + protected(inner));
    assert(good(sigma, s1, *body, inner));
    assert((rv + p).subset_of(all));
    lemma_adds_none_subset(s2, sigma, all, rv + p);
    lemma_good_earlier(sigma, s1, s2, rv + p);
    assert(good(sigma, s, *value, env));
    let dv = law_inference_sound_in_context(s, *value, env, sigma);
    let db = law_inference_sound_in_context(s1, *body, inner, sigma);
    lemma_refines_apply(sigma, s1, t);
    lemma_context_under_push(sigma, env, (name@, q, ty));
    lemma_let_side_condition(sigma, s1, s2, env, q, all);
    Derivation::Bind {
        quantified: q,
        value_type: apply(sigma, t),
        value: Box::new(dv),
        body: Box::new(db),
    }
}

/// Inference is sound: where it gives an expression a type in the empty
/// environment, the typing rules (`has_type`) give the expression that type.
/// (`inference_fits` is the precondition of `infer`: the type variables it
/// makes fit in `TypeVar`.)
pub proof fn law_inference_is_sound(expr: Expr)
    requires
        inference_fits(expr),
    ensures
        infer_spec(expr) matches Ok(ty) ==> has_type(seq![], expr, ty),
{
    let s = Seq::<Option<Type>>::empty();
    let env = Seq::<Binding>::empty();
    assert(protected(env) =~= Set::<TypeVar>::empty());
    assert(inv(s, env));
    let (s1, r) = infer_expr(s, expr, env);
    if r is Ok {
        lemma_frame(s, expr, env, Set::empty());
        lemma_retired(s, expr, env);
        let all = retired(s, expr, env) + protected(env);
        lemma_refines_self(s1);
        lemma_adds_none_self(s1, all);
        let d = law_inference_sound_in_context(s, expr, env, s1);
        assert(context_under(s1, env) =~= seq![]);
        assert(derives(seq![], expr, apply(s1, r->Ok_0), d));
    }
}


/// `t` with each variable `q[k]` replaced by `instance[k]` and every other
/// variable by what `sigma` makes of it, all at once.
pub open spec fn inst_apply(sigma: Substitution, t: Type, q: Seq<TypeVar>, instance: Seq<Type>) -> Type
    decreases t,
{
    match t {
        Type::Var(v) => match position(q, v) {
            Some(k) => instance[k as int],
            None => apply(sigma, t),
        },
        Type::Function(a, b) => Type::Function(
            Box::new(inst_apply(sigma, *a, q, instance)),
            Box::new(inst_apply(sigma, *b, q, instance)),
        ),
        _ => t,
    }
}

/// Under `sigma`, the inference's binding `b` is at least as general as the
/// context's binding `c`: the same name, and every instance of `c`'s scheme is
/// an instance of `b`'s, with `sigma` applied to what `b` does not quantify.
pub open spec fn covers(sigma: Substitution, b: Binding, c: Binding) -> bool {
    &&& b.0 == c.0
    &&& forall|chosen: Seq<Type>|
        #![trigger instantiate(c.2, c.1, chosen)]
        chosen.len() == c.1.len() ==> exists|instance: Seq<Type>|
            #![trigger inst_apply(sigma, b.2, b.1, instance)]
            instance.len() == b.1.len() && inst_apply(sigma, b.2, b.1, instance) == instantiate(
                c.2,
                c.1,
                chosen,
            )
}

/// Under `sigma`, the inference's environment covers the context binding by binding.
pub open spec fn relates(sigma: Substitution, env: Seq<Binding>, context: Seq<Binding>) -> bool {
    &&& env.len() == context.len()
    &&& forall|i: int| 0 <= i < env.len() ==> #[trigger] covers(sigma, env[i], context[i])
}

/// `a` and `b` make the same of every variable below `n`.
pub open spec fn agrees(a: Substitution, b: Substitution, n: nat) -> bool {
    forall|v: TypeVar| v < n ==> #[trigger] apply(a, Type::Var(v)) == apply(b, Type::Var(v))
}

/// `sigma` with the variables `n + k` bound to `instance[k]`.
pub open spec fn assign(sigma: Substitution, n: nat, instance: Seq<Type>) -> Substitution {
    let len = if sigma.len() > n + instance.len() {
        sigma.len()
    } else {
        n + instance.len()
    };
    Seq::new(
        len,
        |v: int|
            if n <= v < n + instance.len() {
                Some(instance[v - n])
            } else if v < sigma.len() {
                sigma[v]
            } else {
                None
            },
    )
}

proof fn lemma_assign(sigma: Substitution, n: nat, instance: Seq<Type>)
    requires
        n + instance.len() <= TypeVar::MAX + 1,
    ensures
        agrees(assign(sigma, n, instance), sigma, n),
        forall|k: int| 0 <= k < instance.len() ==> #[trigger] apply(
            assign(sigma, n, instance),
            Type::Var((n + k) as TypeVar),
        ) == instance[k],
{
    let a = assign(sigma, n, instance);
    assert forall|v: TypeVar| v < n implies #[trigger] apply(a, Type::Var(v)) == apply(sigma, Type::Var(v)) by {
        if v < sigma.len() {
            assert(a[v as int] == sigma[v as int]);
        }
    }
    assert forall|k: int| 0 <= k < instance.len() implies #[trigger] apply(a, Type::Var((n + k) as TypeVar))
        == instance[k] by {
        let u = (n + k) as TypeVar;
        assert(u == n + k);
        assert(a[u as int] == Some(instance[k]));
    }
}

proof fn lemma_agree_apply(a: Substitution, b: Substitution, n: nat, t: Type)
    requires
        agrees(a, b, n),
        scoped(n, t),
    ensures
        apply(a, t) == apply(b, t),
    decreases t,
{
    match t {
        Type::Var(v) => {
            assert(occurs(v, t));
        },
        Type::Function(x, y) => {
            assert forall|v: TypeVar| #[trigger] occurs(v, *x) implies v < n by {
                assert(occurs(v, t));
            }
            assert forall|v: TypeVar| #[trigger] occurs(v, *y) implies v < n by {
                assert(occurs(v, t));
            }
            lemma_agree_apply(a, b, n, *x);
            lemma_agree_apply(a, b, n, *y);
        },
        _ => {},
    }
}

proof fn lemma_agree_inst(a: Substitution, b: Substitution, n: nat, t: Type, q: Seq<TypeVar>, instance: Seq<Type>)
    requires
        agrees(a, b, n),
        scoped(n, t),
    ensures
        inst_apply(a, t, q, instance) == inst_apply(b, t, q, instance),
    decreases t,
{
    match t {
        Type::Var(v) => {
            assert(occurs(v, t));
        },
        Type::Function(x, y) => {
            assert forall|v: TypeVar| #[trigger] occurs(v, *x) implies v < n by {
                assert(occurs(v, t));
            }
            assert forall|v: TypeVar| #[trigger] occurs(v, *y) implies v < n by {
                assert(occurs(v, t));
            }
            lemma_agree_inst(a, b, n, *x, q, instance);
            lemma_agree_inst(a, b, n, *y, q, instance);
        },
        _ => {},
    }
}

proof fn lemma_agrees_trans(a: Substitution, b: Substitution, c: Substitution, n: nat, m: nat)
    requires
        agrees(a, b, n),
        agrees(b, c, m),
        m <= n,
    ensures
        agrees(a, c, m),
{
    assert forall|v: TypeVar| v < m implies #[trigger] apply(a, Type::Var(v)) == apply(c, Type::Var(v)) by {
        assert(apply(a, Type::Var(v)) == apply(b, Type::Var(v)));
    }
}

proof fn lemma_agrees_self(a: Substitution, n: nat)
    ensures
        agrees(a, a, n),
{
}

/// An instance of `s` stays one under any substitution that agrees with it on
/// the variables `s` has made.
proof fn lemma_refines_agree(a: Substitution, b: Substitution, s: Substitution)
    requires
        wf(s),
        refines(b, s),
        agrees(a, b, s.len()),
    ensures
        refines(a, s),
{
    assert forall|v: TypeVar| bound(s, v) implies #[trigger] apply(a, s[v as int]->Some_0) == apply(a, Type::Var(v)) by {
        let t = s[v as int]->Some_0;
        assert(s[v as int] is Some);
        assert(resolved(s, t));
        lemma_resolved_scoped(s, t);
        lemma_agree_apply(a, b, s.len(), t);
        assert(apply(b, t) == apply(b, Type::Var(v)));
    }
}

/// An instance of `s` is one of `s` with unbound variables added.
proof fn lemma_refines_grow(sigma: Substitution, s: Substitution, s1: Substitution)
    requires
        refines(sigma, s),
        s1.len() >= s.len(),
        forall|v: TypeVar| #[trigger] bound(s1, v) == bound(s, v),
        forall|i: int| 0 <= i < s.len() ==> s1[i] == s[i],
    ensures
        refines(sigma, s1),
{
    assert forall|v: TypeVar| bound(s1, v) implies #[trigger] apply(sigma, s1[v as int]->Some_0) == apply(sigma, Type::Var(v)) by {
        assert(bound(s, v));
        assert(s1[v as int] == s[v as int]);
    }
}

proof fn lemma_relates_agree(a: Substitution, b: Substitution, n: nat, env: Seq<Binding>, context: Seq<Binding>)
    requires
        relates(b, env, context),
        agrees(a, b, n),
        within(env, n),
    ensures
        relates(a, env, context),
{
    assert forall|i: int| 0 <= i < env.len() implies #[trigger] covers(a, env[i], context[i]) by {
        assert(covers(b, env[i], context[i]));
        let c = context[i];
        let e = env[i];
        assert forall|chosen: Seq<Type>| #![trigger instantiate(c.2, c.1, chosen)]
            chosen.len() == c.1.len() implies exists|instance: Seq<Type>|
                #![trigger inst_apply(a, e.2, e.1, instance)]
                instance.len() == e.1.len() && inst_apply(a, e.2, e.1, instance) == instantiate(
                    c.2,
                    c.1,
                    chosen,
                ) by {
            let instance = choose|instance: Seq<Type>|
                #![trigger inst_apply(b, e.2, e.1, instance)]
                instance.len() == e.1.len() && inst_apply(b, e.2, e.1, instance) == instantiate(c.2, c.1, chosen);
            assert(scoped(n, e.2));
            lemma_agree_inst(a, b, n, e.2, e.1, instance);
            assert(inst_apply(a, e.2, e.1, instance) == instantiate(c.2, c.1, chosen));
        }
    }
}


/// `env` and `context` bind the same names in the same order.
proof fn lemma_relates_names(sigma: Substitution, env: Seq<Binding>, context: Seq<Binding>)
    requires
        relates(sigma, env, context),
    ensures
        forall|i: int| 0 <= i < env.len() ==> (#[trigger] env[i]).0 == context[i].0,
{
    assert forall|i: int| 0 <= i < env.len() implies (#[trigger] env[i]).0 == context[i].0 by {
        assert(covers(sigma, env[i], context[i]));
    }
}

/// Environments with the same names find a name at the same position.
proof fn lemma_lookup_related(env: Seq<Binding>, context: Seq<Binding>, name: Seq<char>) -> (i: int)
    requires
        env.len() == context.len(),
        forall|j: int| 0 <= j < env.len() ==> (#[trigger] env[j]).0 == context[j].0,
    ensures
        lookup_scheme(env, name) is Some <==> lookup_scheme(context, name) is Some,
        lookup_scheme(env, name) is Some ==> {
            &&& 0 <= i < env.len()
            &&& lookup_scheme(env, name) == Some((env[i].1, env[i].2))
            &&& lookup_scheme(context, name) == Some((context[i].1, context[i].2))
        },
    decreases env.len(),
{
    if env.len() == 0 {
        0
    } else {
        let last = env.len() - 1;
        assert(env[last].0 == context[last].0);
        if env.last().0 == name {
            last
        } else {
            let e = env.drop_last();
            let c = context.drop_last();
            assert forall|j: int| 0 <= j < e.len() implies (#[trigger] e[j]).0 == c[j].0 by {
                assert(env[j].0 == context[j].0);
            }
            let i = lemma_lookup_related(e, c, name);
            if lookup_scheme(e, name) is Some {
                assert(e[i] == env[i]);
                assert(c[i] == context[i]);
            }
            i
        }
    }
}

/// Environments with the same names hide the same bindings.
proof fn lemma_shadowed_related(env: Seq<Binding>, context: Seq<Binding>, i: int)
    requires
        env.len() == context.len(),
        forall|j: int| 0 <= j < env.len() ==> (#[trigger] env[j]).0 == context[j].0,
        0 <= i < env.len(),
    ensures
        shadowed(env, i) == shadowed(context, i),
{
    assert(env[i].0 == context[i].0);
    if shadowed(env, i) {
        let j = choose|j: int| i < j < env.len() && #[trigger] env[j].0 == env[i].0;
        assert(env[j].0 == context[j].0);
        assert(context[j].0 == context[i].0);
    }
    if shadowed(context, i) {
        let j = choose|j: int| i < j < context.len() && #[trigger] context[j].0 == context[i].0;
        assert(env[j].0 == context[j].0);
        assert(env[j].0 == env[i].0);
    }
}

proof fn lemma_relates_push(sigma: Substitution, env: Seq<Binding>, context: Seq<Binding>, b: Binding, c: Binding)
    requires
        relates(sigma, env, context),
        covers(sigma, b, c),
    ensures
        relates(sigma, env.push(b), context.push(c)),
{
    assert forall|i: int| 0 <= i < env.push(b).len() implies #[trigger] covers(sigma, env.push(b)[i], context.push(c)[i]) by {
        if i < env.len() {
            assert(env.push(b)[i] == env[i]);
            assert(context.push(c)[i] == context[i]);
        }
    }
}

/// With nothing quantified, `inst_apply` is `apply`.
proof fn lemma_inst_apply_plain(sigma: Substitution, t: Type, instance: Seq<Type>)
    ensures
        inst_apply(sigma, t, seq![], instance) == apply(sigma, t),
    decreases t,
{
    match t {
        Type::Var(v) => {
            assert(position(Seq::<TypeVar>::empty(), v) is None);
        },
        Type::Function(a, b) => {
            lemma_inst_apply_plain(sigma, *a, instance);
            lemma_inst_apply_plain(sigma, *b, instance);
        },
        _ => {},
    }
}

/// A binding that quantifies nothing covers the one of what `sigma` makes of its type.
proof fn lemma_covers_plain(sigma: Substitution, name: Seq<char>, t: Type, ct: Type)
    requires
        apply(sigma, t) == ct,
    ensures
        covers(sigma, (name, seq![], t), (name, seq![], ct)),
{
    let b: Binding = (name, seq![], t);
    let c: Binding = (name, seq![], ct);
    assert forall|chosen: Seq<Type>|
        #![trigger instantiate(c.2, c.1, chosen)]
        chosen.len() == c.1.len() implies exists|instance: Seq<Type>|
            #![trigger inst_apply(sigma, b.2, b.1, instance)]
            instance.len() == b.1.len() && inst_apply(sigma, b.2, b.1, instance) == instantiate(
                c.2,
                c.1,
                chosen,
            ) by {
        let none = Seq::<Type>::empty();
        lemma_inst_apply_plain(sigma, t, none);
        assert forall|w: TypeVar| members(c.1).contains(w) implies !#[trigger] occurs(w, ct) by {
            assert(!c.1.contains(w));
        }
        lemma_instantiate_absent(ct, c.1, chosen);
        assert(inst_apply(sigma, b.2, b.1, none) == instantiate(c.2, c.1, chosen));
    }
}

/// What `sigma` makes of an unquantified variable of a type occurs in any
/// instance of the type.
proof fn lemma_inst_occurs(sigma: Substitution, t: Type, q: Seq<TypeVar>, instance: Seq<Type>, v: TypeVar, w: TypeVar)
    requires
        occurs(v, t),
        !q.contains(v),
        occurs(w, apply(sigma, Type::Var(v))),
    ensures
        occurs(w, inst_apply(sigma, t, q, instance)),
    decreases t,
{
    match t {
        Type::Var(u) => {
            lemma_position_facts(q, v);
        },
        Type::Function(a, b) => {
            if occurs(v, *a) {
                lemma_inst_occurs(sigma, *a, q, instance, v, w);
            } else {
                lemma_inst_occurs(sigma, *b, q, instance, v, w);
            }
        },
        _ => {},
    }
}

/// A variable of a type instantiated with `int` everywhere is one the type
/// does not quantify.
proof fn lemma_ground_occurs(t: Type, q: Seq<TypeVar>, chosen: Seq<Type>, w: TypeVar)
    requires
        chosen.len() == q.len(),
        forall|k: int| 0 <= k < chosen.len() ==> #[trigger] chosen[k] == Type::Int,
        occurs(w, instantiate(t, q, chosen)),
    ensures
        occurs(w, t),
        !q.contains(w),
    decreases t,
{
    match t {
        Type::Var(v) => {
            lemma_position_facts(q, v);
            if let Some(k) = position(q, v) {
                assert(chosen[k as int] == Type::Int);
            }
        },
        Type::Function(a, b) => {
            if occurs(w, instantiate(*a, q, chosen)) {
                lemma_ground_occurs(*a, q, chosen, w);
            } else {
                lemma_ground_occurs(*b, q, chosen, w);
            }
        },
        _ => {},
    }
}

/// Where `b` covers `c`, a variable of what `sigma` makes of an unquantified
/// variable of `b` is an unquantified variable of `c`.
proof fn lemma_cover_free(sigma: Substitution, b: Binding, c: Binding, u: TypeVar, w: TypeVar)
    requires
        covers(sigma, b, c),
        occurs(u, b.2),
        !b.1.contains(u),
        occurs(w, apply(sigma, Type::Var(u))),
    ensures
        occurs(w, c.2),
        !c.1.contains(w),
{
    let chosen = Seq::new(c.1.len(), |k: int| Type::Int);
    let target = instantiate(c.2, c.1, chosen);
    assert(chosen.len() == c.1.len());
    let instance = choose|instance: Seq<Type>|
        #![trigger inst_apply(sigma, b.2, b.1, instance)]
        instance.len() == b.1.len() && inst_apply(sigma, b.2, b.1, instance) == target;
    lemma_inst_occurs(sigma, b.2, b.1, instance, u, w);
    lemma_ground_occurs(c.2, c.1, chosen, w);
}

/// Instantiating what `sigma` makes of a type, where what it makes of each
/// unquantified variable avoids `q2`, is `inst_apply` with the instances of
/// what `sigma` makes of the quantified variables.
proof fn lemma_inst_let(
    sigma: Substitution,
    t: Type,
    q: Seq<TypeVar>,
    q2: Seq<TypeVar>,
    chosen: Seq<Type>,
    instance: Seq<Type>,
)
    requires
        instance.len() == q.len(),
        forall|k: int| 0 <= k < q.len() ==> #[trigger] instance[k] == instantiate(apply(sigma, Type::Var(q[k])), q2, chosen),
        forall|v: TypeVar| occurs(v, t) && !q.contains(v) ==> avoids(#[trigger] apply(sigma, Type::Var(v)), members(q2)),
    ensures
        inst_apply(sigma, t, q, instance) == instantiate(apply(sigma, t), q2, chosen),
    decreases t,
{
    match t {
        Type::Var(v) => {
            lemma_position_facts(q, v);
            match position(q, v) {
                Some(k) => {
                    assert(q[k as int] == v);
                    assert(instance[k as int] == instantiate(apply(sigma, Type::Var(q[k as int])), q2, chosen));
                },
                None => {
                    assert(occurs(v, t));
                    lemma_instantiate_absent(apply(sigma, t), q2, chosen);
                },
            }
        },
        Type::Function(a, b) => {
            assert forall|v: TypeVar| occurs(v, *a) && !q.contains(v) implies avoids(#[trigger] apply(sigma, Type::Var(v)), members(q2)) by {
                assert(occurs(v, t));
            }
            assert forall|v: TypeVar| occurs(v, *b) && !q.contains(v) implies avoids(#[trigger] apply(sigma, Type::Var(v)), members(q2)) by {
                assert(occurs(v, t));
            }
            lemma_inst_let(sigma, *a, q, q2, chosen, instance);
            lemma_inst_let(sigma, *b, q, q2, chosen, instance);
        },
        _ => {},
    }
}

/// A binding whose unquantified variables `sigma` makes into types avoiding
/// `q2` covers the binding of what `sigma` makes of its type quantifying `q2`.
proof fn lemma_covers_let(sigma: Substitution, name: Seq<char>, q: Seq<TypeVar>, t: Type, q2: Seq<TypeVar>, ct: Type)
    requires
        apply(sigma, t) == ct,
        forall|v: TypeVar| occurs(v, t) && !q.contains(v) ==> avoids(#[trigger] apply(sigma, Type::Var(v)), members(q2)),
    ensures
        covers(sigma, (name, q, t), (name, q2, ct)),
{
    let b: Binding = (name, q, t);
    let c: Binding = (name, q2, ct);
    assert forall|chosen: Seq<Type>|
        #![trigger instantiate(c.2, c.1, chosen)]
        chosen.len() == c.1.len() implies exists|instance: Seq<Type>|
            #![trigger inst_apply(sigma, b.2, b.1, instance)]
            instance.len() == b.1.len() && inst_apply(sigma, b.2, b.1, instance) == instantiate(
                c.2,
                c.1,
                chosen,
            ) by {
        let instance = Seq::new(q.len(), |k: int| instantiate(apply(sigma, Type::Var(q[k])), q2, chosen));
        lemma_inst_let(sigma, t, q, q2, chosen, instance);
        assert(inst_apply(sigma, b.2, b.1, instance) == instantiate(c.2, c.1, chosen));
    }
}

/// Renaming the quantified variables of a type to fresh ones that `sigma1`
/// makes into `instance`, where `sigma1` agrees with `sigma` on the made
/// variables, is `inst_apply` under `sigma`.
proof fn lemma_rename_inst(sigma1: Substitution, sigma: Substitution, t: Type, q: Seq<TypeVar>, n: nat, instance: Seq<Type>)
    requires
        scoped(n, t),
        n + q.len() <= TypeVar::MAX + 1,
        instance.len() == q.len(),
        agrees(sigma1, sigma, n),
        forall|k: int| 0 <= k < instance.len() ==> #[trigger] apply(sigma1, Type::Var((n + k) as TypeVar)) == instance[k],
    ensures
        apply(sigma1, rename(t, q, n)) == inst_apply(sigma, t, q, instance),
    decreases t,
{
    match t {
        Type::Var(v) => {
            lemma_position_facts(q, v);
            assert(occurs(v, t));
            if let Some(k) = position(q, v) {
                let j = k as int;
                assert(apply(sigma1, Type::Var((n + j) as TypeVar)) == instance[j]);
            }
        },
        Type::Function(a, b) => {
            assert forall|v: TypeVar| #[trigger] occurs(v, *a) implies v < n by {
                assert(occurs(v, t));
            }
            assert forall|v: TypeVar| #[trigger] occurs(v, *b) implies v < n by {
                assert(occurs(v, t));
            }
            lemma_rename_inst(sigma1, sigma, *a, q, n, instance);
            lemma_rename_inst(sigma1, sigma, *b, q, n, instance);
        },
        _ => {},
    }
}

/// A made variable of the type that the environment does not mention is
/// one that `let` generalizes.
proof fn lemma_generalizable_has(s: Substitution, ty: Type, env: Seq<Binding>, n: nat, v: TypeVar)
    requires
        v < n,
        n <= TypeVar::MAX + 1,
        occurs(v, apply(s, ty)),
        !env_var(s, env, v),
    ensures
        generalizable(s, ty, env, n).contains(v),
    decreases n,
{
    let prev = generalizable(s, ty, env, (n - 1) as nat);
    let u = (n - 1) as TypeVar;
    let step = if occurs(u, apply(s, ty)) && !env_var(s, env, u) {
        seq![u]
    } else {
        seq![]
    };
    assert(generalizable(s, ty, env, n) == prev + step);
    if v == u {
        assert((prev + step)[prev.len() as int] == v);
    } else {
        lemma_generalizable_has(s, ty, env, (n - 1) as nat, v);
        let j = choose|j: int| 0 <= j < prev.len() && prev[j] == v;
        assert((prev + step)[j] == v);
    }
}

/// What `sigma` makes of a variable that `let` does not generalize avoids the
/// variables that a derivation quantifies: those are free in no visible
/// binding of the context.
proof fn lemma_let_avoids(
    sigma: Substitution,
    s1: Substitution,
    t: Type,
    env: Seq<Binding>,
    context: Seq<Binding>,
    q2: Seq<TypeVar>,
    v: TypeVar,
)
    requires
        inv(s1, env),
        s1.len() <= TypeVar::MAX,
        scoped(s1.len(), t),
        refines(sigma, s1),
        relates(sigma, env, context),
        forall|w: TypeVar| #[trigger] q2.contains(w) ==> !free_in(context, w),
        occurs(v, apply(s1, t)),
        !generalizable(s1, t, env, s1.len()).contains(v),
    ensures
        avoids(apply(sigma, Type::Var(v)), members(q2)),
{
    lemma_apply_resolved(s1, t);
    assert(v < s1.len());
    if !env_var(s1, env, v) {
        lemma_generalizable_has(s1, t, env, s1.len(), v);
    }
    let i = choose|i: int|
        0 <= i < env.len() && !shadowed(env, i) && occurs(v, apply(s1, #[trigger] env[i].2))
            && !env[i].1.contains(v);
    lemma_relates_names(sigma, env, context);
    assert forall|w: TypeVar| members(q2).contains(w) implies !#[trigger] occurs(w, apply(sigma, Type::Var(v))) by {
        if occurs(w, apply(sigma, Type::Var(v))) {
            let u = lemma_occurs_source(s1, env[i].2, v);
            if env[i].1.contains(u) {
                assert(quantified_in(env, u));
                assert(protected(env).contains(u));
                assert(apply(s1, Type::Var(u)) == Type::Var(u));
            }
            lemma_occurs_apply(sigma, v, apply(s1, Type::Var(u)), w);
            lemma_refines_apply(sigma, s1, Type::Var(u));
            assert(covers(sigma, env[i], context[i]));
            lemma_cover_free(sigma, env[i], context[i], u, w);
            lemma_shadowed_related(env, context, i);
            assert(mentions(context, i, w));
            assert(q2.contains(w));
        }
    }
}

/// Inference succeeds, and `sigma1`, an instance of the substitution it
/// reaches that agrees with `sigma` on the first `n` variables, makes `ty` of
/// the type it gives.
pub open spec fn reaches(result: Inferred, sigma1: Substitution, sigma: Substitution, n: nat, ty: Type) -> bool {
    &&& result.1 is Ok
    &&& refines(sigma1, result.0)
    &&& agrees(sigma1, sigma, n)
    &&& apply(sigma1, result.1->Ok_0) == ty
}

/// An instance of `s` that agrees with `sigma` on what `s` has made is one of
/// `s` with unbound variables added.
proof fn lemma_refines_extended(sigma1: Substitution, sigma: Substitution, s: Substitution, k: nat)
    requires
        wf(s),
        refines(sigma, s),
        agrees(sigma1, sigma, s.len()),
    ensures
        refines(sigma1, extend(s, k)),
{
    lemma_extend(s, k);
    lemma_refines_agree(sigma1, sigma, s);
    let s1 = extend(s, k);
    assert forall|i: int| 0 <= i < s.len() implies s1[i] == s[i] by {}
    lemma_refines_grow(sigma1, s, s1);
}

/// Inference is complete in any state it works in, and what it gives is most
/// general: where `sigma`, an instance of `s`, makes of the environment
/// bindings at least as general as those of `context` (`relates`), and the
/// typing rules give `expr` the type `ty` in `context`, inference succeeds and
/// an instance of the substitution it reaches, agreeing with `sigma` on the
/// variables made before, makes `ty` of the type it gives.
pub proof fn law_inference_complete_in_context(
    s: Substitution,
    expr: Expr,
    env: Seq<Binding>,
    sigma: Substitution,
    context: Seq<Binding>,
    ty: Type,
    d: Derivation,
) -> (sigma1: Substitution)
    requires
        inv(s, env),
        fits(s, expr, env),
        refines(sigma, s),
        relates(sigma, env, context),
        derives(context, expr, ty, d),
    ensures
        reaches(infer_expr(s, expr, env), sigma1, sigma, s.len(), ty),
    decreases expr, 1nat,
{
    match expr.kind {
        ExprKind::Var(..) => lemma_complete_var(s, expr, env, sigma, context, ty, d),
        ExprKind::Negate(..) => lemma_complete_negate(s, expr, env, sigma, context, ty, d),
        ExprKind::Binary { .. } => lemma_complete_binary(s, expr, env, sigma, context, ty, d),
        ExprKind::If { .. } => lemma_complete_if(s, expr, env, sigma, context, ty, d),
        ExprKind::Fun { .. } => lemma_complete_fun(s, expr, env, sigma, context, ty, d),
        ExprKind::Apply { .. } => lemma_complete_apply(s, expr, env, sigma, context, ty, d),
        ExprKind::Let { .. } => lemma_complete_let(s, expr, env, sigma, context, ty, d),
        _ => sigma,
    }
}

#[verifier::spinoff_prover]
proof fn lemma_complete_var(
    s: Substitution,
    expr: Expr,
    env: Seq<Binding>,
    sigma: Substitution,
    context: Seq<Binding>,
    ty: Type,
    d: Derivation,
) -> (sigma1: Substitution)
    requires
        inv(s, env),
        fits(s, expr, env),
        refines(sigma, s),
        relates(sigma, env, context),
        derives(context, expr, ty, d),
        expr.kind is Var,
    ensures
        reaches(infer_expr(s, expr, env), sigma1, sigma, s.len(), ty),
{
    let name = expr.kind->Var_0;
    lemma_relates_names(sigma, env, context);
    let i = lemma_lookup_related(env, context, name@);
    let b = env[i];
    let c = context[i];
    let chosen = d->Leaf_instance;
    let n = s.len();
    assert(covers(sigma, b, c));
    assert(ty == instantiate(c.2, c.1, chosen));
    let instance = choose|instance: Seq<Type>|
        #![trigger inst_apply(sigma, b.2, b.1, instance)]
        instance.len() == b.1.len() && inst_apply(sigma, b.2, b.1, instance) == instantiate(c.2, c.1, chosen);
    lemma_extend(s, b.1.len());
    let sigma1 = assign(sigma, n, instance);
    lemma_assign(sigma, n, instance);
    assert(scoped(n, b.2));
    lemma_rename_inst(sigma1, sigma, b.2, b.1, n, instance);
    lemma_refines_extended(sigma1, sigma, s, b.1.len());
    sigma1
}

#[verifier::spinoff_prover]
proof fn lemma_complete_negate(
    s: Substitution,
    expr: Expr,
    env: Seq<Binding>,
    sigma: Substitution,
    context: Seq<Binding>,
    ty: Type,
    d: Derivation,
) -> (sigma1: Substitution)
    requires
        inv(s, env),
        fits(s, expr, env),
        refines(sigma, s),
        relates(sigma, env, context),
        derives(context, expr, ty, d),
        expr.kind is Negate,
    ensures
        reaches(infer_expr(s, expr, env), sigma1, sigma, s.len(), ty),
    decreases expr, 0nat,
{
    let inner = expr.kind->Negate_0;
    let di = *d->One_0;
    let (s1, r) = infer_expr(s, *inner, env);
    let t = r->Ok_0;
    lemma_unify_len(s1, t, Type::Int);
    let sigma1 = law_inference_complete_in_context(s, *inner, env, sigma, context, Type::Int, di);
    lemma_step(s, *inner, env, Set::empty());
    law_unifier_is_most_general(s1, t, Type::Int, sigma1);
    sigma1
}

/// After a unification that follows a step of inference, the state still holds.
proof fn lemma_unify_after(s1: Substitution, env: Seq<Binding>, l: Type, r: Type)
    requires
        inv(s1, env),
        scoped(s1.len(), l),
        scoped(s1.len(), r),
        avoids(apply(s1, l), protected(env)),
        avoids(apply(s1, r), protected(env)),
        unify(s1, l, r) is Ok,
    ensures
        inv(unify(s1, l, r)->Ok_0, env),
        keeps(s1, unify(s1, l, r)->Ok_0),
        unify(s1, l, r)->Ok_0.len() == s1.len(),
{
    lemma_unify_frame(s1, l, r, protected(env));
    lemma_inv_later(s1, unify(s1, l, r)->Ok_0, env);
}

#[verifier::spinoff_prover]
proof fn lemma_complete_binary(
    s: Substitution,
    expr: Expr,
    env: Seq<Binding>,
    sigma: Substitution,
    context: Seq<Binding>,
    ty: Type,
    d: Derivation,
) -> (sigma1: Substitution)
    requires
        inv(s, env),
        fits(s, expr, env),
        refines(sigma, s),
        relates(sigma, env, context),
        derives(context, expr, ty, d),
        expr.kind is Binary,
    ensures
        reaches(infer_expr(s, expr, env), sigma1, sigma, s.len(), ty),
    decreases expr, 0nat,
{
    let left = expr.kind->left;
    let right = expr.kind->right;
    let dl = *d->Two_0;
    let dr = *d->Two_1;
    let (s1, r1) = infer_expr(s, *left, env);
    let a = r1->Ok_0;
    lemma_unify_len(s1, a, Type::Int);
    let s2 = unify(s1, a, Type::Int)->Ok_0;
    lemma_infer_grows(s2, *right, env);
    let (s3, r2) = infer_expr(s2, *right, env);
    let b = r2->Ok_0;
    lemma_unify_len(s3, b, Type::Int);
    // The left operand.
    let sl = law_inference_complete_in_context(s, *left, env, sigma, context, Type::Int, dl);
    lemma_step(s, *left, env, Set::empty());
    law_unifier_is_most_general(s1, a, Type::Int, sl);
    lemma_unify_after(s1, env, a, Type::Int);
    // The right operand.
    lemma_relates_agree(sl, sigma, s.len(), env, context);
    let sr = law_inference_complete_in_context(s2, *right, env, sl, context, Type::Int, dr);
    lemma_step(s2, *right, env, Set::empty());
    law_unifier_is_most_general(s3, b, Type::Int, sr);
    lemma_agrees_trans(sr, sl, sigma, s2.len(), s.len());
    sr
}

#[verifier::spinoff_prover]
proof fn lemma_complete_if(
    s: Substitution,
    expr: Expr,
    env: Seq<Binding>,
    sigma: Substitution,
    context: Seq<Binding>,
    ty: Type,
    d: Derivation,
) -> (sigma1: Substitution)
    requires
        inv(s, env),
        fits(s, expr, env),
        refines(sigma, s),
        relates(sigma, env, context),
        derives(context, expr, ty, d),
        expr.kind is If,
    ensures
        reaches(infer_expr(s, expr, env), sigma1, sigma, s.len(), ty),
    decreases expr, 0nat,
{
    let condition = expr.kind->condition;
    let then_branch = expr.kind->then_branch;
    let else_branch = expr.kind->else_branch;
    let dc = *d->Three_0;
    let dt = *d->Three_1;
    let de = *d->Three_2;
    let (s1, r1) = infer_expr(s, *condition, env);
    let c = r1->Ok_0;
    lemma_unify_len(s1, c, Type::Bool);
    let s2 = unify(s1, c, Type::Bool)->Ok_0;
    lemma_infer_grows(s2, *then_branch, env);
    let (s3, r2) = infer_expr(s2, *then_branch, env);
    let a = r2->Ok_0;
    lemma_infer_grows(s3, *else_branch, env);
    let (s4, r3) = infer_expr(s3, *else_branch, env);
    let b = r3->Ok_0;
    lemma_unify_len(s4, a, b);
    // The condition.
    let sc = law_inference_complete_in_context(s, *condition, env, sigma, context, Type::Bool, dc);
    lemma_step(s, *condition, env, Set::empty());
    law_unifier_is_most_general(s1, c, Type::Bool, sc);
    lemma_unify_after(s1, env, c, Type::Bool);
    // The branches.
    lemma_relates_agree(sc, sigma, s.len(), env, context);
    let st = law_inference_complete_in_context(s2, *then_branch, env, sc, context, ty, dt);
    lemma_step(s2, *then_branch, env, Set::empty());
    lemma_relates_agree(st, sc, s2.len(), env, context);
    let se = law_inference_complete_in_context(s3, *else_branch, env, st, context, ty, de);
    lemma_step(s3, *else_branch, env, Set::empty());
    lemma_agree_apply(se, st, s3.len(), a);
    lemma_scoped_mono(s3.len(), s4.len(), a);
    law_unifier_is_most_general(s4, a, b, se);
    let s5 = unify(s4, a, b)->Ok_0;
    lemma_refines_apply(se, s5, a);
    lemma_agrees_trans(se, st, sc, s3.len(), s2.len());
    lemma_agrees_trans(se, sc, sigma, s2.len(), s.len());
    se
}

#[verifier::spinoff_prover]
proof fn lemma_complete_fun(
    s: Substitution,
    expr: Expr,
    env: Seq<Binding>,
    sigma: Substitution,
    context: Seq<Binding>,
    ty: Type,
    d: Derivation,
) -> (sigma1: Substitution)
    requires
        inv(s, env),
        fits(s, expr, env),
        refines(sigma, s),
        relates(sigma, env, context),
        derives(context, expr, ty, d),
        expr.kind is Fun,
    ensures
        reaches(infer_expr(s, expr, env), sigma1, sigma, s.len(), ty),
    decreases expr, 0nat,
{
    let parameter = expr.kind->Fun_parameter;
    let body = expr.kind->Fun_body;
    let input = *ty->Function_0;
    let output = *ty->Function_1;
    let db = *d->One_0;
    let (s1, alpha) = fresh(s);
    let inner = env.push((parameter@, seq![], alpha));
    let cinner = context.push((parameter@, seq![], input));
    lemma_infer_grows(s1, *body, inner);
    let s2 = infer_expr(s1, *body, inner).0;
    assert(s.len() <= TypeVar::MAX);
    lemma_push_parameter(s, env, parameter@, Set::empty());
    let n = s.len();
    let sigma0 = assign(sigma, n, seq![input]);
    lemma_assign(sigma, n, seq![input]);
    assert(apply(sigma0, Type::Var((n + 0) as TypeVar)) == seq![input][0]);
    lemma_refines_extended(sigma0, sigma, s, 1);
    assert(extend(s, 1) =~= s1);
    lemma_relates_agree(sigma0, sigma, n, env, context);
    lemma_covers_plain(sigma0, parameter@, alpha, input);
    lemma_relates_push(sigma0, env, context, (parameter@, seq![], alpha), (parameter@, seq![], input));
    let sb = law_inference_complete_in_context(s1, *body, inner, sigma0, cinner, output, db);
    lemma_refines_apply(sb, s2, alpha);
    assert(apply(sb, alpha) == apply(sigma0, alpha));
    lemma_agrees_trans(sb, sigma0, sigma, s1.len(), n);
    sb
}

#[verifier::spinoff_prover]
proof fn lemma_complete_apply(
    s: Substitution,
    expr: Expr,
    env: Seq<Binding>,
    sigma: Substitution,
    context: Seq<Binding>,
    ty: Type,
    d: Derivation,
) -> (sigma1: Substitution)
    requires
        inv(s, env),
        fits(s, expr, env),
        refines(sigma, s),
        relates(sigma, env, context),
        derives(context, expr, ty, d),
        expr.kind is Apply,
    ensures
        reaches(infer_expr(s, expr, env), sigma1, sigma, s.len(), ty),
    decreases expr, 0nat,
{
    let function = expr.kind->function;
    let argument = expr.kind->argument;
    let input = d->Call_input;
    let df = *d->Call_function;
    let da = *d->Call_argument;
    let (s1, r1) = infer_expr(s, *function, env);
    let f = r1->Ok_0;
    lemma_infer_grows(s1, *argument, env);
    let (s2, r2) = infer_expr(s1, *argument, env);
    let a = r2->Ok_0;
    let (s3, output) = fresh(s2);
    let expected = Type::Function(Box::new(a), Box::new(output));
    lemma_unify_len(s3, f, expected);
    // The function, then the argument.
    let sf = law_inference_complete_in_context(
        s,
        *function,
        env,
        sigma,
        context,
        Type::Function(Box::new(input), Box::new(ty)),
        df,
    );
    lemma_step(s, *function, env, Set::empty());
    lemma_relates_agree(sf, sigma, s.len(), env, context);
    let sa = law_inference_complete_in_context(s1, *argument, env, sf, context, input, da);
    lemma_step(s1, *argument, env, Set::empty());
    // The fresh result type, made `ty`.
    let m = s2.len();
    assert(m <= TypeVar::MAX);
    let sigma3 = assign(sa, m, seq![ty]);
    lemma_assign(sa, m, seq![ty]);
    assert(apply(sigma3, Type::Var((m + 0) as TypeVar)) == seq![ty][0]);
    lemma_refines_extended(sigma3, sa, s2, 1);
    assert(extend(s2, 1) =~= s3);
    lemma_fresh(s2);
    lemma_scoped_mono(s1.len(), s3.len(), f);
    lemma_scoped_mono(s1.len(), m, f);
    lemma_scoped_mono(m, s3.len(), a);
    assert(scoped(s3.len(), expected)) by {
        assert forall|v: TypeVar| #[trigger] occurs(v, expected) implies v < s3.len() by {
            if occurs(v, a) {
            } else {
                assert(occurs(v, output));
            }
        }
    }
    lemma_agree_apply(sigma3, sa, m, f);
    lemma_agree_apply(sa, sf, s1.len(), f);
    lemma_agree_apply(sigma3, sa, m, a);
    assert(apply(sigma3, expected) == Type::Function(Box::new(input), Box::new(ty)));
    law_unifier_is_most_general(s3, f, expected, sigma3);
    let s4 = unify(s3, f, expected)->Ok_0;
    lemma_refines_apply(sigma3, s4, output);
    lemma_agrees_trans(sigma3, sa, sf, m, s1.len());
    lemma_agrees_trans(sigma3, sf, sigma, s1.len(), s.len());
    sigma3
}

#[verifier::spinoff_prover]
proof fn lemma_complete_let(
    s: Substitution,
    expr: Expr,
    env: Seq<Binding>,
    sigma: Substitution,
    context: Seq<Binding>,
    ty: Type,
    d: Derivation,
) -> (sigma1: Substitution)
    requires
        inv(s, env),
        fits(s, expr, env),
        refines(sigma, s),
        relates(sigma, env, context),
        derives(context, expr, ty, d),
        expr.kind is Let,
    ensures
        reaches(infer_expr(s, expr, env), sigma1, sigma, s.len(), ty),
    decreases expr, 0nat,
{
    let name = expr.kind->Let_name;
    let value = expr.kind->Let_value;
    let body = expr.kind->Let_body;
    let quantified = d->Bind_quantified;
    let value_type = d->Bind_value_type;
    let dv = *d->Bind_value;
    let db = *d->Bind_body;
    let (s1, r) = infer_expr(s, *value, env);
    let t = r->Ok_0;
    let q = generalizable(s1, t, env, s1.len());
    let tyv = apply(s1, t);
    let inner = env.push((name@, q, tyv));
    let cinner = context.push((name@, quantified, value_type));
    lemma_infer_grows(s1, *body, inner);
    // The value.
    let sv = law_inference_complete_in_context(s, *value, env, sigma, context, value_type, dv);
    lemma_step(s, *value, env, Set::empty());
    // The binding it makes, in the state inference works in.
    lemma_generalized(s1, t, env, Set::empty());
    lemma_resolved_type(s1, t);
    lemma_keeps_self(s1);
    lemma_adds_none_self(s1, Set::empty());
    lemma_adds_none_self(s1, protected(env));
    assert forall|v: TypeVar| occurs(v, tyv) && !q.contains(v) implies #[trigger] apply(s1, Type::Var(v)) == Type::Var(v) by {
        lemma_apply_resolved(s1, t);
    }
    lemma_push_binding(s1, s1, env, name@, q, tyv, Set::empty());
    // It is at least as general as the binding of the derivation.
    lemma_relates_agree(sv, sigma, s.len(), env, context);
    lemma_refines_apply(sv, s1, t);
    assert forall|v: TypeVar| occurs(v, tyv) && !q.contains(v) implies avoids(#[trigger] apply(sv, Type::Var(v)), members(quantified)) by {
        lemma_let_avoids(sv, s1, t, env, context, quantified, v);
    }
    lemma_covers_let(sv, name@, q, tyv, quantified, value_type);
    lemma_relates_push(sv, env, context, (name@, q, tyv), (name@, quantified, value_type));
    // The body.
    let sb = law_inference_complete_in_context(s1, *body, inner, sv, cinner, ty, db);
    lemma_agrees_trans(sb, sv, sigma, s1.len(), s.len());
    sb
}

/// Inference is complete, and the type it gives is principal: whenever the
/// typing rules give `expr` some type `ty` in the empty environment,
/// inference succeeds, and `ty` is an instance of the type it gives.
/// (`inference_fits` is the precondition of `infer`: the type variables it
/// makes fit in `TypeVar`.)
pub proof fn law_inference_is_complete(expr: Expr, ty: Type)
    requires
        inference_fits(expr),
        has_type(seq![], expr, ty),
    ensures
        infer_spec(expr) is Ok,
        exists|sigma: Substitution| apply(sigma, infer_spec(expr)->Ok_0) == ty,
{
    let d = choose|d: Derivation| derives(seq![], expr, ty, d);
    let s = Seq::<Option<Type>>::empty();
    let env = Seq::<Binding>::empty();
    let context = Seq::<Binding>::empty();
    assert(protected(env) =~= Set::<TypeVar>::empty());
    assert(inv(s, env));
    assert(relates(s, env, context));
    let sigma1 = law_inference_complete_in_context(s, expr, env, s, context, ty, d);
    let (s1, r) = infer_expr(s, expr, env);
    lemma_refines_apply(sigma1, s1, r->Ok_0);
    assert(apply(sigma1, infer_spec(expr)->Ok_0) == ty);
}

/// Inference gives the principal type of an expression: it succeeds exactly
/// on the expressions to which the typing rules give some type in the empty
/// environment, the typing rules give the type it finds, and every type they
/// give is an instance of that one.
pub proof fn law_inference_gives_principal_type(expr: Expr)
    requires
        inference_fits(expr),
    ensures
        infer_spec(expr) is Ok <==> exists|ty: Type| has_type(seq![], expr, ty),
        infer_spec(expr) matches Ok(t) ==> {
            &&& has_type(seq![], expr, t)
            &&& forall|ty: Type| #[trigger] has_type(seq![], expr, ty) ==> exists|sigma: Substitution|
                apply(sigma, t) == ty
        },
{
    law_inference_is_sound(expr);
    if exists|ty: Type| has_type(seq![], expr, ty) {
        let ty = choose|ty: Type| has_type(seq![], expr, ty);
        law_inference_is_complete(expr, ty);
    }
    if let Ok(t) = infer_spec(expr) {
        assert forall|ty: Type| #[trigger] has_type(seq![], expr, ty) implies exists|sigma: Substitution|
            apply(sigma, t) == ty by {
            law_inference_is_complete(expr, ty);
        }
    }
}
} // verus!
