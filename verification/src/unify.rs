use vstd::prelude::*;

use crate::{error::ErrorKind, types::{Type, TypeVar}};

verus! {

/// A substitution of types for type variables: entry `v` holds what variable
/// `v` stands for, or `None` while it is unbound. Its length is the number of
/// type variables made so far.
pub type Substitution = Seq<Option<Type>>;

/// The number of constructors in a type.
pub open spec fn size(t: Type) -> nat
    decreases t,
{
    match t {
        Type::Function(a, b) => 1 + size(*a) + size(*b),
        _ => 1,
    }
}

/// Variable `v` occurs in `t`.
pub open spec fn occurs(v: TypeVar, t: Type) -> bool
    decreases t,
{
    match t {
        Type::Var(w) => v == w,
        Type::Function(a, b) => occurs(v, *a) || occurs(v, *b),
        _ => false,
    }
}

/// Variable `v` is bound in `s`.
pub open spec fn bound(s: Substitution, v: TypeVar) -> bool {
    v < s.len() && s[v as int] is Some
}

/// `t` with every bound variable replaced by what it stands for.
pub open spec fn apply(s: Substitution, t: Type) -> Type
    decreases t,
{
    match t {
        Type::Var(v) => if bound(s, v) {
            s[v as int]->Some_0
        } else {
            t
        },
        Type::Function(a, b) => Type::Function(Box::new(apply(s, *a)), Box::new(apply(s, *b))),
        _ => t,
    }
}

/// Every variable of `t` has been made (is below `n`).
pub open spec fn scoped(n: nat, t: Type) -> bool {
    forall|v: TypeVar| #[trigger] occurs(v, t) ==> v < n
}

/// Every variable of `t` has been made and is unbound in `s`.
pub open spec fn resolved(s: Substitution, t: Type) -> bool {
    forall|v: TypeVar| #[trigger] occurs(v, t) ==> v < s.len() && !bound(s, v)
}

/// A well-formed substitution is idempotent: what a variable stands for
/// mentions only unbound variables.
pub open spec fn wf(s: Substitution) -> bool {
    forall|i: int| 0 <= i < s.len() && #[trigger] s[i] is Some ==> resolved(s, s[i]->Some_0)
}

/// `t` with `Var(id)` replaced by `ty`.
pub open spec fn replace_var(t: Type, id: TypeVar, ty: Type) -> Type
    decreases t,
{
    match t {
        Type::Var(v) => if v == id {
            ty
        } else {
            t
        },
        Type::Function(a, b) => Type::Function(
            Box::new(replace_var(*a, id, ty)),
            Box::new(replace_var(*b, id, ty)),
        ),
        _ => t,
    }
}

/// `s` extended by binding `id` to `ty`, with `Var(id)` replaced by `ty` in
/// what the other variables stand for, so that it stays idempotent.
pub open spec fn bind(s: Substitution, id: TypeVar, ty: Type) -> Substitution {
    Seq::new(
        s.len(),
        |i: int|
            if i == id {
                Some(ty)
            } else {
                match s[i] {
                    Some(t) => Some(replace_var(t, id, ty)),
                    None => None,
                }
            },
    )
}

/// The number of unbound variables.
pub open spec fn unbound_count(s: Substitution) -> nat
    decreases s.len(),
{
    if s.len() == 0 {
        0
    } else {
        unbound_count(s.drop_last()) + if s.last() is None {
            1nat
        } else {
            0nat
        }
    }
}

/// Binds `id` to `ty` unless `id` occurs in `ty`, which would need an infinite type.
pub open spec fn bind_checked(s: Substitution, id: TypeVar, ty: Type) -> Result<Substitution, (ErrorKind, Type, Type)> {
    if occurs(id, ty) {
        Err((ErrorKind::InfiniteType, Type::Var(id), ty))
    } else {
        Ok(bind(s, id, ty))
    }
}

/// Unification of `l` and `r` under `s`: both are resolved first; equal types
/// unify as they are; a variable is bound to the other type (the left one
/// first) unless it occurs in it; functions unify input with input, then
/// output with output; anything else is a mismatch. An error carries its
/// kind and the two resolved types that could not be made the same.
///
/// The two size checks only keep the definition well-founded: under a
/// well-formed substitution they always hold (`lemma_unify`).
pub open spec fn unify(s: Substitution, l: Type, r: Type) -> Result<Substitution, (ErrorKind, Type, Type)>
    decreases unbound_count(s), size(apply(s, l)) + size(apply(s, r)),
{
    let left = apply(s, l);
    let right = apply(s, r);
    if left == right {
        Ok(s)
    } else {
        match (left, right) {
            (Type::Var(id), ty) => bind_checked(s, id, ty),
            (ty, Type::Var(id)) => bind_checked(s, id, ty),
            (Type::Function(a, b), Type::Function(c, d)) => {
                if size(apply(s, *a)) + size(apply(s, *c)) < size(left) + size(right) {
                    match unify(s, *a, *c) {
                        Ok(s1) => if unbound_count(s1) < unbound_count(s) || (unbound_count(s1)
                            == unbound_count(s) && size(apply(s1, *b)) + size(apply(s1, *d)) < size(
                            left,
                        ) + size(right)) {
                            unify(s1, *b, *d)
                        } else {
                            Err((ErrorKind::TypeMismatch, left, right))
                        },
                        Err(e) => Err(e),
                    }
                } else {
                    Err((ErrorKind::TypeMismatch, left, right))
                }
            },
            _ => Err((ErrorKind::TypeMismatch, left, right)),
        }
    }
}

pub proof fn lemma_size_positive(t: Type)
    ensures
        size(t) >= 1,
{
}

/// Applying a well-formed substitution to a type of made variables leaves
/// only unbound variables.
pub proof fn lemma_apply_resolved(s: Substitution, t: Type)
    requires
        wf(s),
        scoped(s.len(), t),
    ensures
        resolved(s, apply(s, t)),
    decreases t,
{
    match t {
        Type::Var(v) => {
            assert(occurs(v, t));
            if bound(s, v) {
                assert(s[v as int] is Some);
                assert(resolved(s, s[v as int]->Some_0));
                assert(apply(s, t) == s[v as int]->Some_0);
                assert(resolved(s, apply(s, t)));
            } else {
                assert(apply(s, t) == t);
                assert forall|w: TypeVar| #[trigger] occurs(w, t) implies w < s.len() && !bound(s, w) by {
                    assert(w == v);
                }
                assert(resolved(s, apply(s, t)));
            }
        },
        Type::Function(a, b) => {
            assert forall|v: TypeVar| #[trigger] occurs(v, *a) implies v < s.len() by {
                assert(occurs(v, t));
            }
            assert forall|v: TypeVar| #[trigger] occurs(v, *b) implies v < s.len() by {
                assert(occurs(v, t));
            }
            lemma_apply_resolved(s, *a);
            lemma_apply_resolved(s, *b);
            let applied = apply(s, t);
            assert forall|v: TypeVar| #[trigger] occurs(v, applied) implies v < s.len() && !bound(s, v) by {
                if occurs(v, apply(s, *a)) {
                } else {
                    assert(occurs(v, apply(s, *b)));
                }
            }
        },
        _ => {},
    }
}

/// A type with no bound variables is left as it is.
pub proof fn lemma_apply_unbound(s: Substitution, t: Type)
    requires
        resolved(s, t),
    ensures
        apply(s, t) == t,
    decreases t,
{
    match t {
        Type::Var(v) => {
            assert(occurs(v, t));
        },
        Type::Function(a, b) => {
            assert forall|v: TypeVar| #[trigger] occurs(v, *a) implies v < s.len() && !bound(s, v) by {
                assert(occurs(v, t));
            }
            assert forall|v: TypeVar| #[trigger] occurs(v, *b) implies v < s.len() && !bound(s, v) by {
                assert(occurs(v, t));
            }
            lemma_apply_unbound(s, *a);
            lemma_apply_unbound(s, *b);
        },
        _ => {},
    }
}

pub proof fn lemma_replace_var_occurs(t: Type, id: TypeVar, ty: Type, v: TypeVar)
    ensures
        occurs(v, replace_var(t, id, ty)) ==> (occurs(v, t) && v != id) || occurs(v, ty),
        occurs(v, t) && v != id ==> occurs(v, replace_var(t, id, ty)),
    decreases t,
{
    match t {
        Type::Function(a, b) => {
            lemma_replace_var_occurs(*a, id, ty, v);
            lemma_replace_var_occurs(*b, id, ty, v);
        },
        _ => {},
    }
}

/// Substitutions of equal length, the second binding every variable the
/// first binds: the second has no more unbound variables, and fewer if it
/// binds one that the first leaves unbound.
pub proof fn lemma_unbound_count(s1: Substitution, s2: Substitution, j: int)
    requires
        s1.len() == s2.len(),
        forall|i: int| 0 <= i < s1.len() && #[trigger] s1[i] is Some ==> s2[i] is Some,
    ensures
        unbound_count(s2) <= unbound_count(s1),
        0 <= j < s1.len() && s1[j] is None && s2[j] is Some ==> unbound_count(s2) < unbound_count(s1),
    decreases s1.len(),
{
    if s1.len() > 0 {
        let t1 = s1.drop_last();
        let t2 = s2.drop_last();
        assert forall|i: int| 0 <= i < t1.len() && #[trigger] t1[i] is Some implies t2[i] is Some by {
            assert(s1[i] is Some);
        }
        if s1.last() is Some {
            assert(s1[s1.len() - 1] is Some);
        }
        lemma_unbound_count(t1, t2, j);
    }
}

/// Binding an unbound variable to a resolved type in which it does not occur
/// keeps the substitution well-formed and binds one more variable.
pub proof fn lemma_bind(s: Substitution, id: TypeVar, ty: Type)
    requires
        wf(s),
        id < s.len(),
        !bound(s, id),
        resolved(s, ty),
        !occurs(id, ty),
    ensures
        wf(bind(s, id, ty)),
        bind(s, id, ty).len() == s.len(),
        unbound_count(bind(s, id, ty)) < unbound_count(s),
        forall|v: TypeVar| bound(s, v) ==> #[trigger] bound(bind(s, id, ty), v),
{
    let s2 = bind(s, id, ty);
    assert forall|v: TypeVar| #[trigger] occurs(v, ty) implies v < s2.len() && !bound(s2, v) by {
        assert(!bound(s, v));
    }
    assert forall|i: int| 0 <= i < s2.len() && #[trigger] s2[i] is Some implies resolved(s2, s2[i]->Some_0) by {
        if i != id {
            let t = s[i]->Some_0;
            assert(s[i] is Some);
            assert forall|v: TypeVar| #[trigger] occurs(v, replace_var(t, id, ty)) implies v < s2.len() && !bound(s2, v) by {
                lemma_replace_var_occurs(t, id, ty, v);
                if occurs(v, t) && v != id {
                    assert(!bound(s, v));
                } else {
                    assert(occurs(v, ty));
                }
            }
        }
    }
    assert forall|i: int| 0 <= i < s.len() && #[trigger] s[i] is Some implies s2[i] is Some by {}
    lemma_unbound_count(s, s2, id as int);
}

pub proof fn lemma_resolved_parts(s: Substitution, t: Type)
    requires
        resolved(s, t),
    ensures
        t matches Type::Function(a, b) ==> resolved(s, *a) && resolved(s, *b) && apply(s, *a) == *a
            && apply(s, *b) == *b,
        apply(s, t) == t,
{
    lemma_apply_unbound(s, t);
    if let Type::Function(a, b) = t {
        assert forall|v: TypeVar| #[trigger] occurs(v, *a) implies v < s.len() && !bound(s, v) by {
            assert(occurs(v, t));
        }
        assert forall|v: TypeVar| #[trigger] occurs(v, *b) implies v < s.len() && !bound(s, v) by {
            assert(occurs(v, t));
        }
        lemma_apply_unbound(s, *a);
        lemma_apply_unbound(s, *b);
    }
}

/// What unification keeps: a well-formed substitution of the same length
/// that binds every variable bound before, and is either unchanged or
/// binds more variables.
pub open spec fn unify_keeps(s: Substitution, s1: Substitution) -> bool {
    &&& wf(s1)
    &&& s1.len() == s.len()
    &&& (s1 == s || unbound_count(s1) < unbound_count(s))
    &&& forall|v: TypeVar| bound(s, v) ==> #[trigger] bound(s1, v)
}

/// Under a well-formed substitution and types of made variables,
/// unification keeps the substitution well-formed (and so its guards hold).
pub proof fn lemma_unify(s: Substitution, l: Type, r: Type)
    requires
        wf(s),
        scoped(s.len(), l),
        scoped(s.len(), r),
    ensures
        unify(s, l, r) matches Ok(s1) ==> unify_keeps(s, s1),
    decreases unbound_count(s), size(apply(s, l)) + size(apply(s, r)),
{
    let left = apply(s, l);
    let right = apply(s, r);
    lemma_apply_resolved(s, l);
    lemma_apply_resolved(s, r);
    if left == right {
    } else {
        match (left, right) {
            (Type::Var(id), ty) => {
                assert(occurs(id, left));
                if !occurs(id, ty) {
                    lemma_bind(s, id, ty);
                }
            },
            (ty, Type::Var(id)) => {
                assert(occurs(id, right));
                if !occurs(id, ty) {
                    lemma_bind(s, id, ty);
                }
            },
            (Type::Function(a, b), Type::Function(c, d)) => {
                lemma_resolved_parts(s, left);
                lemma_resolved_parts(s, right);
                lemma_unify(s, *a, *c);
                if let Ok(s1) = unify(s, *a, *c) {
                    assert(scoped(s1.len(), *b));
                    assert(scoped(s1.len(), *d));
                    if s1 == s {
                    } else {
                        lemma_unify(s1, *b, *d);
                    }
                    if s1 == s {
                        lemma_unify(s1, *b, *d);
                    }
                }
            },
            _ => {},
        }
    }
}

/// Unification keeps the number of variables.
pub proof fn lemma_unify_len(s: Substitution, l: Type, r: Type)
    ensures
        unify(s, l, r) matches Ok(s1) ==> s1.len() == s.len(),
    decreases unbound_count(s), size(apply(s, l)) + size(apply(s, r)),
{
    let left = apply(s, l);
    let right = apply(s, r);
    if left != right {
        if let (Type::Function(a, b), Type::Function(c, d)) = (left, right) {
            if size(apply(s, *a)) + size(apply(s, *c)) < size(left) + size(right) {
                lemma_unify_len(s, *a, *c);
                if let Ok(s1) = unify(s, *a, *c) {
                    if unbound_count(s1) < unbound_count(s) || (unbound_count(s1) == unbound_count(s)
                        && size(apply(s1, *b)) + size(apply(s1, *d)) < size(left) + size(right)) {
                        lemma_unify_len(s1, *b, *d);
                    }
                }
            }
        }
    }
}

/// A type of variables below `n` has variables below any larger bound.
pub proof fn lemma_scoped_mono(n: nat, m: nat, t: Type)
    requires
        scoped(n, t),
        n <= m,
    ensures
        scoped(m, t),
{
}

/// A resolved type only has made variables.
pub proof fn lemma_resolved_scoped(s: Substitution, t: Type)
    requires
        resolved(s, t),
    ensures
        scoped(s.len(), t),
{
}

/// Adding an unbound variable keeps a substitution well-formed and what it binds.
pub proof fn lemma_push_unbound(s: Substitution)
    requires
        wf(s),
    ensures
        wf(s.push(None)),
        forall|v: TypeVar| #[trigger] bound(s.push(None), v) == bound(s, v),
        forall|t: Type| apply(s, t) == #[trigger] apply(s.push(None), t),
{
    let s2 = s.push(None);
    assert forall|v: TypeVar| #[trigger] bound(s2, v) == bound(s, v) by {
        if v < s.len() {
            assert(s2[v as int] == s[v as int]);
        }
    }
    assert forall|i: int| 0 <= i < s2.len() && #[trigger] s2[i] is Some implies resolved(s2, s2[i]->Some_0) by {
        assert(s2[i] == s[i]);
        assert(s[i] is Some);
        let t = s[i]->Some_0;
        assert forall|v: TypeVar| #[trigger] occurs(v, t) implies v < s2.len() && !bound(s2, v) by {
            assert(bound(s2, v) == bound(s, v));
        }
    }
    assert forall|t: Type| apply(s, t) == #[trigger] apply(s2, t) by {
        lemma_apply_push(s, t);
    }
}

proof fn lemma_apply_push(s: Substitution, t: Type)
    ensures
        apply(s, t) == apply(s.push(None), t),
    decreases t,
{
    let s2 = s.push(None);
    match t {
        Type::Var(v) => {
            if v < s.len() {
                assert(s2[v as int] == s[v as int]);
            }
        },
        Type::Function(a, b) => {
            lemma_apply_push(s, *a);
            lemma_apply_push(s, *b);
        },
        _ => {},
    }
}


/// `s1` is an instance of `s`: applying `s1` to what `s` binds a variable to
/// gives what `s1` makes of the variable itself.
pub open spec fn refines(s1: Substitution, s: Substitution) -> bool {
    forall|v: TypeVar|
        bound(s, v) ==> #[trigger] apply(s1, s[v as int]->Some_0) == apply(s1, Type::Var(v))
}

proof fn lemma_replace_absent(t: Type, id: TypeVar, ty: Type)
    requires
        !occurs(id, t),
    ensures
        replace_var(t, id, ty) == t,
    decreases t,
{
    if let Type::Function(a, b) = t {
        lemma_replace_absent(*a, id, ty);
        lemma_replace_absent(*b, id, ty);
    }
}

/// Applying `bind(s, id, ty)` is applying `s`, then putting `ty` for `id`.
proof fn lemma_apply_bind(s: Substitution, id: TypeVar, ty: Type, t: Type)
    requires
        id < s.len(),
        !bound(s, id),
    ensures
        apply(bind(s, id, ty), t) == replace_var(apply(s, t), id, ty),
    decreases t,
{
    if let Type::Function(a, b) = t {
        lemma_apply_bind(s, id, ty, *a);
        lemma_apply_bind(s, id, ty, *b);
    }
}

/// An instance of `s` absorbs `s`: applying `s` first changes nothing.
pub proof fn lemma_refines_apply(s1: Substitution, s: Substitution, t: Type)
    requires
        refines(s1, s),
    ensures
        apply(s1, apply(s, t)) == apply(s1, t),
    decreases t,
{
    match t {
        Type::Var(v) => {
            if bound(s, v) {
                assert(apply(s1, s[v as int]->Some_0) == apply(s1, Type::Var(v)));
            }
        },
        Type::Function(a, b) => {
            lemma_refines_apply(s1, s, *a);
            lemma_refines_apply(s1, s, *b);
        },
        _ => {},
    }
}

/// An instance of an instance of `s` is an instance of `s`.
pub proof fn lemma_refines_trans(s2: Substitution, s1: Substitution, s: Substitution)
    requires
        refines(s2, s1),
        refines(s1, s),
    ensures
        refines(s2, s),
{
    assert forall|v: TypeVar| bound(s, v) implies #[trigger] apply(s2, s[v as int]->Some_0) == apply(
        s2,
        Type::Var(v),
    ) by {
        let t = s[v as int]->Some_0;
        assert(apply(s1, t) == apply(s1, Type::Var(v)));
        lemma_refines_apply(s2, s1, t);
        lemma_refines_apply(s2, s1, Type::Var(v));
    }
}

/// A well-formed substitution is an instance of itself.
pub proof fn lemma_refines_self(s: Substitution)
    requires
        wf(s),
    ensures
        refines(s, s),
{
    assert forall|v: TypeVar| bound(s, v) implies #[trigger] apply(s, s[v as int]->Some_0) == apply(
        s,
        Type::Var(v),
    ) by {
        assert(s[v as int] is Some);
        lemma_apply_unbound(s, s[v as int]->Some_0);
    }
}

/// Binding `id` to `ty` gives an instance of `s` that makes `Var(id)` and `ty` equal.
proof fn lemma_bind_unifies(s: Substitution, id: TypeVar, ty: Type)
    requires
        wf(s),
        id < s.len(),
        !bound(s, id),
        resolved(s, ty),
        !occurs(id, ty),
    ensures
        refines(bind(s, id, ty), s),
        apply(bind(s, id, ty), Type::Var(id)) == ty,
        apply(bind(s, id, ty), ty) == ty,
{
    let s2 = bind(s, id, ty);
    lemma_apply_unbound(s, ty);
    lemma_apply_bind(s, id, ty, ty);
    lemma_replace_absent(ty, id, ty);
    assert forall|v: TypeVar| bound(s, v) implies #[trigger] apply(s2, s[v as int]->Some_0) == apply(
        s2,
        Type::Var(v),
    ) by {
        let t = s[v as int]->Some_0;
        assert(s[v as int] is Some);
        lemma_apply_unbound(s, t);
        lemma_apply_bind(s, id, ty, t);
        lemma_apply_bind(s, id, ty, Type::Var(v));
    }
}

/// What `unify` returns unifies its two types, and is an instance of the
/// substitution it started from: under it both types become the same type,
/// and every binding made before still holds.
pub proof fn law_unifier_unifies(s: Substitution, l: Type, r: Type)
    requires
        wf(s),
        scoped(s.len(), l),
        scoped(s.len(), r),
    ensures
        unify(s, l, r) matches Ok(s1) ==> apply(s1, l) == apply(s1, r) && refines(s1, s),
    decreases unbound_count(s), size(apply(s, l)) + size(apply(s, r)),
{
    let left = apply(s, l);
    let right = apply(s, r);
    lemma_apply_resolved(s, l);
    lemma_apply_resolved(s, r);
    lemma_unify(s, l, r);
    if left == right {
        lemma_refines_self(s);
    } else {
        match (left, right) {
            (Type::Var(id), ty) => {
                assert(occurs(id, left));
                if !occurs(id, ty) {
                    lemma_bind_unifies(s, id, ty);
                    lemma_refines_apply(bind(s, id, ty), s, l);
                    lemma_refines_apply(bind(s, id, ty), s, r);
                }
            },
            (ty, Type::Var(id)) => {
                assert(occurs(id, right));
                if !occurs(id, ty) {
                    lemma_bind_unifies(s, id, ty);
                    lemma_refines_apply(bind(s, id, ty), s, l);
                    lemma_refines_apply(bind(s, id, ty), s, r);
                }
            },
            (Type::Function(a, b), Type::Function(c, d)) => {
                lemma_resolved_parts(s, left);
                lemma_resolved_parts(s, right);
                if size(apply(s, *a)) + size(apply(s, *c)) < size(left) + size(right) {
                    law_unifier_unifies(s, *a, *c);
                    lemma_unify(s, *a, *c);
                    if let Ok(s1) = unify(s, *a, *c) {
                        if unbound_count(s1) < unbound_count(s) || (unbound_count(s1) == unbound_count(s)
                            && size(apply(s1, *b)) + size(apply(s1, *d)) < size(left) + size(right)) {
                            assert(scoped(s1.len(), *b));
                            assert(scoped(s1.len(), *d));
                            law_unifier_unifies(s1, *b, *d);
                            if let Ok(s2) = unify(s1, *b, *d) {
                                lemma_refines_trans(s2, s1, s);
                                lemma_refines_apply(s2, s1, *a);
                                lemma_refines_apply(s2, s1, *c);
                                lemma_refines_apply(s2, s, l);
                                lemma_refines_apply(s2, s, r);
                            }
                        }
                    }
                }
            },
            _ => {},
        }
    }
}


/// The occurs check: an unbound variable does not unify with a different
/// type that contains it, since only an infinite type could solve that.
pub proof fn law_occurs_check(s: Substitution, v: TypeVar, t: Type)
    requires
        wf(s),
        v < s.len(),
        !bound(s, v),
        occurs(v, apply(s, t)),
        apply(s, t) != Type::Var(v),
    ensures
        unify(s, Type::Var(v), t) matches Err(e) && e.0 == ErrorKind::InfiniteType,
{
    assert(apply(s, Type::Var(v)) == Type::Var(v));
}


/// A variable inside a larger type stays smaller than it under any substitution.
proof fn lemma_occurs_smaller(sigma: Substitution, v: TypeVar, t: Type)
    requires
        occurs(v, t),
        t != Type::Var(v),
    ensures
        size(apply(sigma, Type::Var(v))) < size(apply(sigma, t)),
    decreases t,
{
    if let Type::Function(a, b) = t {
        if occurs(v, *a) {
            if *a != Type::Var(v) {
                lemma_occurs_smaller(sigma, v, *a);
            }
        } else {
            if *b != Type::Var(v) {
                lemma_occurs_smaller(sigma, v, *b);
            }
        }
        lemma_size_positive(apply(sigma, *a));
        lemma_size_positive(apply(sigma, *b));
    }
}

/// Where `sigma` makes `Var(id)` and `ty` equal, putting `ty` for `id` changes
/// nothing that `sigma` makes of a type.
proof fn lemma_apply_replace(sigma: Substitution, t: Type, id: TypeVar, ty: Type)
    requires
        apply(sigma, Type::Var(id)) == apply(sigma, ty),
    ensures
        apply(sigma, replace_var(t, id, ty)) == apply(sigma, t),
    decreases t,
{
    if let Type::Function(a, b) = t {
        lemma_apply_replace(sigma, *a, id, ty);
        lemma_apply_replace(sigma, *b, id, ty);
    }
}

/// An instance of `s` that makes `Var(id)` and `ty` equal is an instance of
/// `bind(s, id, ty)`.
proof fn lemma_bind_general(sigma: Substitution, s: Substitution, id: TypeVar, ty: Type)
    requires
        refines(sigma, s),
        id < s.len(),
        !bound(s, id),
        apply(sigma, Type::Var(id)) == apply(sigma, ty),
    ensures
        refines(sigma, bind(s, id, ty)),
{
    let s1 = bind(s, id, ty);
    assert forall|w: TypeVar| bound(s1, w) implies #[trigger] apply(sigma, s1[w as int]->Some_0) == apply(
        sigma,
        Type::Var(w),
    ) by {
        if w != id {
            assert(bound(s, w));
            let t = s[w as int]->Some_0;
            assert(apply(sigma, t) == apply(sigma, Type::Var(w)));
            lemma_apply_replace(sigma, t, id, ty);
        }
    }
}

/// Unification finds a unifier whenever there is one, and the most general:
/// if some instance `sigma` of `s` makes `l` and `r` equal, `unify` succeeds
/// and `sigma` is an instance of what it returns.
pub proof fn law_unifier_is_most_general(s: Substitution, l: Type, r: Type, sigma: Substitution)
    requires
        wf(s),
        scoped(s.len(), l),
        scoped(s.len(), r),
        refines(sigma, s),
        apply(sigma, l) == apply(sigma, r),
    ensures
        unify(s, l, r) is Ok,
        refines(sigma, unify(s, l, r)->Ok_0),
    decreases unbound_count(s), size(apply(s, l)) + size(apply(s, r)),
{
    let left = apply(s, l);
    let right = apply(s, r);
    lemma_apply_resolved(s, l);
    lemma_apply_resolved(s, r);
    lemma_refines_apply(sigma, s, l);
    lemma_refines_apply(sigma, s, r);
    assert(apply(sigma, left) == apply(sigma, right));
    if left == right {
    } else {
        match (left, right) {
            (Type::Var(id), ty) => {
                assert(occurs(id, left));
                if occurs(id, ty) {
                    lemma_occurs_smaller(sigma, id, ty);
                }
                lemma_bind_general(sigma, s, id, ty);
            },
            (ty, Type::Var(id)) => {
                assert(occurs(id, right));
                if occurs(id, ty) {
                    lemma_occurs_smaller(sigma, id, ty);
                }
                lemma_bind_general(sigma, s, id, ty);
            },
            (Type::Function(a, b), Type::Function(c, d)) => {
                lemma_resolved_parts(s, left);
                lemma_resolved_parts(s, right);
                assert(size(*a) < size(left));
                assert(size(*c) < size(right));
                law_unifier_is_most_general(s, *a, *c, sigma);
                lemma_unify(s, *a, *c);
                let s1 = unify(s, *a, *c)->Ok_0;
                assert(scoped(s1.len(), *b));
                assert(scoped(s1.len(), *d));
                assert(size(*b) < size(left));
                assert(size(*d) < size(right));
                law_unifier_is_most_general(s1, *b, *d, sigma);
            },
            _ => {
                assert(apply(sigma, left) != apply(sigma, right));
            },
        }
    }
}


/// Two types that resolve to different non-variable types other than two
/// function types (a function against `int` or `bool`, in either order, or
/// `int` against `bool`) do not unify: the error is a mismatch that carries
/// the two resolved types.
pub proof fn law_unify_mismatch(s: Substitution, l: Type, r: Type)
    requires
        !(apply(s, l) is Var),
        !(apply(s, r) is Var),
        !(apply(s, l) is Function && apply(s, r) is Function),
        apply(s, l) != apply(s, r),
    ensures
        unify(s, l, r) == Err::<Substitution, (ErrorKind, Type, Type)>(
            (ErrorKind::TypeMismatch, apply(s, l), apply(s, r)),
        ),
{
}

/// Unification reports an infinite type only for a variable and a type that
/// the variable occurs in: the error carries the variable and that type.
pub proof fn law_infinite_type_is_an_occurrence(s: Substitution, l: Type, r: Type)
    ensures
        unify(s, l, r) matches Err(e) ==> (e.0 == ErrorKind::InfiniteType ==> (e.1 matches Type::Var(v)
            && occurs(v, e.2))),
    decreases unbound_count(s), size(apply(s, l)) + size(apply(s, r)),
{
    let left = apply(s, l);
    let right = apply(s, r);
    if left != right {
        if let (Type::Function(a, b), Type::Function(c, d)) = (left, right) {
            if size(apply(s, *a)) + size(apply(s, *c)) < size(left) + size(right) {
                law_infinite_type_is_an_occurrence(s, *a, *c);
                if let Ok(s1) = unify(s, *a, *c) {
                    if unbound_count(s1) < unbound_count(s) || (unbound_count(s1) == unbound_count(s)
                        && size(apply(s1, *b)) + size(apply(s1, *d)) < size(left) + size(right)) {
                        law_infinite_type_is_an_occurrence(s1, *b, *d);
                    }
                }
            }
        }
    }
}

/// No variable of `x` occurs in `t`.
pub open spec fn avoids(t: Type, x: Set<TypeVar>) -> bool {
    forall|w: TypeVar| x.contains(w) ==> !#[trigger] occurs(w, t)
}

/// `s1` leaves every variable of `x` as it is, and adds no occurrence of one
/// to what `s` makes of any type.
pub open spec fn adds_none(s: Substitution, s1: Substitution, x: Set<TypeVar>) -> bool {
    &&& forall|w: TypeVar| x.contains(w) ==> #[trigger] apply(s1, Type::Var(w)) == Type::Var(w)
    &&& forall|t: Type, w: TypeVar|
        x.contains(w) && #[trigger] occurs(w, apply(s1, t)) ==> occurs(w, apply(s, t))
}

pub proof fn lemma_adds_none_trans(s: Substitution, s1: Substitution, s2: Substitution, x: Set<TypeVar>)
    requires
        adds_none(s, s1, x),
        adds_none(s1, s2, x),
    ensures
        adds_none(s, s2, x),
{
    assert forall|t: Type, w: TypeVar|
        x.contains(w) && #[trigger] occurs(w, apply(s2, t)) implies occurs(w, apply(s, t)) by {
        assert(occurs(w, apply(s1, t)));
    }
}

pub proof fn lemma_adds_none_self(s: Substitution, x: Set<TypeVar>)
    requires
        forall|w: TypeVar| x.contains(w) ==> #[trigger] apply(s, Type::Var(w)) == Type::Var(w),
    ensures
        adds_none(s, s, x),
{
}

/// Unification of two types whose resolved forms avoid `x`, under a
/// substitution that leaves `x` alone, adds no occurrence of a variable of `x`.
pub proof fn lemma_unify_adds_none(s: Substitution, l: Type, r: Type, x: Set<TypeVar>)
    requires
        wf(s),
        scoped(s.len(), l),
        scoped(s.len(), r),
        forall|w: TypeVar| x.contains(w) ==> #[trigger] apply(s, Type::Var(w)) == Type::Var(w),
        avoids(apply(s, l), x),
        avoids(apply(s, r), x),
    ensures
        unify(s, l, r) matches Ok(s1) ==> adds_none(s, s1, x),
    decreases unbound_count(s), size(apply(s, l)) + size(apply(s, r)),
{
    let left = apply(s, l);
    let right = apply(s, r);
    lemma_apply_resolved(s, l);
    lemma_apply_resolved(s, r);
    lemma_unify(s, l, r);
    if left == right {
        lemma_adds_none_self(s, x);
    } else {
        match (left, right) {
            (Type::Var(id), ty) => {
                assert(occurs(id, left));
                if !occurs(id, ty) {
                    lemma_bind_adds_none(s, id, ty, x);
                }
            },
            (ty, Type::Var(id)) => {
                assert(occurs(id, right));
                if !occurs(id, ty) {
                    lemma_bind_adds_none(s, id, ty, x);
                }
            },
            (Type::Function(a, b), Type::Function(c, d)) => {
                lemma_resolved_parts(s, left);
                lemma_resolved_parts(s, right);
                if size(apply(s, *a)) + size(apply(s, *c)) < size(left) + size(right) {
                    assert forall|w: TypeVar| x.contains(w) implies !#[trigger] occurs(w, apply(s, *a)) by {
                        assert(!occurs(w, left));
                    }
                    assert forall|w: TypeVar| x.contains(w) implies !#[trigger] occurs(w, apply(s, *c)) by {
                        assert(!occurs(w, right));
                    }
                    lemma_unify_adds_none(s, *a, *c, x);
                    lemma_unify(s, *a, *c);
                    if let Ok(s1) = unify(s, *a, *c) {
                        if unbound_count(s1) < unbound_count(s) || (unbound_count(s1) == unbound_count(s)
                            && size(apply(s1, *b)) + size(apply(s1, *d)) < size(left) + size(right)) {
                            assert(scoped(s1.len(), *b));
                            assert(scoped(s1.len(), *d));
                            assert forall|w: TypeVar| x.contains(w) implies !#[trigger] occurs(w, apply(s1, *b)) by {
                                assert(!occurs(w, left));
                                if occurs(w, apply(s1, *b)) {
                                    assert(occurs(w, apply(s, *b)));
                                }
                            }
                            assert forall|w: TypeVar| x.contains(w) implies !#[trigger] occurs(w, apply(s1, *d)) by {
                                assert(!occurs(w, right));
                                if occurs(w, apply(s1, *d)) {
                                    assert(occurs(w, apply(s, *d)));
                                }
                            }
                            lemma_unify_adds_none(s1, *b, *d, x);
                            if let Ok(s2) = unify(s1, *b, *d) {
                                lemma_adds_none_trans(s, s1, s2, x);
                            }
                        }
                    }
                }
            },
            _ => {},
        }
    }
}

proof fn lemma_bind_adds_none(s: Substitution, id: TypeVar, ty: Type, x: Set<TypeVar>)
    requires
        wf(s),
        id < s.len(),
        !bound(s, id),
        resolved(s, ty),
        !occurs(id, ty),
        forall|w: TypeVar| x.contains(w) ==> #[trigger] apply(s, Type::Var(w)) == Type::Var(w),
        !x.contains(id),
        avoids(ty, x),
    ensures
        adds_none(s, bind(s, id, ty), x),
{
    let s1 = bind(s, id, ty);
    assert forall|w: TypeVar| x.contains(w) implies #[trigger] apply(s1, Type::Var(w)) == Type::Var(w) by {
        lemma_apply_bind(s, id, ty, Type::Var(w));
        assert(apply(s, Type::Var(w)) == Type::Var(w));
    }
    assert forall|t: Type, w: TypeVar|
        x.contains(w) && #[trigger] occurs(w, apply(s1, t)) implies occurs(w, apply(s, t)) by {
        lemma_apply_bind(s, id, ty, t);
        lemma_replace_var_occurs(apply(s, t), id, ty, w);
    }
}

} // verus!
