use vstd::prelude::*;

use crate::{
    ast::{BinaryOp, Expr, ExprKind},
    display::type_text,
    error::{reports_error, Diagnostic, ErrorKind, LangResult, Stage},
    span::Span,
    types::{Type, TypeEnv, TypeScheme, TypeVar},
    unify::{
        apply, bind, bind_checked, lemma_apply_resolved, lemma_resolved_parts, lemma_unify, occurs,
        replace_var, scoped, size, unbound_count, unify, unify_keeps, wf, Substitution, lemma_unify_len,
        lemma_scoped_mono, lemma_resolved_scoped, lemma_push_unbound, resolved, bound,
    },
};

verus! {

/// A binding of a type environment as the inference sees it: the name, the
/// quantified variables and the type of its scheme.
pub type Binding = (Seq<char>, Seq<TypeVar>, Type);

/// The outcome of inferring the type of an expression: the substitution
/// reached, and the type or the kind and place of the error.
pub type Inferred = (Substitution, Result<Type, (ErrorKind, Span, Seq<char>)>);

/// The message of a failed unification: an infinite type, or the two types
/// that do not match, as they are written.
pub open spec fn unify_message(e: (ErrorKind, Type, Type)) -> Seq<char> {
    if e.0 == ErrorKind::InfiniteType {
        "無限型が必要になる式です。"@
    } else {
        "型が一致しません: "@ + type_text(e.1) + " と "@ + type_text(e.2)
    }
}

/// The scheme of the most recent binding of `name`.
pub open spec fn lookup_scheme(env: Seq<Binding>, name: Seq<char>) -> Option<(Seq<TypeVar>, Type)>
    decreases env.len(),
{
    if env.len() == 0 {
        None
    } else if env.last().0 == name {
        Some((env.last().1, env.last().2))
    } else {
        lookup_scheme(env.drop_last(), name)
    }
}

/// Binding `i` is hidden by a later binding of the same name.
pub open spec fn shadowed(env: Seq<Binding>, i: int) -> bool {
    exists|j: int| i < j < env.len() && #[trigger] env[j].0 == env[i].0
}

/// `v` is free in the environment: it occurs, unquantified, in the resolved
/// type of a binding that is not hidden.
pub open spec fn env_var(s: Substitution, env: Seq<Binding>, v: TypeVar) -> bool {
    exists|i: int|
        0 <= i < env.len() && !shadowed(env, i) && occurs(v, apply(s, #[trigger] env[i].2))
            && !env[i].1.contains(v)
}

/// The variables below `n`, in increasing order, that occur in `ty` resolved
/// under `s` and are not free in the environment: those that `let` generalizes.
pub open spec fn generalizable(s: Substitution, ty: Type, env: Seq<Binding>, n: nat) -> Seq<TypeVar>
    decreases n,
{
    if n == 0 {
        seq![]
    } else {
        let v = (n - 1) as TypeVar;
        generalizable(s, ty, env, (n - 1) as nat) + if occurs(v, apply(s, ty)) && !env_var(s, env, v) {
            seq![v]
        } else {
            seq![]
        }
    }
}

/// The first position of `v` in `q`, if it is there.
pub open spec fn position(q: Seq<TypeVar>, v: TypeVar) -> Option<nat>
    decreases q.len(),
{
    if q.len() == 0 {
        None
    } else if q[0] == v {
        Some(0)
    } else {
        match position(q.drop_first(), v) {
            Some(k) => Some(k + 1),
            None => None,
        }
    }
}

/// `t` with each quantified variable `q[k]` renamed to the fresh variable `n + k`.
pub open spec fn rename(t: Type, q: Seq<TypeVar>, n: nat) -> Type
    decreases t,
{
    match t {
        Type::Var(v) => match position(q, v) {
            Some(k) => Type::Var((n + k) as TypeVar),
            None => t,
        },
        Type::Function(a, b) => Type::Function(Box::new(rename(*a, q, n)), Box::new(rename(*b, q, n))),
        _ => t,
    }
}

/// The substitution with `k` more variables, all unbound.
pub open spec fn extend(s: Substitution, k: nat) -> Substitution {
    s + Seq::new(k, |i: int| None::<Type>)
}

/// A fresh variable: the next number, unbound.
pub open spec fn fresh(s: Substitution) -> (Substitution, Type) {
    (s.push(None), Type::Var(s.len() as TypeVar))
}

/// Inference of the type of `expr` in `env`, starting from `s`
/// (algorithm W with let-polymorphism): literals have their type; a variable
/// has its scheme instantiated with fresh variables; operands of `-` and of
/// binary operators must be `int`, a condition `bool`, and both branches of
/// `if` the same type; a function's parameter gets a fresh, monomorphic type;
/// an application unifies the function's type with `argument -> fresh`; `let`
/// generalizes the variables of the value's type that the environment does
/// not mention. Each error carries the place of the phrase it concerns.
pub open spec fn infer_expr(s: Substitution, expr: Expr, env: Seq<Binding>) -> Inferred
    decreases expr,
{
    match expr.kind {
        ExprKind::Int(_) => (s, Ok(Type::Int)),
        ExprKind::Bool(_) => (s, Ok(Type::Bool)),
        ExprKind::Var(name) => match lookup_scheme(env, name@) {
            Some((q, ty)) => (extend(s, q.len()), Ok(rename(ty, q, s.len()))),
            None => (s, Err((ErrorKind::UnboundVariable, expr.span, "未束縛の変数です: "@ + name@))),
        },
        ExprKind::Negate(inner) => {
            let (s1, r) = infer_expr(s, *inner, env);
            match r {
                Ok(t) => match unify(s1, t, Type::Int) {
                    Ok(s2) => (s2, Ok(Type::Int)),
                    Err(e) => (s1, Err((e.0, inner.span, unify_message(e)))),
                },
                Err(x) => (s1, Err(x)),
            }
        },
        ExprKind::Binary { op, left, right } => {
            let (s1, r1) = infer_expr(s, *left, env);
            match r1 {
                Ok(a) => match unify(s1, a, Type::Int) {
                    Ok(s2) => {
                        let (s3, r2) = infer_expr(s2, *right, env);
                        match r2 {
                            Ok(b) => match unify(s3, b, Type::Int) {
                                Ok(s4) => (
                                    s4,
                                    Ok(
                                        if op == BinaryOp::Less {
                                            Type::Bool
                                        } else {
                                            Type::Int
                                        },
                                    ),
                                ),
                                Err(e) => (s3, Err((e.0, right.span, unify_message(e)))),
                            },
                            Err(x) => (s3, Err(x)),
                        }
                    },
                    Err(e) => (s1, Err((e.0, left.span, unify_message(e)))),
                },
                Err(x) => (s1, Err(x)),
            }
        },
        ExprKind::If { condition, then_branch, else_branch } => {
            let (s1, r1) = infer_expr(s, *condition, env);
            match r1 {
                Ok(c) => match unify(s1, c, Type::Bool) {
                    Ok(s2) => {
                        let (s3, r2) = infer_expr(s2, *then_branch, env);
                        match r2 {
                            Ok(a) => {
                                let (s4, r3) = infer_expr(s3, *else_branch, env);
                                match r3 {
                                    Ok(b) => match unify(s4, a, b) {
                                        Ok(s5) => (s5, Ok(apply(s5, a))),
                                        Err(e) => (s4, Err((e.0, expr.span, unify_message(e)))),
                                    },
                                    Err(x) => (s4, Err(x)),
                                }
                            },
                            Err(x) => (s3, Err(x)),
                        }
                    },
                    Err(e) => (s1, Err((e.0, condition.span, unify_message(e)))),
                },
                Err(x) => (s1, Err(x)),
            }
        },
        ExprKind::Fun { parameter, body } => {
            let (s1, input) = fresh(s);
            let (s2, r) = infer_expr(s1, *body, env.push((parameter@, seq![], input)));
            match r {
                Ok(output) => (s2, Ok(Type::Function(Box::new(apply(s2, input)), Box::new(output)))),
                Err(x) => (s2, Err(x)),
            }
        },
        ExprKind::Apply { function, argument } => {
            let (s1, r1) = infer_expr(s, *function, env);
            match r1 {
                Ok(f) => {
                    let (s2, r2) = infer_expr(s1, *argument, env);
                    match r2 {
                        Ok(a) => {
                            let (s3, output) = fresh(s2);
                            match unify(s3, f, Type::Function(Box::new(a), Box::new(output))) {
                                Ok(s4) => (s4, Ok(apply(s4, output))),
                                Err(e) => (s3, Err((e.0, expr.span, unify_message(e)))),
                            }
                        },
                        Err(x) => (s2, Err(x)),
                    }
                },
                Err(x) => (s1, Err(x)),
            }
        },
        ExprKind::Let { name, value, body } => {
            let (s1, r) = infer_expr(s, *value, env);
            match r {
                Ok(t) => infer_expr(
                    s1,
                    *body,
                    env.push((name@, generalizable(s1, t, env, s1.len()), apply(s1, t))),
                ),
                Err(x) => (s1, Err(x)),
            }
        },
    }
}

/// The type that inference gives `expr` in the empty environment, fully
/// resolved, or its error.
pub open spec fn infer_spec(expr: Expr) -> Result<Type, (ErrorKind, Span, Seq<char>)> {
    let (s, r) = infer_expr(seq![], expr, seq![]);
    match r {
        Ok(t) => Ok(apply(s, t)),
        Err(x) => Err(x),
    }
}

/// The inference of `expr` never needs more type variables than `TypeVar` can number.
pub open spec fn inference_fits(expr: Expr) -> bool {
    infer_expr(seq![], expr, seq![]).0.len() <= TypeVar::MAX
}

/// Inference only adds type variables.
pub proof fn lemma_infer_grows(s: Substitution, expr: Expr, env: Seq<Binding>)
    ensures
        infer_expr(s, expr, env).0.len() >= s.len(),
    decreases expr,
{
    match expr.kind {
        ExprKind::Negate(inner) => {
            lemma_infer_grows(s, *inner, env);
            let (s1, r) = infer_expr(s, *inner, env);
            if let Ok(t) = r {
                lemma_unify_len(s1, t, Type::Int);
            }
        },
        ExprKind::Binary { op, left, right } => {
            lemma_infer_grows(s, *left, env);
            let (s1, r1) = infer_expr(s, *left, env);
            if let Ok(a) = r1 {
                lemma_unify_len(s1, a, Type::Int);
                if let Ok(s2) = unify(s1, a, Type::Int) {
                    lemma_infer_grows(s2, *right, env);
                    let (s3, r2) = infer_expr(s2, *right, env);
                    if let Ok(b) = r2 {
                        lemma_unify_len(s3, b, Type::Int);
                    }
                }
            }
        },
        ExprKind::If { condition, then_branch, else_branch } => {
            lemma_infer_grows(s, *condition, env);
            let (s1, r1) = infer_expr(s, *condition, env);
            if let Ok(c) = r1 {
                lemma_unify_len(s1, c, Type::Bool);
                if let Ok(s2) = unify(s1, c, Type::Bool) {
                    lemma_infer_grows(s2, *then_branch, env);
                    let (s3, r2) = infer_expr(s2, *then_branch, env);
                    if let Ok(a) = r2 {
                        lemma_infer_grows(s3, *else_branch, env);
                        let (s4, r3) = infer_expr(s3, *else_branch, env);
                        if let Ok(b) = r3 {
                            lemma_unify_len(s4, a, b);
                        }
                    }
                }
            }
        },
        ExprKind::Fun { parameter, body } => {
            let (s1, input) = fresh(s);
            lemma_infer_grows(s1, *body, env.push((parameter@, seq![], input)));
        },
        ExprKind::Apply { function, argument } => {
            lemma_infer_grows(s, *function, env);
            let (s1, r1) = infer_expr(s, *function, env);
            if let Ok(f) = r1 {
                lemma_infer_grows(s1, *argument, env);
                let (s2, r2) = infer_expr(s1, *argument, env);
                if let Ok(a) = r2 {
                    let (s3, output) = fresh(s2);
                    lemma_unify_len(s3, f, Type::Function(Box::new(a), Box::new(output)));
                }
            }
        },
        ExprKind::Let { name, value, body } => {
            lemma_infer_grows(s, *value, env);
            let (s1, r) = infer_expr(s, *value, env);
            if let Ok(t) = r {
                lemma_infer_grows(
                    s1,
                    *body,
                    env.push((name@, generalizable(s1, t, env, s1.len()), apply(s1, t))),
                );
            }
        },
        _ => {},
    }
}

/// How the inference sees an environment of the library's type.
pub open spec fn bindings(env: Seq<(String, TypeScheme)>) -> Seq<Binding> {
    Seq::new(env.len(), |i: int| (env[i].0@, env[i].1.quantified@, env[i].1.ty))
}

/// Every binding's type mentions only variables below `n`.
pub open spec fn env_scoped(env: Seq<(String, TypeScheme)>, n: nat) -> bool {
    forall|i: int| 0 <= i < env.len() ==> scoped(n, #[trigger] env[i].1.ty)
}

pub proof fn lemma_position(q: Seq<TypeVar>, v: TypeVar, k: int)
    requires
        0 <= k <= q.len(),
        forall|j: int| 0 <= j < k ==> q[j] != v,
    ensures
        k < q.len() && q[k] == v ==> position(q, v) == Some(k as nat),
        k == q.len() ==> position(q, v) is None,
        position(q, v) matches Some(p) ==> p < q.len(),
    decreases q.len(),
{
    if q.len() > 0 {
        if k > 0 {
            lemma_position(q.drop_first(), v, k - 1);
        } else {
            lemma_position(q.drop_first(), v, 0);
        }
    }
}

pub proof fn lemma_rename_scoped(t: Type, q: Seq<TypeVar>, n: nat)
    requires
        scoped(n, t),
        n + q.len() <= TypeVar::MAX,
    ensures
        scoped(n + q.len(), rename(t, q, n)),
    decreases t,
{
    match t {
        Type::Var(v) => {
            assert(occurs(v, t));
            lemma_position(q, v, 0);
            let renamed = rename(t, q, n);
            assert forall|w: TypeVar| #[trigger] occurs(w, renamed) implies w < n + q.len() by {
                match position(q, v) {
                    Some(k) => assert(w == n + k),
                    None => assert(w == v),
                }
            }
        },
        Type::Function(a, b) => {
            assert forall|w: TypeVar| #[trigger] occurs(w, *a) implies w < n by {
                assert(occurs(w, t));
            }
            assert forall|w: TypeVar| #[trigger] occurs(w, *b) implies w < n by {
                assert(occurs(w, t));
            }
            lemma_rename_scoped(*a, q, n);
            lemma_rename_scoped(*b, q, n);
            let renamed = rename(t, q, n);
            assert forall|w: TypeVar| #[trigger] occurs(w, renamed) implies w < n + q.len() by {
                if occurs(w, rename(*a, q, n)) {
                } else {
                    assert(occurs(w, rename(*b, q, n)));
                }
            }
        },
        _ => {},
    }
}

/// `result`, with the inference left in `state`, is what `inferred` describes.
spec fn reports_inferred(result: LangResult<Type>, state: Inference, inferred: Inferred) -> bool {
    &&& state.next as nat == inferred.0.len()
    &&& match inferred.1 {
        Ok(t) => {
            &&& result == Ok::<Type, Diagnostic>(t)
            &&& state.subst() == inferred.0
            &&& state.inv()
            &&& scoped(inferred.0.len(), t)
        },
        Err((kind, span, message)) => result matches Err(d) && reports_error(d, Stage::Inference, kind, span)
            && d.message@ == message,
    }
}

/// `result` is what `inferred` describes, or `None` where the inference needs
/// more type variables than `TypeVar` can number.
spec fn reports_checked(result: Option<LangResult<Type>>, state: Inference, inferred: Inferred) -> bool {
    match result {
        Some(r) => reports_inferred(r, state, inferred),
        None => inferred.0.len() > TypeVar::MAX,
    }
}

proof fn lemma_env_scoped_mono(env: Seq<(String, TypeScheme)>, n: nat, m: nat)
    requires
        env_scoped(env, n),
        n <= m,
    ensures
        env_scoped(env, m),
{
    assert forall|i: int| 0 <= i < env.len() implies scoped(m, #[trigger] env[i].1.ty) by {
        lemma_scoped_mono(n, m, env[i].1.ty);
    }
}

proof fn lemma_bindings_push(env: Seq<(String, TypeScheme)>, name: String, scheme: TypeScheme)
    ensures
        bindings(env.push((name, scheme))) == bindings(env).push((name@, scheme.quantified@, scheme.ty)),
{
    assert(bindings(env.push((name, scheme))) =~= bindings(env).push((name@, scheme.quantified@, scheme.ty)));
}

/// The state of an inference: the number of type variables made so far and
/// what each of them stands for.
struct Inference {
    next: TypeVar,
    substitutions: Vec<Option<Type>>,
}

/// `Var(v)` occurs in `ty`.
fn occurs_in(v: TypeVar, ty: &Type) -> (found: bool)
    ensures
        found == occurs(v, *ty),
    decreases ty,
{
    match ty {
        Type::Var(w) => v == *w,
        Type::Function(input, output) => occurs_in(v, input) || occurs_in(v, output),
        _ => false,
    }
}

/// `ty` with `Var(id)` replaced by `by`.
fn replace(ty: &Type, id: TypeVar, by: &Type) -> (replaced: Type)
    ensures
        replaced == replace_var(*ty, id, *by),
    decreases ty,
{
    match ty {
        Type::Var(v) => if *v == id {
            by.duplicate()
        } else {
            Type::Var(*v)
        },
        Type::Function(input, output) => Type::Function(
            Box::new(replace(input, id, by)),
            Box::new(replace(output, id, by)),
        ),
        Type::Int => Type::Int,
        Type::Bool => Type::Bool,
    }
}

/// The first position of `v` in `q`.
fn position_of(q: &Vec<TypeVar>, v: TypeVar) -> (found: Option<usize>)
    ensures
        match position(q@, v) {
            Some(k) => found == Some(k as usize),
            None => found is None,
        },
{
    let mut k: usize = 0;
    while k < q.len()
        invariant
            0 <= k <= q@.len(),
            forall|j: int| 0 <= j < k ==> q@[j] != v,
        decreases q@.len() - k,
    {
        if q[k] == v {
            proof {
                lemma_position(q@, v, k as int);
            }
            return Some(k);
        }
        k += 1;
    }
    proof {
        lemma_position(q@, v, k as int);
    }
    None
}

/// `ty` with each quantified variable `q[k]` renamed to `n + k`.
fn rename_vars(ty: &Type, q: &Vec<TypeVar>, n: TypeVar) -> (renamed: Type)
    requires
        n + q@.len() <= TypeVar::MAX,
    ensures
        renamed == rename(*ty, q@, n as nat),
    decreases ty,
{
    match ty {
        Type::Var(v) => match position_of(q, *v) {
            Some(k) => {
                proof {
                    lemma_position(q@, *v, 0);
                }
                Type::Var(n + k as TypeVar)
            },
            None => Type::Var(*v),
        },
        Type::Function(input, output) => Type::Function(
            Box::new(rename_vars(input, q, n)),
            Box::new(rename_vars(output, q, n)),
        ),
        Type::Int => Type::Int,
        Type::Bool => Type::Bool,
    }
}

fn contains_var(q: &Vec<TypeVar>, v: TypeVar) -> (found: bool)
    ensures
        found == q@.contains(v),
{
    let mut k: usize = 0;
    while k < q.len()
        invariant
            0 <= k <= q@.len(),
            forall|j: int| 0 <= j < k ==> q@[j] != v,
        decreases q@.len() - k,
    {
        if q[k] == v {
            assert(q@[k as int] == v);
            return true;
        }
        k += 1;
    }
    false
}

/// Marks the variables of `ty` that are not quantified.
fn mark_free(ty: &Type, quantified: &Vec<TypeVar>, marks: &mut Vec<bool>)
    requires
        scoped(old(marks)@.len(), *ty),
    ensures
        final(marks)@.len() == old(marks)@.len(),
        forall|w: TypeVar|
            (w as int) < old(marks)@.len() ==> #[trigger] final(marks)@[w as int] == (old(
                marks,
            )@[w as int] || (occurs(w, *ty) && !quantified@.contains(w))),
    decreases ty,
{
    match ty {
        Type::Var(v) => {
            assert(occurs(*v, *ty));
            if !contains_var(quantified, *v) {
                marks.set(*v as usize, true);
            }
        },
        Type::Function(input, output) => {
            assert forall|w: TypeVar| #[trigger] occurs(w, **input) implies w < marks@.len() by {
                assert(occurs(w, *ty));
            }
            assert forall|w: TypeVar| #[trigger] occurs(w, **output) implies w < marks@.len() by {
                assert(occurs(w, *ty));
            }
            mark_free(input, quantified, marks);
            mark_free(output, quantified, marks);
        },
        _ => {},
    }
}

/// A later binding in `env` has the same name as binding `i`.
fn is_shadowed(env: &TypeEnv, i: usize) -> (hidden: bool)
    requires
        i < env@.len(),
    ensures
        hidden == shadowed(bindings(env@), i as int),
{
    let ghost b = bindings(env@);
    let len = env.len();
    assert(i < len);
    let mut j = i + 1;
    while j < env.len()
        invariant
            b == bindings(env@),
            i < j <= env@.len(),
            forall|k: int| i < k < j ==> b[k].0 != b[i as int].0,
        decreases env@.len() - j,
    {
        if String::eq(&env[j].0, &env[i].0) {
            assert(b[j as int].0 == b[i as int].0);
            return true;
        }
        j += 1;
    }
    false
}

/// The position of the most recent binding of `name`.
fn lookup(env: &TypeEnv, name: &String) -> (found: Option<usize>)
    ensures
        match lookup_scheme(bindings(env@), name@) {
            Some(scheme) => found matches Some(i) && i < env@.len() && scheme == (
                bindings(env@)[i as int].1,
                bindings(env@)[i as int].2,
            ),
            None => found is None,
        },
{
    let ghost b = bindings(env@);
    let mut k = env.len();
    assert(b.take(k as int) =~= b);
    while k > 0
        invariant
            b == bindings(env@),
            k <= env@.len(),
            lookup_scheme(b, name@) == lookup_scheme(b.take(k as int), name@),
        decreases k,
    {
        k -= 1;
        assert(b.take(k + 1).drop_last() =~= b.take(k as int));
        if String::eq(&env[k].0, name) {
            return Some(k);
        }
    }
    None
}

impl Inference {
    spec fn subst(&self) -> Substitution {
        self.substitutions@
    }

    spec fn inv(&self) -> bool {
        &&& self.next as nat == self.substitutions@.len()
        &&& wf(self.substitutions@)
    }

    /// `ty` with every bound variable replaced by what it stands for.
    fn resolve(&self, ty: &Type) -> (resolved: Type)
        ensures
            resolved == apply(self.subst(), *ty),
        decreases ty,
    {
        match ty {
            Type::Var(id) => {
                if (*id as usize) < self.substitutions.len() {
                    match &self.substitutions[*id as usize] {
                        Some(t) => t.duplicate(),
                        None => Type::Var(*id),
                    }
                } else {
                    Type::Var(*id)
                }
            },
            Type::Function(input, output) => Type::Function(
                Box::new(self.resolve(input)),
                Box::new(self.resolve(output)),
            ),
            Type::Int => Type::Int,
            Type::Bool => Type::Bool,
        }
    }

    /// Binds `id` to `ty`, replacing `Var(id)` where other variables stand for it.
    fn bind(&mut self, id: TypeVar, ty: &Type)
        requires
            (id as nat) < old(self).substitutions@.len(),
        ensures
            final(self).next == old(self).next,
            final(self).substitutions@ == bind(old(self).substitutions@, id, *ty),
    {
        let ghost before = self.substitutions@;
        let n = self.substitutions.len();
        let mut i: usize = 0;
        while i < n
            invariant
                n == before.len(),
                self.substitutions@.len() == n,
                self.next == old(self).next,
                0 <= i <= n,
                forall|k: int| 0 <= k < i ==> self.substitutions@[k] == #[trigger] bind(before, id, *ty)[k],
                forall|k: int| i <= k < n ==> self.substitutions@[k] == #[trigger] before[k],
            decreases n - i,
        {
            let entry = if i == id as usize {
                Some(ty.duplicate())
            } else {
                match &self.substitutions[i] {
                    Some(t) => Some(replace(t, id, ty)),
                    None => None,
                }
            };
            self.substitutions.set(i, entry);
            i += 1;
        }
        assert(self.substitutions@ =~= bind(before, id, *ty));
    }

    /// A new, unbound type variable.
    fn fresh(&mut self) -> (ty: Type)
        requires
            old(self).inv(),
            old(self).next < TypeVar::MAX,
        ensures
            final(self).inv(),
            final(self).next == old(self).next + 1,
            final(self).subst() == fresh(old(self).subst()).0,
            ty == fresh(old(self).subst()).1,
    {
        proof {
            lemma_push_unbound(self.substitutions@);
        }
        let id = self.next;
        self.next = self.next + 1;
        self.substitutions.push(None);
        Type::Var(id)
    }

    /// `ty` with the quantified variables renamed to fresh ones, made in order.
    fn instantiate(&mut self, quantified: &Vec<TypeVar>, ty: &Type) -> (instance: Type)
        requires
            old(self).inv(),
            old(self).next + quantified@.len() <= TypeVar::MAX,
            scoped(old(self).next as nat, *ty),
        ensures
            final(self).inv(),
            final(self).subst() == extend(old(self).subst(), quantified@.len()),
            instance == rename(*ty, quantified@, old(self).next as nat),
            scoped(final(self).subst().len(), instance),
    {
        let ghost s = self.subst();
        let n = self.next;
        let mut k: usize = 0;
        while k < quantified.len()
            invariant
                self.inv(),
                0 <= k <= quantified@.len(),
                n + quantified@.len() <= TypeVar::MAX,
                self.next == n + k,
                self.subst() == extend(s, k as nat),
            decreases quantified@.len() - k,
        {
            self.fresh();
            k += 1;
            assert(self.subst() =~= extend(s, k as nat));
        }
        proof {
            lemma_rename_scoped(*ty, quantified@, n as nat);
        }
        rename_vars(ty, quantified, n)
    }

    /// The scheme of `ty`: its variables that the environment does not
    /// mention, in increasing order, quantified.
    fn generalize(&self, ty: &Type, env: &TypeEnv) -> (scheme: TypeScheme)
        requires
            self.inv(),
            scoped(self.subst().len(), *ty),
            env_scoped(env@, self.subst().len()),
        ensures
            scheme.quantified@ == generalizable(self.subst(), *ty, bindings(env@), self.subst().len()),
            scheme.ty == apply(self.subst(), *ty),
    {
        let ghost s = self.subst();
        let ghost b = bindings(env@);
        let resolved = self.resolve(ty);
        let n = self.substitutions.len();
        let mut marks: Vec<bool> = Vec::new();
        while marks.len() < n
            invariant
                marks@.len() <= n,
                forall|w: int| 0 <= w < marks@.len() ==> !marks@[w],
            decreases n - marks@.len(),
        {
            marks.push(false);
        }
        let mut i: usize = 0;
        while i < env.len()
            invariant
                self.inv(),
                s == self.subst(),
                b == bindings(env@),
                n == s.len(),
                env_scoped(env@, s.len()),
                marks@.len() == n,
                0 <= i <= env@.len(),
                forall|w: TypeVar|
                    (w as int) < n ==> (#[trigger] marks@[w as int] <==> exists|j: int|
                        0 <= j < i && !shadowed(b, j) && occurs(w, apply(s, #[trigger] b[j].2))
                            && !b[j].1.contains(w)),
            decreases env@.len() - i,
        {
            if !is_shadowed(env, i) {
                let t = self.resolve(&env[i].1.ty);
                proof {
                    assert(scoped(s.len(), env@[i as int].1.ty));
                    lemma_apply_resolved(s, env@[i as int].1.ty);
                    lemma_resolved_scoped(s, t);
                }
                let ghost before = marks@;
                mark_free(&t, &env[i].1.quantified, &mut marks);
                assert forall|w: TypeVar|
                    (w as int) < n implies (#[trigger] marks@[w as int] <==> exists|j: int|
                        0 <= j < i + 1 && !shadowed(b, j) && occurs(w, apply(s, #[trigger] b[j].2))
                            && !b[j].1.contains(w)) by {
                    if marks@[w as int] && !before[w as int] {
                        assert(b[i as int].2 == env@[i as int].1.ty);
                    }
                }
            } else {
                assert forall|w: TypeVar|
                    (w as int) < n implies (#[trigger] marks@[w as int] <==> exists|j: int|
                        0 <= j < i + 1 && !shadowed(b, j) && occurs(w, apply(s, #[trigger] b[j].2))
                            && !b[j].1.contains(w)) by {}
            }
            i += 1;
        }
        let mut quantified: Vec<TypeVar> = Vec::new();
        let mut v: TypeVar = 0;
        while v < self.next
            invariant
                self.inv(),
                s == self.subst(),
                b == bindings(env@),
                n == s.len(),
                marks@.len() == n,
                v <= self.next,
                resolved == apply(s, *ty),
                forall|w: TypeVar| (w as int) < n ==> (#[trigger] marks@[w as int] <==> env_var(s, b, w)),
                quantified@ == generalizable(s, *ty, b, v as nat),
            decreases self.next - v,
        {
            if occurs_in(v, &resolved) && !marks[v as usize] {
                quantified.push(v);
            }
            v += 1;
        }
        TypeScheme { quantified, ty: resolved }
    }

    /// The type of `expr` in `env` (the environment is restored on return),
    /// or `None` where the inference would need more type variables than
    /// `TypeVar` can number.
    fn expression(&mut self, expr: &Expr, env: &mut TypeEnv) -> (result: Option<LangResult<Type>>)
        requires
            old(self).inv(),
            env_scoped(old(env)@, old(self).subst().len()),
        ensures
            final(env)@ == old(env)@,
            reports_checked(result, *final(self), infer_expr(old(self).subst(), *expr, bindings(old(env)@))),
        decreases expr, 1nat,
    {
        match &expr.kind {
            ExprKind::Int(_) => Some(Ok(Type::Int)),
            ExprKind::Bool(_) => Some(Ok(Type::Bool)),
            ExprKind::Var(_) => self.infer_var(expr, env),
            ExprKind::Negate(_) => self.infer_negate(expr, env),
            ExprKind::Binary { .. } => self.infer_binary(expr, env),
            ExprKind::If { .. } => self.infer_if(expr, env),
            ExprKind::Fun { .. } => self.infer_fun(expr, env),
            ExprKind::Apply { .. } => self.infer_apply(expr, env),
            ExprKind::Let { .. } => self.infer_let(expr, env),
        }
    }

    fn infer_var(&mut self, expr: &Expr, env: &mut TypeEnv) -> (result: Option<LangResult<Type>>)
        requires
            old(self).inv(),
            env_scoped(old(env)@, old(self).subst().len()),
            expr.kind is Var,
        ensures
            final(env)@ == old(env)@,
            reports_checked(result, *final(self), infer_expr(old(self).subst(), *expr, bindings(old(env)@))),
        decreases expr, 0nat,
    {
        let ghost s = self.subst();
        let ghost b = bindings(env@);
        match &expr.kind {
            ExprKind::Var(name) => match lookup(env, name) {
                Some(i) => {
                    assert(b[i as int].2 == env@[i as int].1.ty);
                    if env[i].1.quantified.len() > (TypeVar::MAX - self.next) as usize {
                        return None;
                    }
                    let instance = self.instantiate(&env[i].1.quantified, &env[i].1.ty);
                    Some(Ok(instance))
                },
                None => {
                    let message = String::from_str("未束縛の変数です: ").concat(name.as_str());
                    Some(
                        Err(
                            Diagnostic {
                                stage: Stage::Inference,
                                kind: ErrorKind::UnboundVariable,
                                message,
                                span: Some(expr.span),
                            },
                        ),
                    )
                },
            },
            _ => {
                proof {
                    assert(false);
                }
                None
            },
        }
    }

    fn infer_negate(&mut self, expr: &Expr, env: &mut TypeEnv) -> (result: Option<LangResult<Type>>)
        requires
            old(self).inv(),
            env_scoped(old(env)@, old(self).subst().len()),
            expr.kind is Negate,
        ensures
            final(env)@ == old(env)@,
            reports_checked(result, *final(self), infer_expr(old(self).subst(), *expr, bindings(old(env)@))),
        decreases expr, 0nat,
    {
        let ghost s = self.subst();
        let ghost b = bindings(env@);
        match &expr.kind {
            ExprKind::Negate(inner) => {
                let ghost (s1, r) = infer_expr(s, **inner, b);
                proof {
                    if let Ok(t) = r {
                        lemma_unify_len(s1, t, Type::Int);
                    }
                }
                let ty = match self.expression(inner, env) {
                    Some(Ok(t)) => t,
                    Some(Err(d)) => return Some(Err(d)),
                    None => return None,
                };
                if let Err(d) = self.unify(&ty, &Type::Int, inner.span) {
                    return Some(Err(d));
                }
                Some(Ok(Type::Int))
            },
            _ => {
                proof {
                    assert(false);
                }
                None
            },
        }
    }

    fn infer_binary(&mut self, expr: &Expr, env: &mut TypeEnv) -> (result: Option<LangResult<Type>>)
        requires
            old(self).inv(),
            env_scoped(old(env)@, old(self).subst().len()),
            expr.kind is Binary,
        ensures
            final(env)@ == old(env)@,
            reports_checked(result, *final(self), infer_expr(old(self).subst(), *expr, bindings(old(env)@))),
        decreases expr, 0nat,
    {
        let ghost s = self.subst();
        let ghost b = bindings(env@);
        match &expr.kind {
            ExprKind::Binary { op, left, right } => {
                let ghost (s1, r1) = infer_expr(s, **left, b);
                proof {
                    if let Ok(a) = r1 {
                        lemma_unify_len(s1, a, Type::Int);
                        if let Ok(s2) = unify(s1, a, Type::Int) {
                            lemma_infer_grows(s2, **right, b);
                            let (s3, r2) = infer_expr(s2, **right, b);
                            if let Ok(bt) = r2 {
                                lemma_unify_len(s3, bt, Type::Int);
                            }
                        }
                    }
                }
                let a = match self.expression(left, env) {
                    Some(Ok(t)) => t,
                    Some(Err(d)) => return Some(Err(d)),
                    None => return None,
                };
                if let Err(d) = self.unify(&a, &Type::Int, left.span) {
                    return Some(Err(d));
                }
                proof {
                    lemma_infer_grows(s, **left, b);
                    lemma_env_scoped_mono(env@, s.len(), self.subst().len());
                }
                let bt = match self.expression(right, env) {
                    Some(Ok(t)) => t,
                    Some(Err(d)) => return Some(Err(d)),
                    None => return None,
                };
                if let Err(d) = self.unify(&bt, &Type::Int, right.span) {
                    return Some(Err(d));
                }
                Some(
                    Ok(
                        if *op == BinaryOp::Less {
                            Type::Bool
                        } else {
                            Type::Int
                        },
                    ),
                )
            },
            _ => {
                proof {
                    assert(false);
                }
                None
            },
        }
    }

    fn infer_if(&mut self, expr: &Expr, env: &mut TypeEnv) -> (result: Option<LangResult<Type>>)
        requires
            old(self).inv(),
            env_scoped(old(env)@, old(self).subst().len()),
            expr.kind is If,
        ensures
            final(env)@ == old(env)@,
            reports_checked(result, *final(self), infer_expr(old(self).subst(), *expr, bindings(old(env)@))),
        decreases expr, 0nat,
    {
        let ghost s = self.subst();
        let ghost b = bindings(env@);
        match &expr.kind {
            ExprKind::If { condition, then_branch, else_branch } => {
                let ghost (s1, r1) = infer_expr(s, **condition, b);
                proof {
                    lemma_infer_grows(s, **condition, b);
                    if let Ok(c) = r1 {
                        lemma_unify_len(s1, c, Type::Bool);
                        if let Ok(s2) = unify(s1, c, Type::Bool) {
                            lemma_infer_grows(s2, **then_branch, b);
                            let (s3, r2) = infer_expr(s2, **then_branch, b);
                            if let Ok(a) = r2 {
                                lemma_infer_grows(s3, **else_branch, b);
                                let (s4, r3) = infer_expr(s3, **else_branch, b);
                                if let Ok(e) = r3 {
                                    lemma_unify_len(s4, a, e);
                                }
                            }
                        }
                    }
                }
                let c = match self.expression(condition, env) {
                    Some(Ok(t)) => t,
                    Some(Err(d)) => return Some(Err(d)),
                    None => return None,
                };
                if let Err(d) = self.unify(&c, &Type::Bool, condition.span) {
                    return Some(Err(d));
                }
                proof {
                    lemma_env_scoped_mono(env@, s.len(), self.subst().len());
                }
                let ghost s2 = self.subst();
                let a = match self.expression(then_branch, env) {
                    Some(Ok(t)) => t,
                    Some(Err(d)) => return Some(Err(d)),
                    None => return None,
                };
                let ghost s3 = self.subst();
                proof {
                    lemma_infer_grows(s2, **then_branch, b);
                    lemma_env_scoped_mono(env@, s.len(), self.subst().len());
                }
                let e = match self.expression(else_branch, env) {
                    Some(Ok(t)) => t,
                    Some(Err(d)) => return Some(Err(d)),
                    None => return None,
                };
                proof {
                    lemma_infer_grows(s3, **else_branch, b);
                    lemma_scoped_mono(s3.len(), self.subst().len(), a);
                }
                if let Err(d) = self.unify(&a, &e, expr.span) {
                    return Some(Err(d));
                }
                proof {
                    lemma_apply_resolved(self.subst(), a);
                    lemma_resolved_scoped(self.subst(), apply(self.subst(), a));
                }
                Some(Ok(self.resolve(&a)))
            },
            _ => {
                proof {
                    assert(false);
                }
                None
            },
        }
    }

    fn infer_fun(&mut self, expr: &Expr, env: &mut TypeEnv) -> (result: Option<LangResult<Type>>)
        requires
            old(self).inv(),
            env_scoped(old(env)@, old(self).subst().len()),
            expr.kind is Fun,
        ensures
            final(env)@ == old(env)@,
            reports_checked(result, *final(self), infer_expr(old(self).subst(), *expr, bindings(old(env)@))),
        decreases expr, 0nat,
    {
        let ghost s = self.subst();
        let ghost b = bindings(env@);
        match &expr.kind {
            ExprKind::Fun { parameter, body } => {
                let ghost (s1, input_spec) = fresh(s);
                let ghost local = b.push((parameter@, seq![], input_spec));
                proof {
                    lemma_infer_grows(s1, **body, local);
                }
                if self.next == TypeVar::MAX {
                    return None;
                }
                let input = self.fresh();
                let scheme = TypeScheme { quantified: Vec::new(), ty: input.duplicate() };
                proof {
                    lemma_bindings_push(env@, *parameter, scheme);
                    assert(scheme.quantified@ =~= seq![]);
                    lemma_env_scoped_mono(env@, s.len(), self.subst().len());
                    assert(occurs(s.len() as TypeVar, input));
                }
                env.push((parameter.clone(), scheme));
                assert(bindings(env@) == local);
                let output = self.expression(body, env);
                env.pop();
                let output = match output {
                    Some(Ok(t)) => t,
                    Some(Err(d)) => return Some(Err(d)),
                    None => return None,
                };
                proof {
                    lemma_scoped_mono(s1.len(), self.subst().len(), input);
                    lemma_apply_resolved(self.subst(), input);
                    lemma_resolved_scoped(self.subst(), apply(self.subst(), input));
                }
                let input = self.resolve(&input);
                let ty = Type::Function(Box::new(input), Box::new(output));
                assert forall|v: TypeVar| #[trigger] occurs(v, ty) implies v < self.subst().len() by {
                    if occurs(v, input) {
                    } else {
                        assert(occurs(v, output));
                    }
                }
                Some(Ok(ty))
            },
            _ => {
                proof {
                    assert(false);
                }
                None
            },
        }
    }

    fn infer_apply(&mut self, expr: &Expr, env: &mut TypeEnv) -> (result: Option<LangResult<Type>>)
        requires
            old(self).inv(),
            env_scoped(old(env)@, old(self).subst().len()),
            expr.kind is Apply,
        ensures
            final(env)@ == old(env)@,
            reports_checked(result, *final(self), infer_expr(old(self).subst(), *expr, bindings(old(env)@))),
        decreases expr, 0nat,
    {
        let ghost s = self.subst();
        let ghost b = bindings(env@);
        match &expr.kind {
            ExprKind::Apply { function, argument } => {
                let ghost (s1, r1) = infer_expr(s, **function, b);
                proof {
                    lemma_infer_grows(s, **function, b);
                    if let Ok(f) = r1 {
                        lemma_infer_grows(s1, **argument, b);
                        let (s2, r2) = infer_expr(s1, **argument, b);
                        if let Ok(a) = r2 {
                            let (s3, output) = fresh(s2);
                            lemma_unify_len(s3, f, Type::Function(Box::new(a), Box::new(output)));
                        }
                    }
                }
                let function_type = match self.expression(function, env) {
                    Some(Ok(t)) => t,
                    Some(Err(d)) => return Some(Err(d)),
                    None => return None,
                };
                proof {
                    lemma_env_scoped_mono(env@, s.len(), self.subst().len());
                }
                let ghost s1e = self.subst();
                let argument_type = match self.expression(argument, env) {
                    Some(Ok(t)) => t,
                    Some(Err(d)) => return Some(Err(d)),
                    None => return None,
                };
                let ghost s2e = self.subst();
                if self.next == TypeVar::MAX {
                    return None;
                }
                let output = self.fresh();
                let expected = Type::Function(Box::new(argument_type), Box::new(output.duplicate()));
                proof {
                    lemma_infer_grows(s1e, **argument, b);
                    lemma_scoped_mono(s1e.len(), self.subst().len(), function_type);
                    lemma_scoped_mono(s2e.len(), self.subst().len(), argument_type);
                    assert(occurs(s2e.len() as TypeVar, output));
                    assert forall|v: TypeVar| #[trigger] occurs(v, expected) implies v < self.subst().len() by {
                        if occurs(v, argument_type) {
                        } else {
                            assert(occurs(v, output));
                        }
                    }
                }
                if let Err(d) = self.unify(&function_type, &expected, expr.span) {
                    return Some(Err(d));
                }
                proof {
                    lemma_apply_resolved(self.subst(), output);
                    lemma_resolved_scoped(self.subst(), apply(self.subst(), output));
                }
                Some(Ok(self.resolve(&output)))
            },
            _ => {
                proof {
                    assert(false);
                }
                None
            },
        }
    }

    fn infer_let(&mut self, expr: &Expr, env: &mut TypeEnv) -> (result: Option<LangResult<Type>>)
        requires
            old(self).inv(),
            env_scoped(old(env)@, old(self).subst().len()),
            expr.kind is Let,
        ensures
            final(env)@ == old(env)@,
            reports_checked(result, *final(self), infer_expr(old(self).subst(), *expr, bindings(old(env)@))),
        decreases expr, 0nat,
    {
        let ghost s = self.subst();
        let ghost b = bindings(env@);
        match &expr.kind {
            ExprKind::Let { name, value, body } => {
                let ghost (s1, r) = infer_expr(s, **value, b);
                proof {
                    lemma_infer_grows(s, **value, b);
                    if let Ok(t) = r {
                        lemma_infer_grows(
                            s1,
                            **body,
                            b.push((name@, generalizable(s1, t, b, s1.len()), apply(s1, t))),
                        );
                    }
                }
                let ty = match self.expression(value, env) {
                    Some(Ok(t)) => t,
                    Some(Err(d)) => return Some(Err(d)),
                    None => return None,
                };
                proof {
                    lemma_env_scoped_mono(env@, s.len(), self.subst().len());
                }
                let scheme = self.generalize(&ty, env);
                proof {
                    lemma_bindings_push(env@, *name, scheme);
                    lemma_apply_resolved(self.subst(), ty);
                    lemma_resolved_scoped(self.subst(), apply(self.subst(), ty));
                }
                env.push((name.clone(), scheme));
                let result = self.expression(body, env);
                env.pop();
                result
            },
            _ => {
                proof {
                    assert(false);
                }
                None
            },
        }
    }

    fn mismatch(left: &Type, right: &Type, span: Span) -> (d: Diagnostic)
        ensures
            reports_error(d, Stage::Inference, ErrorKind::TypeMismatch, span),
            d.message@ == unify_message((ErrorKind::TypeMismatch, *left, *right)),
    {
        let message = String::from_str("型が一致しません: ").concat(left.to_text().as_str()).concat(
            " と ",
        ).concat(right.to_text().as_str());
        Diagnostic { stage: Stage::Inference, kind: ErrorKind::TypeMismatch, message, span: Some(span) }
    }

    /// Binds the variable `id` to `ty` unless it occurs in `ty`.
    fn bind_var(&mut self, id: TypeVar, ty: &Type, span: Span) -> (result: LangResult<()>)
        requires
            (id as nat) < old(self).substitutions@.len(),
        ensures
            final(self).next == old(self).next,
            match bind_checked(old(self).substitutions@, id, *ty) {
                Ok(s) => result is Ok && final(self).substitutions@ == s,
                Err(e) => result matches Err(d) && reports_error(d, Stage::Inference, e.0, span)
                    && d.message@ == unify_message(e) && final(self).substitutions@ == old(self).substitutions@,
            },
    {
        if occurs_in(id, ty) {
            return Err(
                Diagnostic {
                    stage: Stage::Inference,
                    kind: ErrorKind::InfiniteType,
                    message: String::from_str("無限型が必要になる式です。"),
                    span: Some(span),
                },
            );
        }
        self.bind(id, ty);
        Ok(())
    }

    /// Makes `left` and `right` the same type by binding variables, or reports why they cannot be.
    fn unify(&mut self, left: &Type, right: &Type, span: Span) -> (result: LangResult<()>)
        requires
            old(self).inv(),
            scoped(old(self).substitutions@.len(), *left),
            scoped(old(self).substitutions@.len(), *right),
        ensures
            final(self).next == old(self).next,
            final(self).substitutions@.len() == old(self).substitutions@.len(),
            match unify(old(self).substitutions@, *left, *right) {
                Ok(s) => result is Ok && final(self).substitutions@ == s,
                Err(e) => result matches Err(d) && reports_error(d, Stage::Inference, e.0, span)
                    && d.message@ == unify_message(e),
            },
            result is Ok ==> final(self).inv(),
        decreases unbound_count(old(self).substitutions@), size(apply(old(self).substitutions@, *left))
            + size(apply(old(self).substitutions@, *right)),
    {
        let ghost s = self.substitutions@;
        proof {
            lemma_unify(s, *left, *right);
            lemma_apply_resolved(s, *left);
            lemma_apply_resolved(s, *right);
        }
        let left = self.resolve(left);
        let right = self.resolve(right);
        if left.same(&right) {
            return Ok(());
        }
        match (&left, &right) {
            (Type::Var(id), ty) => {
                assert(occurs(*id, left));
                self.bind_var(*id, ty, span)
            },
            (ty, Type::Var(id)) => {
                assert(occurs(*id, right));
                self.bind_var(*id, ty, span)
            },
            (Type::Function(a, b), Type::Function(c, d)) => {
                proof {
                    lemma_resolved_parts(s, left);
                    lemma_resolved_parts(s, right);
                    lemma_unify(s, **a, **c);
                }
                self.unify(a, c, span)?;
                let ghost s1 = self.substitutions@;
                proof {
                    assert(unify_keeps(s, s1));
                    assert(scoped(s1.len(), **b));
                    assert(scoped(s1.len(), **d));
                }
                self.unify(b, d, span)
            },
            _ => Err(Self::mismatch(&left, &right, span)),
        }
    }
}

/// The principal type of `expr` in the empty environment, with its type
/// variables numbered in the order the inference made them; or the error,
/// with the kind, place and message `infer_spec` gives. That `infer_spec`
/// gives exactly the principal type where the typing rules give any type is
/// `law_inference_gives_principal_type`.
pub fn infer(expr: &Expr) -> (result: LangResult<Type>)
    requires
        inference_fits(*expr),
    ensures
        match infer_spec(*expr) {
            Ok(t) => result == Ok::<Type, Diagnostic>(t),
            Err((kind, span, message)) => result matches Err(d) && reports_error(d, Stage::Inference, kind, span)
                && d.message@ == message,
        },
{
    match infer_checked(expr) {
        Some(result) => result,
        None => {
            proof {
                assert(false);
            }
            Ok(Type::Int)
        },
    }
}

/// What `infer` gives, on any expression: `None` exactly where the inference
/// would need more type variables than `TypeVar` can number, so that
/// `inference_fits` fails and `infer` cannot be called.
pub fn infer_checked(expr: &Expr) -> (result: Option<LangResult<Type>>)
    ensures
        result is None <==> !inference_fits(*expr),
        result matches Some(r) ==> match infer_spec(*expr) {
            Ok(t) => r == Ok::<Type, Diagnostic>(t),
            Err((kind, span, message)) => r matches Err(d) && reports_error(d, Stage::Inference, kind, span)
                && d.message@ == message,
        },
{
    let mut inference = Inference { next: 0, substitutions: Vec::new() };
    let mut env: TypeEnv = Vec::new();
    proof {
        assert(bindings(env@) =~= seq![]);
        assert(inference.subst() =~= seq![]);
    }
    let ty = match inference.expression(expr, &mut env) {
        Some(Ok(t)) => t,
        Some(Err(d)) => return Some(Err(d)),
        None => return None,
    };
    Some(Ok(inference.resolve(&ty)))
}

} // verus!
