use tiny_ml_core::{
    ast::BinaryOp as Op,
    error::{ErrorKind, Stage},
    infer,
    types::Type as T,
};

#[test]
fn literals_arithmetic_comparison_and_negation() {
    assert_type_eq(infer(&integer(42)).unwrap(), T::Int);
    assert_type_eq(infer(&boolean(true)).unwrap(), T::Bool);
    assert_type_eq(infer(&binary(Op::Add, integer(1), integer(2))).unwrap(), T::Int);
    assert_type_eq(infer(&binary(Op::Less, integer(1), integer(2))).unwrap(), T::Bool);
    assert_type_eq(infer(&negate(integer(3))).unwrap(), T::Int);
}

#[test]
fn identity_and_higher_order_function() {
    assert_type_eq(
        infer(&fun("x", var("x"))).unwrap(),
        arrow(T::Var(0), T::Var(0)),
    );
    let expression = fun("f", fun("x", apply(var("f"), var("x"))));
    assert_type_eq(
        infer(&expression).unwrap(),
        arrow(arrow(T::Var(0), T::Var(1)), arrow(T::Var(0), T::Var(1))),
    );
}

#[test]
fn let_polymorphism() {
    let expression = bind(
        "id",
        fun("x", var("x")),
        bind(
            "a",
            apply(var("id"), integer(42)),
            apply(var("id"), boolean(true)),
        ),
    );
    assert_type_eq(infer(&expression).unwrap(), T::Bool);
}

#[test]
fn lambda_parameter_is_monomorphic() {
    let expression = fun(
        "f",
        bind(
            "a",
            apply(var("f"), integer(42)),
            apply(var("f"), boolean(true)),
        ),
    );
    assert_eq!(
        infer(&expression).unwrap_err().kind,
        ErrorKind::TypeMismatch
    );
}

#[test]
fn let_does_not_generalize_environment_variables() {
    // fun x -> let y = x in let a = y 1 in y true
    let expression = fun(
        "x",
        bind(
            "y",
            var("x"),
            bind("a", apply(var("y"), integer(1)), apply(var("y"), boolean(true))),
        ),
    );
    assert_eq!(
        infer(&expression).unwrap_err().kind,
        ErrorKind::TypeMismatch
    );
}

#[test]
fn conditional_types_and_errors() {
    assert_type_eq(
        infer(&branch(boolean(true), integer(1), integer(2))).unwrap(),
        T::Int,
    );
    for expression in [
        branch(integer(1), integer(2), integer(3)),
        branch(boolean(true), integer(1), boolean(false)),
        binary(Op::Add, integer(1), boolean(true)),
        apply(integer(1), integer(2)),
    ] {
        assert_eq!(
            infer(&expression).unwrap_err().kind,
            ErrorKind::TypeMismatch
        );
    }
}

#[test]
fn unbound_variables_and_nonrecursive_let() {
    for expression in [var("missing"), bind("x", var("x"), var("x"))] {
        let error = infer(&expression).unwrap_err();
        assert_eq!(error.stage, Stage::Inference);
        assert_eq!(error.kind, ErrorKind::UnboundVariable);
    }
}

#[test]
fn self_application_has_no_finite_type() {
    assert_eq!(
        infer(&fun("x", apply(var("x"), var("x"))))
            .unwrap_err()
            .kind,
        ErrorKind::InfiniteType
    );
}

// Builders for expressions written by hand; their spans are placeholders.
use std::collections::BTreeMap;
use tiny_ml_core::{
    ast::{BinaryOp, Expr, ExprKind},
    span::Span,
    types::{Type, TypeVar},
};

// テスト用ASTの位置はダミー。parserの位置情報はparser.rsで検証する。
pub fn expr(kind: ExprKind) -> Expr {
    Expr::new(kind, Span::default())
}
pub fn integer(value: i64) -> Expr {
    expr(ExprKind::Int(value))
}
pub fn boolean(value: bool) -> Expr {
    expr(ExprKind::Bool(value))
}
pub fn var(name: &str) -> Expr {
    expr(ExprKind::Var(name.into()))
}
pub fn fun(name: &str, body: Expr) -> Expr {
    expr(ExprKind::Fun {
        parameter: name.into(),
        body: Box::new(body),
    })
}
pub fn apply(function: Expr, argument: Expr) -> Expr {
    expr(ExprKind::Apply {
        function: Box::new(function),
        argument: Box::new(argument),
    })
}
pub fn bind(name: &str, value: Expr, body: Expr) -> Expr {
    expr(ExprKind::Let {
        name: name.into(),
        value: Box::new(value),
        body: Box::new(body),
    })
}
pub fn binary(op: BinaryOp, left: Expr, right: Expr) -> Expr {
    expr(ExprKind::Binary {
        op,
        left: Box::new(left),
        right: Box::new(right),
    })
}
pub fn branch(condition: Expr, yes: Expr, no: Expr) -> Expr {
    expr(ExprKind::If {
        condition: Box::new(condition),
        then_branch: Box::new(yes),
        else_branch: Box::new(no),
    })
}
pub fn negate(value: Expr) -> Expr {
    expr(ExprKind::Negate(Box::new(value)))
}
pub fn arrow(input: Type, output: Type) -> Type {
    Type::Function(Box::new(input), Box::new(output))
}

/// テストの比較用。型変数番号の全単射による名前の違いだけを無視する。
/// 単一化や型推論には使わない。
pub fn assert_type_eq(actual: Type, expected: Type) {
    fn same(
        a: &Type,
        b: &Type,
        ab: &mut BTreeMap<TypeVar, TypeVar>,
        ba: &mut BTreeMap<TypeVar, TypeVar>,
    ) -> bool {
        match (a, b) {
            (Type::Int, Type::Int) | (Type::Bool, Type::Bool) => true,
            (Type::Var(x), Type::Var(y)) => {
                *ab.entry(*x).or_insert(*y) == *y && *ba.entry(*y).or_insert(*x) == *x
            }
            (Type::Function(a1, a2), Type::Function(b1, b2)) => {
                same(a1, b1, ab, ba) && same(a2, b2, ab, ba)
            }
            _ => false,
        }
    }
    assert!(
        same(
            &actual,
            &expected,
            &mut BTreeMap::new(),
            &mut BTreeMap::new()
        ),
        "actual: {actual:?}, expected: {expected:?}"
    );
}
