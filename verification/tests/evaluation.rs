use tiny_ml_core::{
    ast::BinaryOp as Op,
    error::{ErrorKind, Stage},
    eval,
    value::Value,
};

fn assert_int(expression: tiny_ml_core::ast::Expr, expected: i64) {
    assert!(matches!(eval(&expression).unwrap(), Value::Int(actual) if actual == expected));
}

#[test]
fn arithmetic_and_comparison() {
    for (op, left, right, expected) in [
        (Op::Add, 2, 3, 5),
        (Op::Subtract, 2, 3, -1),
        (Op::Multiply, 2, 3, 6),
        (Op::Divide, -7, 2, -3),
    ] {
        assert_int(binary(op, integer(left), integer(right)), expected);
    }
    assert_int(negate(integer(3)), -3);
    assert!(matches!(
        eval(&binary(Op::Less, integer(1), integer(2))).unwrap(),
        Value::Bool(true)
    ));
}

#[test]
fn conditional_only_evaluates_selected_branch() {
    assert_int(
        branch(boolean(true), integer(42), binary(Op::Divide, integer(1), integer(0))),
        42,
    );
    assert_int(branch(boolean(false), var("missing"), integer(7)), 7);
}

#[test]
fn binding_shadowing_and_closures() {
    assert_int(bind("x", integer(1), bind("x", integer(2), var("x"))), 2);
    assert_int(apply(fun("x", var("x")), integer(42)), 42);
    assert!(matches!(
        eval(&fun("x", var("x"))).unwrap(),
        Value::Closure(_)
    ));
    let expression = bind(
        "x",
        integer(10),
        bind(
            "f",
            fun("y", binary(Op::Add, var("x"), var("y"))),
            bind("x", integer(100), apply(var("f"), integer(2))),
        ),
    );
    assert_int(expression, 12);
}

#[test]
fn higher_order_closure_retains_parameter() {
    let expression = apply(
        apply(
            fun("x", fun("y", binary(Op::Add, var("x"), var("y")))),
            integer(40),
        ),
        integer(2),
    );
    assert_int(expression, 42);
}

#[test]
fn call_by_value_and_left_to_right() {
    let zero_division = binary(Op::Divide, integer(1), integer(0));
    assert_eq!(
        eval(&apply(fun("x", integer(42)), zero_division.clone()))
            .unwrap_err()
            .kind,
        ErrorKind::DivisionByZero
    );
    assert_eq!(
        eval(&apply(var("missing"), zero_division.clone()))
            .unwrap_err()
            .kind,
        ErrorKind::UnboundVariable
    );
    assert_eq!(
        eval(&binary(Op::Add, zero_division, var("missing")))
            .unwrap_err()
            .kind,
        ErrorKind::DivisionByZero
    );
}

#[test]
fn overflow_and_zero_division() {
    for expression in [
        binary(Op::Add, integer(i64::MAX), integer(1)),
        binary(Op::Subtract, integer(i64::MIN), integer(1)),
        binary(Op::Multiply, integer(i64::MAX), integer(2)),
        binary(Op::Divide, integer(i64::MIN), integer(-1)),
        negate(integer(i64::MIN)),
    ] {
        assert_eq!(eval(&expression).unwrap_err().kind, ErrorKind::Overflow);
    }
    assert_eq!(
        eval(&binary(Op::Divide, integer(1), integer(0))).unwrap_err().kind,
        ErrorKind::DivisionByZero
    );
}

#[test]
fn runtime_errors_without_type_inference() {
    let error = eval(&var("missing")).unwrap_err();
    assert_eq!(error.stage, Stage::Evaluation);
    assert_eq!(error.kind, ErrorKind::UnboundVariable);
    assert_eq!(
        eval(&apply(integer(1), integer(2))).unwrap_err().kind,
        ErrorKind::NotCallable
    );
    for expression in [
        binary(Op::Add, integer(1), boolean(true)),
        branch(integer(1), integer(2), integer(3)),
        negate(boolean(true)),
    ] {
        assert_eq!(eval(&expression).unwrap_err().kind, ErrorKind::TypeMismatch);
    }
    assert_eq!(
        eval(&bind("x", var("x"), var("x"))).unwrap_err().kind,
        ErrorKind::UnboundVariable
    );
}

// Builders for expressions written by hand; their spans are placeholders.
use tiny_ml_core::{
    ast::{BinaryOp, Expr, ExprKind},
    span::Span,
};

// テスト用ASTの位置はダミー。parserの位置情報はparser.rsで検証する。
pub fn expr(kind: ExprKind) -> Expr {
    Expr::new(kind, Span::default())
}
pub fn integer(value: i64) -> Expr {
    expr(ExprKind::Int(value))
}
pub fn boolean(value: bool) -> Expr {
    expr(ExprKind::Bool(value))
}
pub fn var(name: &str) -> Expr {
    expr(ExprKind::Var(name.into()))
}
pub fn fun(name: &str, body: Expr) -> Expr {
    expr(ExprKind::Fun {
        parameter: name.into(),
        body: Box::new(body),
    })
}
pub fn apply(function: Expr, argument: Expr) -> Expr {
    expr(ExprKind::Apply {
        function: Box::new(function),
        argument: Box::new(argument),
    })
}
pub fn bind(name: &str, value: Expr, body: Expr) -> Expr {
    expr(ExprKind::Let {
        name: name.into(),
        value: Box::new(value),
        body: Box::new(body),
    })
}
pub fn binary(op: BinaryOp, left: Expr, right: Expr) -> Expr {
    expr(ExprKind::Binary {
        op,
        left: Box::new(left),
        right: Box::new(right),
    })
}
pub fn branch(condition: Expr, yes: Expr, no: Expr) -> Expr {
    expr(ExprKind::If {
        condition: Box::new(condition),
        then_branch: Box::new(yes),
        else_branch: Box::new(no),
    })
}
pub fn negate(value: Expr) -> Expr {
    expr(ExprKind::Negate(Box::new(value)))
}
