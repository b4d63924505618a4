use vstd::prelude::*;

use std::rc::Rc;

use crate::{
    ast::{BinaryOp, Expr, ExprKind},
    error::{reports_error, Diagnostic, ErrorKind, LangResult, Stage},
    span::Span,
    value::{Closure, Value, ValueEnv},
};

verus! {

/// The outcome of evaluating an expression: a value, or the kind, place and
/// message of an error.
pub type Outcome = Result<Value, (ErrorKind, Span, Seq<char>)>;

/// The message of an error that an arithmetic operator reports.
pub open spec fn arithmetic_message(kind: ErrorKind) -> Seq<char> {
    if kind == ErrorKind::DivisionByZero {
        "ゼロで除算できません。"@
    } else {
        "整数演算が許容範囲を超えました。"@
    }
}

/// The quotient of `a` by `b` rounded toward zero (`b != 0`).
pub open spec fn quotient(a: int, b: int) -> int {
    if a >= 0 && b > 0 {
        a / b
    } else if a < 0 && b < 0 {
        (-a) / (-b)
    } else if a < 0 {
        -((-a) / b)
    } else {
        -(a / (-b))
    }
}

/// An integer result, or `Overflow` where it does not fit in 64 bits.
pub open spec fn in_range(n: int) -> Result<Value, ErrorKind> {
    if i64::MIN <= n <= i64::MAX {
        Ok(Value::Int(n as i64))
    } else {
        Err(ErrorKind::Overflow)
    }
}

/// What a binary operator gives on two integers.
pub open spec fn arithmetic(op: BinaryOp, a: i64, b: i64) -> Result<Value, ErrorKind> {
    match op {
        BinaryOp::Add => in_range(a + b),
        BinaryOp::Subtract => in_range(a - b),
        BinaryOp::Multiply => in_range(a * b),
        BinaryOp::Divide => if b == 0 {
            Err(ErrorKind::DivisionByZero)
        } else {
            in_range(quotient(a as int, b as int))
        },
        BinaryOp::Less => Ok(Value::Bool(a < b)),
    }
}

/// Call-by-value evaluation of `expr` in `env`, with nesting of evaluations
/// limited to `depth`: `None` where the evaluation needs deeper nesting (or
/// does not end). Subexpressions are evaluated left to right; the first
/// error stops the evaluation.
pub open spec fn spec_eval(expr: Expr, env: ValueEnv, depth: nat) -> Option<Outcome>
    decreases depth,
{
    if depth == 0 {
        None
    } else {
        let d = (depth - 1) as nat;
        match expr.kind {
            ExprKind::Int(value) => Some(Ok(Value::Int(value))),
            ExprKind::Bool(value) => Some(Ok(Value::Bool(value))),
            ExprKind::Var(name) => match env.lookup(name@) {
                Some(value) => Some(Ok(value)),
                None => Some(Err((ErrorKind::UnboundVariable, expr.span, "未束縛の変数です: "@ + name@))),
            },
            ExprKind::Negate(inner) => match spec_eval(*inner, env, d) {
                Some(Ok(Value::Int(n))) => if n == i64::MIN {
                    Some(Err((ErrorKind::Overflow, expr.span, "整数演算が許容範囲を超えました。"@)))
                } else {
                    Some(Ok(Value::Int((-n) as i64)))
                },
                Some(Ok(_)) => Some(Err((ErrorKind::TypeMismatch, inner.span, "整数が必要です。"@))),
                other => other,
            },
            ExprKind::Binary { op, left, right } => match spec_eval(*left, env, d) {
                Some(Ok(a)) => match spec_eval(*right, env, d) {
                    Some(Ok(b)) => match (a, b) {
                        (Value::Int(x), Value::Int(y)) => match arithmetic(op, x, y) {
                            Ok(value) => Some(Ok(value)),
                            Err(kind) => Some(Err((kind, expr.span, arithmetic_message(kind)))),
                        },
                        (Value::Int(_), _) => Some(Err((ErrorKind::TypeMismatch, right.span, "整数が必要です。"@))),
                        _ => Some(Err((ErrorKind::TypeMismatch, left.span, "整数が必要です。"@))),
                    },
                    other => other,
                },
                other => other,
            },
            ExprKind::If { condition, then_branch, else_branch } => match spec_eval(
                *condition,
                env,
                d,
            ) {
                Some(Ok(Value::Bool(true))) => spec_eval(*then_branch, env, d),
                Some(Ok(Value::Bool(false))) => spec_eval(*else_branch, env, d),
                Some(Ok(_)) => Some(Err((ErrorKind::TypeMismatch, condition.span, "条件には真偽値が必要です。"@))),
                other => other,
            },
            ExprKind::Let { name, value, body } => match spec_eval(*value, env, d) {
                Some(Ok(v)) => spec_eval(
                    *body,
                    ValueEnv::Bind { name, value: v, rest: Rc::new(env) },
                    d,
                ),
                other => other,
            },
            ExprKind::Fun { parameter, body } => Some(
                Ok(Value::Closure(Rc::new(Closure { parameter, body: *body, environment: env }))),
            ),
            ExprKind::Apply { function, argument } => match spec_eval(*function, env, d) {
                Some(Ok(f)) => match spec_eval(*argument, env, d) {
                    Some(Ok(a)) => match f {
                        Value::Closure(c) => spec_eval(
                            c.body,
                            ValueEnv::Bind { name: c.parameter, value: a, rest: Rc::new(c.environment) },
                            d,
                        ),
                        _ => Some(Err((ErrorKind::NotCallable, function.span, "関数以外の値は呼び出せません。"@))),
                    },
                    other => other,
                },
                other => other,
            },
        }
    }
}

/// The body of a closure.
pub open spec fn closure_body(c: Rc<Closure>) -> Expr {
    c.body
}

/// The environment that a call of closure `c` on `argument` evaluates its body in.
pub open spec fn called_in(c: Rc<Closure>, argument: Value) -> ValueEnv {
    ValueEnv::Bind { name: c.parameter, value: argument, rest: Rc::new(c.environment) }
}

/// More room for nesting never changes an evaluation that finished: where
/// `spec_eval` gives a result at some depth, it gives the same result at
/// every greater depth. So the depth bound decides only whether there is a
/// result, never which.
pub proof fn law_deeper_evaluation_agrees(expr: Expr, env: ValueEnv, depth: nat, deeper: nat)
    requires
        depth <= deeper,
    ensures
        spec_eval(expr, env, depth) matches Some(outcome) ==> spec_eval(expr, env, deeper) == Some(
            outcome,
        ),
    decreases depth,
{
    if depth > 0 {
        let d = (depth - 1) as nat;
        let d2 = (deeper - 1) as nat;
        match expr.kind {
            ExprKind::Negate(inner) => {
                law_deeper_evaluation_agrees(*inner, env, d, d2);
            },
            ExprKind::Binary { op, left, right } => {
                law_deeper_evaluation_agrees(*left, env, d, d2);
                law_deeper_evaluation_agrees(*right, env, d, d2);
            },
            ExprKind::If { condition, then_branch, else_branch } => {
                law_deeper_evaluation_agrees(*condition, env, d, d2);
                law_deeper_evaluation_agrees(*then_branch, env, d, d2);
                law_deeper_evaluation_agrees(*else_branch, env, d, d2);
            },
            ExprKind::Let { name, value, body } => {
                law_deeper_evaluation_agrees(*value, env, d, d2);
                if let Some(Ok(v)) = spec_eval(*value, env, d) {
                    let local = ValueEnv::Bind { name, value: v, rest: Rc::new(env) };
                    law_deeper_evaluation_agrees(*body, local, d, d2);
                }
            },
            ExprKind::Apply { function, argument } => {
                law_deeper_evaluation_agrees(*function, env, d, d2);
                law_deeper_evaluation_agrees(*argument, env, d, d2);
                if let Some(Ok(Value::Closure(c))) = spec_eval(*function, env, d) {
                    if let Some(Ok(a)) = spec_eval(*argument, env, d) {
                        law_deeper_evaluation_agrees(closure_body(c), called_in(c, a), d, d2);
                    }
                }
            },
            _ => {},
        }
    }
}

/// `let x = v in b` evaluates as `(fun x -> b) v` does, at every depth and
/// wherever the phrases stand: both evaluate `v` first, then `b` with `x`
/// bound to its value.
pub proof fn law_let_is_application(
    name: String,
    value: Expr,
    body: Expr,
    env: ValueEnv,
    depth: nat,
    let_span: Span,
    fun_span: Span,
    apply_span: Span,
)
    ensures
        spec_eval(
            Expr {
                kind: ExprKind::Let { name: name, value: Box::new(value), body: Box::new(body) },
                span: let_span,
            },
            env,
            depth,
        ) == spec_eval(
            Expr {
                kind: ExprKind::Apply {
                    function: Box::new(
                        Expr { kind: ExprKind::Fun { parameter: name, body: Box::new(body) }, span: fun_span },
                    ),
                    argument: Box::new(value),
                },
                span: apply_span,
            },
            env,
            depth,
        ),
{
    let bound = Expr {
        kind: ExprKind::Let { name: name, value: Box::new(value), body: Box::new(body) },
        span: let_span,
    };
    let function = Expr { kind: ExprKind::Fun { parameter: name, body: Box::new(body) }, span: fun_span };
    let applied = Expr {
        kind: ExprKind::Apply { function: Box::new(function), argument: Box::new(value) },
        span: apply_span,
    };
    if depth == 1 {
        assert(spec_eval(value, env, 0) is None);
        assert(spec_eval(function, env, 0) is None);
        assert(spec_eval(bound, env, depth) is None);
        assert(spec_eval(applied, env, depth) is None);
    } else if depth >= 2 {
        let d = (depth - 1) as nat;
        let closure = Rc::new(Closure { parameter: name, body: body, environment: env });
        assert(spec_eval(function, env, d) == Some(Ok::<Value, (ErrorKind, Span, Seq<char>)>(Value::Closure(closure))));
        match spec_eval(value, env, d) {
            Some(Ok(v)) => {
                let local = ValueEnv::Bind { name: name, value: v, rest: Rc::new(env) };
                assert(spec_eval(bound, env, depth) == spec_eval(body, local, d));
                assert(called_in(closure, v) == local);
                assert(spec_eval(applied, env, depth) == spec_eval(closure_body(closure), called_in(closure, v), d));
            },
            other => {
                assert(spec_eval(bound, env, depth) == other);
                assert(spec_eval(applied, env, depth) == other);
            },
        }
    }
}

/// `a op b` on two integer literals, at the given places.
pub open spec fn operation(op: BinaryOp, a: i64, b: i64, at_a: Span, at_b: Span, at: Span) -> Expr {
    Expr {
        kind: ExprKind::Binary {
            op,
            left: Box::new(Expr { kind: ExprKind::Int(a), span: at_a }),
            right: Box::new(Expr { kind: ExprKind::Int(b), span: at_b }),
        },
        span: at,
    }
}

/// `q` is `a / b` rounded toward zero: the remainder `a - q * b` is smaller
/// than `b` in size and is zero or has the sign of `a`.
pub open spec fn truncated_quotient(a: int, b: int, q: int) -> bool {
    let r = a - q * b;
    &&& (if b > 0 { -b < r < b } else { b < r < -b })
    &&& (r == 0 || (r < 0) == (a < 0))
}

proof fn lemma_quotient(a: int, b: int)
    requires
        b != 0,
        i64::MIN <= a <= i64::MAX,
        i64::MIN <= b <= i64::MAX,
    ensures
        truncated_quotient(a, b, quotient(a, b)),
        !(a == i64::MIN && b == -1) ==> i64::MIN <= quotient(a, b) <= i64::MAX,
{
    let q = quotient(a, b);
    if a >= 0 && b > 0 {
        assert(a == (a / b) * b + a % b && 0 <= a % b < b && 0 <= a / b <= a) by (nonlinear_arith)
            requires a >= 0, b > 0;
    } else if a < 0 && b < 0 {
        let (x, y) = (-a, -b);
        assert(x == (x / y) * y + x % y && 0 <= x % y < y && 0 <= x / y <= x) by (nonlinear_arith)
            requires x > 0, y > 0;
        assert(a - q * b == -(x % y)) by (nonlinear_arith)
            requires q == x / y, x == (x / y) * y + x % y, a == -x, b == -y;
        if a == i64::MIN && b != -1 {
            assert(x / y <= x / 2) by (nonlinear_arith)
                requires x > 0, y >= 2;
        }
    } else if a < 0 {
        let x = -a;
        assert(x == (x / b) * b + x % b && 0 <= x % b < b && 0 <= x / b <= x) by (nonlinear_arith)
            requires x > 0, b > 0;
        assert(a - q * b == -(x % b)) by (nonlinear_arith)
            requires q == -(x / b), x == (x / b) * b + x % b, a == -x;
    } else {
        let y = -b;
        assert(a == (a / y) * y + a % y && 0 <= a % y < y && 0 <= a / y <= a) by (nonlinear_arith)
            requires a >= 0, y > 0;
        assert(a - q * b == a % y) by (nonlinear_arith)
            requires q == -(a / y), a == (a / y) * y + a % y, b == -y;
    }
}

/// What the integer operators compute, on two integer literals in any
/// environment: `<` is strict less-than (so `n < n` is `false`); `+`, `-` and
/// `*` give the exact sum, difference and product, and fail with `Overflow`
/// at the operation's place exactly where that leaves 64 bits; `/` fails with
/// `DivisionByZero` on a zero divisor, with `Overflow` on the one quotient
/// that leaves 64 bits, and otherwise rounds toward zero.
pub proof fn law_integer_operators(
    op: BinaryOp,
    a: i64,
    b: i64,
    at_a: Span,
    at_b: Span,
    at: Span,
    env: ValueEnv,
    depth: nat,
)
    requires
        depth >= 2,
    ensures
        ({
            let result = spec_eval(operation(op, a, b, at_a, at_b, at), env, depth);
            let fits = |n: int| i64::MIN <= n <= i64::MAX;
            let overflow = result matches Some(Err((kind, span, _))) && kind == ErrorKind::Overflow
                && span == at;
            &&& op == BinaryOp::Less ==> result == Some(Ok::<Value, (ErrorKind, Span, Seq<char>)>(Value::Bool(a < b)))
            &&& op == BinaryOp::Add ==> if fits(a + b) {
                result == Some(Ok::<Value, (ErrorKind, Span, Seq<char>)>(Value::Int((a + b) as i64)))
            } else {
                overflow
            }
            &&& op == BinaryOp::Subtract ==> if fits(a - b) {
                result == Some(Ok::<Value, (ErrorKind, Span, Seq<char>)>(Value::Int((a - b) as i64)))
            } else {
                overflow
            }
            &&& op == BinaryOp::Multiply ==> if fits(a * b) {
                result == Some(Ok::<Value, (ErrorKind, Span, Seq<char>)>(Value::Int((a * b) as i64)))
            } else {
                overflow
            }
            &&& op == BinaryOp::Divide ==> if b == 0 {
                result matches Some(Err((kind, span, _))) && kind == ErrorKind::DivisionByZero && span == at
            } else if a == i64::MIN && b == -1 {
                overflow
            } else {
                result matches Some(Ok(Value::Int(q))) && truncated_quotient(a as int, b as int, q as int)
            }
        }),
{
    let e = operation(op, a, b, at_a, at_b, at);
    let d = (depth - 1) as nat;
    assert(spec_eval(*e.kind->left, env, d) == Some(Ok::<Value, (ErrorKind, Span, Seq<char>)>(Value::Int(a))));
    assert(spec_eval(*e.kind->right, env, d) == Some(Ok::<Value, (ErrorKind, Span, Seq<char>)>(Value::Int(b))));
    if op == BinaryOp::Divide && b != 0 {
        lemma_quotient(a as int, b as int);
        if a == i64::MIN && b == -1 {
            assert(quotient(a as int, b as int) == -(i64::MIN as int));
        }
    }
}

/// `-n` on an integer literal gives the negated integer, and fails with
/// `Overflow` at the negation's place only on the one integer whose negation
/// leaves 64 bits.
pub proof fn law_negation(n: i64, at_n: Span, at: Span, env: ValueEnv, depth: nat)
    requires
        depth >= 2,
    ensures
        ({
            let e = Expr {
                kind: ExprKind::Negate(Box::new(Expr { kind: ExprKind::Int(n), span: at_n })),
                span: at,
            };
            let result = spec_eval(e, env, depth);
            if n == i64::MIN {
                result matches Some(Err((kind, span, _))) && kind == ErrorKind::Overflow && span == at
            } else {
                result matches Some(Ok(Value::Int(m))) && m + n == 0
            }
        }),
{
    let inner = Expr { kind: ExprKind::Int(n), span: at_n };
    assert(spec_eval(inner, env, (depth - 1) as nat) == Some(Ok::<Value, (ErrorKind, Span, Seq<char>)>(Value::Int(n))));
}

/// `result` is what the evaluator reports for `outcome`.
pub open spec fn reports(result: Option<LangResult<Value>>, outcome: Option<Outcome>) -> bool {
    match outcome {
        None => result is None,
        Some(Ok(value)) => result == Some(Ok::<Value, Diagnostic>(value)),
        Some(Err((kind, span, message))) => result matches Some(Err(d)) && reports_error(
            d,
            Stage::Evaluation,
            kind,
            span,
        ) && d.message@ == message,
    }
}

/// Evaluates `expr` in the empty environment.
pub fn eval(expr: &Expr) -> (result: LangResult<Value>)
    requires
        spec_eval(*expr, ValueEnv::Empty, usize::MAX as nat) is Some,
    ensures
        reports(Some(result), spec_eval(*expr, ValueEnv::Empty, usize::MAX as nat)),
{
    match evaluate(expr, &ValueEnv::new(), usize::MAX) {
        Some(result) => result,
        None => {
            proof {
                assert(false);
            }
            Err(error(expr, ErrorKind::Overflow, String::new()))
        },
    }
}

/// Evaluates `expr` in the empty environment with nesting limited to `depth`.
pub fn eval_with_depth(expr: &Expr, depth: usize) -> (result: Option<LangResult<Value>>)
    ensures
        reports(result, spec_eval(*expr, ValueEnv::Empty, depth as nat)),
{
    evaluate(expr, &ValueEnv::new(), depth)
}

fn error(expr: &Expr, kind: ErrorKind, message: String) -> (d: Diagnostic)
    ensures
        reports_error(d, Stage::Evaluation, kind, expr.span),
        d.message == message,
{
    Diagnostic { stage: Stage::Evaluation, kind, message, span: Some(expr.span) }
}

fn integer(value: Value, expr: &Expr) -> (result: LangResult<i64>)
    ensures
        match value {
            Value::Int(n) => result == Ok::<i64, Diagnostic>(n),
            _ => result matches Err(d) && reports_error(
                d,
                Stage::Evaluation,
                ErrorKind::TypeMismatch,
                expr.span,
            ) && d.message@ == "整数が必要です。"@,
        },
{
    match value {
        Value::Int(n) => Ok(n),
        _ => Err(error(expr, ErrorKind::TypeMismatch, String::from_str("整数が必要です。"))),
    }
}

fn checked(value: Option<i64>, expr: &Expr) -> (result: LangResult<Value>)
    ensures
        match value {
            Some(n) => result == Ok::<Value, Diagnostic>(Value::Int(n)),
            None => result matches Err(d) && reports_error(
                d,
                Stage::Evaluation,
                ErrorKind::Overflow,
                expr.span,
            ) && d.message@ == "整数演算が許容範囲を超えました。"@,
        },
{
    match value {
        Some(n) => Ok(Value::Int(n)),
        None => Err(
            error(expr, ErrorKind::Overflow, String::from_str("整数演算が許容範囲を超えました。")),
        ),
    }
}

fn evaluate(expr: &Expr, env: &ValueEnv, depth: usize) -> (result: Option<LangResult<Value>>)
    ensures
        reports(result, spec_eval(*expr, *env, depth as nat)),
    decreases depth,
{
    if depth == 0 {
        return None;
    }
    let d = depth - 1;
    match &expr.kind {
        ExprKind::Int(value) => Some(Ok(Value::Int(*value))),
        ExprKind::Bool(value) => Some(Ok(Value::Bool(*value))),
        ExprKind::Var(name) => match env.get(name) {
            Some(value) => Some(Ok(value)),
            None => {
                let message = String::from_str("未束縛の変数です: ").concat(name.as_str());
                Some(Err(error(expr, ErrorKind::UnboundVariable, message)))
            },
        },
        ExprKind::Negate(inner) => {
            let value = match evaluate(inner, env, d) {
                Some(Ok(value)) => value,
                other => return other,
            };
            let n = match integer(value, inner) {
                Ok(n) => n,
                Err(e) => return Some(Err(e)),
            };
            let negated = if n == i64::MIN {
                None
            } else {
                Some(-n)
            };
            Some(checked(negated, expr))
        },
        ExprKind::Binary { op, left, right } => {
            let a = match evaluate(left, env, d) {
                Some(Ok(value)) => value,
                other => return other,
            };
            let b = match evaluate(right, env, d) {
                Some(Ok(value)) => value,
                other => return other,
            };
            let a = match integer(a, left) {
                Ok(n) => n,
                Err(e) => return Some(Err(e)),
            };
            let b = match integer(b, right) {
                Ok(n) => n,
                Err(e) => return Some(Err(e)),
            };
            Some(
                match op {
                    BinaryOp::Add => checked(a.checked_add(b), expr),
                    BinaryOp::Subtract => checked(a.checked_sub(b), expr),
                    BinaryOp::Multiply => checked(a.checked_mul(b), expr),
                    BinaryOp::Divide => if b == 0 {
                        Err(
                            error(
                                expr,
                                ErrorKind::DivisionByZero,
                                String::from_str("ゼロで除算できません。"),
                            ),
                        )
                    } else {
                        checked(a.checked_div(b), expr)
                    },
                    BinaryOp::Less => Ok(Value::Bool(a < b)),
                },
            )
        },
        ExprKind::If { condition, then_branch, else_branch } => match evaluate(condition, env, d) {
            Some(Ok(Value::Bool(true))) => evaluate(then_branch, env, d),
            Some(Ok(Value::Bool(false))) => evaluate(else_branch, env, d),
            Some(Ok(_)) => Some(
                Err(
                    error(
                        condition,
                        ErrorKind::TypeMismatch,
                        String::from_str("条件には真偽値が必要です。"),
                    ),
                ),
            ),
            other => other,
        },
        ExprKind::Let { name, value, body } => {
            let v = match evaluate(value, env, d) {
                Some(Ok(v)) => v,
                other => return other,
            };
            let local = env.bind(name.clone(), v);
            evaluate(body, &local, d)
        },
        ExprKind::Fun { parameter, body } => {
            let closure = Closure {
                parameter: parameter.clone(),
                body: body.duplicate(),
                environment: env.share(),
            };
            Some(Ok(Value::Closure(Rc::new(closure))))
        },
        ExprKind::Apply { function, argument } => {
            let function_value = match evaluate(function, env, d) {
                Some(Ok(value)) => value,
                other => return other,
            };
            let argument_value = match evaluate(argument, env, d) {
                Some(Ok(value)) => value,
                other => return other,
            };
            match function_value {
                Value::Closure(closure) => {
                    let local = closure.environment.bind(closure.parameter.clone(), argument_value);
                    evaluate(&closure.body, &local, d)
                },
                _ => Some(
                    Err(
                        error(
                            function,
                            ErrorKind::NotCallable,
                            String::from_str("関数以外の値は呼び出せません。"),
                        ),
                    ),
                ),
            }
        },
    }
}

} // verus!
