use std::rc::Rc;

use tiny_ml_core::{
    ast::{BinaryOp, Expr, ExprKind},
    display::decimal_text,
    error::{Diagnostic, ErrorKind, Stage},
    eval,
    eval::eval_with_depth,
    infer, infer_checked, lex, parse,
    span::Span,
    token::TokenKind,
    types::{Type, TypeScheme},
    value::{Closure, Value, ValueEnv},
};

fn parsed(source: &str) -> Expr {
    parse(&lex(source).expect("lexes")).expect("parses")
}

fn run(source: &str) -> Result<Value, Diagnostic> {
    eval(&parsed(source))
}

fn type_of(source: &str) -> Result<Type, Diagnostic> {
    infer(&parsed(source))
}

fn arrow(input: Type, output: Type) -> Type {
    Type::Function(Box::new(input), Box::new(output))
}

fn int_value(value: Value) -> i64 {
    match value {
        Value::Int(n) => n,
        other => panic!("expected an integer, got {}", other.to_text()),
    }
}

fn hand(kind: ExprKind) -> Expr {
    Expr::new(kind, Span::new(0, 1))
}

#[test]
fn source_runs_through_every_stage() {
    let source = "let id = fun x -> x in if id true then id 40 + 2 else 0";
    assert_eq!(type_of(source).unwrap(), Type::Int);
    assert_eq!(int_value(run(source).unwrap()), 42);
}

#[test]
fn closures_capture_the_environment_of_their_definition() {
    let source = "let x = 1 in let f = fun y -> x + y in let x = 100 in f 10";
    assert_eq!(int_value(run(source).unwrap()), 11);
}

#[test]
fn curried_application_and_precedence() {
    assert_eq!(int_value(run("(fun a -> fun b -> a - b) 10 3").unwrap()), 7);
    assert_eq!(int_value(run("1 + 2 * 3 - 4 / 2").unwrap()), 5);
    assert_eq!(int_value(run("-(2 + 3) * 2").unwrap()), -10);
    assert!(matches!(run("1 + 2 < 2 * 2").unwrap(), Value::Bool(true)));
}

#[test]
fn division_rounds_toward_zero() {
    assert_eq!(int_value(run("7 / -2").unwrap()), -3);
    assert_eq!(int_value(run("-7 / -2").unwrap()), 3);
    assert_eq!(int_value(run("7 / 2").unwrap()), 3);
}

#[test]
fn each_evaluation_error_kind() {
    let cases = [
        ("1 / 0", ErrorKind::DivisionByZero, Span::new(0, 5)),
        ("9223372036854775807 + 1", ErrorKind::Overflow, Span::new(0, 23)),
        ("1 + true", ErrorKind::TypeMismatch, Span::new(4, 8)),
        ("true + 1", ErrorKind::TypeMismatch, Span::new(0, 4)),
        ("if 1 then 2 else 3", ErrorKind::TypeMismatch, Span::new(3, 4)),
        ("1 2", ErrorKind::NotCallable, Span::new(0, 1)),
        ("y", ErrorKind::UnboundVariable, Span::new(0, 1)),
    ];
    for (source, kind, span) in cases {
        let error = run(source).unwrap_err();
        assert_eq!(error.stage, Stage::Evaluation, "{source}");
        assert_eq!(error.kind, kind, "{source}");
        assert_eq!(error.span, Some(span), "{source}");
        assert!(!error.message.is_empty());
    }
    assert_eq!(run("y").unwrap_err().message, "未束縛の変数です: y");
}

#[test]
fn negating_the_smallest_integer_overflows() {
    let expression = hand(ExprKind::Negate(Box::new(hand(ExprKind::Int(i64::MIN)))));
    assert_eq!(eval(&expression).unwrap_err().kind, ErrorKind::Overflow);
    let quotient = hand(ExprKind::Binary {
        op: BinaryOp::Divide,
        left: Box::new(hand(ExprKind::Int(i64::MIN))),
        right: Box::new(hand(ExprKind::Int(-1))),
    });
    assert_eq!(eval(&quotient).unwrap_err().kind, ErrorKind::Overflow);
}

#[test]
fn nesting_depth_decides_only_whether_there_is_a_result() {
    let expression = parsed("let f = fun x -> x * 2 in f (f (f 1))");
    assert!(eval_with_depth(&expression, 0).is_none());
    assert!(eval_with_depth(&expression, 2).is_none());
    let full = eval(&expression).unwrap();
    for depth in [6, 7, 50, 1000] {
        match eval_with_depth(&expression, depth) {
            Some(Ok(value)) => assert_eq!(int_value(value), int_value(full.share())),
            Some(Err(error)) => panic!("depth {depth}: {}", error.to_text()),
            None => {}
        }
    }
    assert!(matches!(eval_with_depth(&expression, 1000), Some(Ok(Value::Int(8)))));
}

#[test]
fn inference_errors_and_let_polymorphism() {
    assert_eq!(type_of("fun x -> x x").unwrap_err().kind, ErrorKind::InfiniteType);
    assert_eq!(type_of("1 + true").unwrap_err().kind, ErrorKind::TypeMismatch);
    assert_eq!(type_of("z").unwrap_err().kind, ErrorKind::UnboundVariable);
    assert_eq!(type_of("z").unwrap_err().stage, Stage::Inference);
    assert_eq!(
        type_of("(fun id -> if id true then id 1 else 2) (fun x -> x)").unwrap_err().kind,
        ErrorKind::TypeMismatch
    );
    assert_eq!(
        type_of("let id = fun x -> x in if id true then id 1 else 2").unwrap(),
        Type::Int
    );
    assert_eq!(type_of("fun x -> x").unwrap().to_text(), "'t0 -> 't0");
    assert_eq!(type_of("fun x -> fun y -> x").unwrap().to_text(), "'t0 -> 't1 -> 't0");
}

#[test]
fn type_values_and_diagnostics_render_as_text() {
    let ty = arrow(arrow(Type::Var(0), Type::Var(1)), arrow(Type::Var(0), Type::Var(1)));
    assert_eq!(ty.to_text(), "('t0 -> 't1) -> 't0 -> 't1");
    assert_eq!(arrow(Type::Int, Type::Bool).to_text(), "int -> bool");
    assert_eq!(Type::Var(12).to_text(), "'t12");
    assert_eq!(Value::Int(-42).to_text(), "-42");
    assert_eq!(Value::Int(i64::MIN).to_text(), "-9223372036854775808");
    assert_eq!(Value::Int(i64::MAX).to_text(), "9223372036854775807");
    assert_eq!(Value::Bool(false).to_text(), "false");
    let closure = Closure {
        parameter: "x".to_string(),
        body: hand(ExprKind::Var("x".to_string())),
        environment: ValueEnv::new(),
    };
    assert_eq!(Value::Closure(Rc::new(closure)).to_text(), "<fun>");
    let located = Diagnostic::new(Stage::Parser, ErrorKind::UnexpectedToken, "msg", Some(Span::new(1, 3)));
    assert_eq!(located.to_text(), "parser: msg (bytes 1..3)");
    let bare = Diagnostic::new(Stage::Evaluation, ErrorKind::Overflow, String::from("m"), None);
    assert_eq!(bare.to_text(), "評価器: m");
    assert_eq!(decimal_text(0), "0");
    assert_eq!(decimal_text(1234567890), "1234567890");
    assert_eq!(decimal_text(u64::MAX), "18446744073709551615");
}

#[test]
fn unimplemented_diagnostics_name_their_stage() {
    for (stage, name) in [
        (Stage::Lexer, "lexer"),
        (Stage::Parser, "parser"),
        (Stage::Inference, "型推論"),
        (Stage::Evaluation, "評価器"),
    ] {
        assert_eq!(stage.name(), name);
        let d = Diagnostic::unimplemented(stage);
        assert_eq!(d.stage, stage);
        assert_eq!(d.kind, ErrorKind::Unimplemented);
        assert_eq!(d.span, None);
        assert_eq!(d.message, format!("{name}はまだ実装されていません。"));
    }
}

#[test]
fn lexer_errors_carry_their_bytes() {
    let error = lex("1 $").unwrap_err();
    assert_eq!(error.kind, ErrorKind::UnexpectedCharacter);
    assert_eq!(error.stage, Stage::Lexer);
    assert_eq!(error.span, Some(Span::new(2, 3)));
    assert_eq!(error.message, "使えない文字です: '$'");
    let wide = lex("x あ").unwrap_err();
    assert_eq!(wide.span, Some(Span::new(2, 5)));
    assert_eq!(wide.message, "使えない文字です: 'あ'");
    let big = lex("99999999999999999999").unwrap_err();
    assert_eq!(big.kind, ErrorKind::IntegerOutOfRange);
    assert_eq!(big.span, Some(Span::new(0, 20)));
    let tokens = lex(" 9223372036854775807 ").unwrap();
    assert_eq!(tokens[0].kind, TokenKind::Int(i64::MAX));
    assert_eq!(tokens[0].span, Span::new(1, 20));
}

#[test]
fn tokens_tile_their_source() {
    let source = "  let x=1 in\tx -> y\n";
    let tokens = lex(source).unwrap();
    let bytes = source.as_bytes();
    let mut at = 0;
    for token in &tokens {
        assert!(at <= token.span.start);
        for &b in &bytes[at..token.span.start] {
            assert!(b == b' ' || b == b'\t' || b == b'\r' || b == b'\n');
        }
        assert!(token.span.start <= token.span.end);
        at = token.span.end;
    }
    let last = tokens.last().unwrap();
    assert_eq!(last.kind, TokenKind::Eof);
    assert_eq!(last.span, Span::new(source.len(), source.len()));
    assert_eq!(tokens[5].kind, TokenKind::Ident("x".to_string()));
    assert_eq!(tokens[6].kind, TokenKind::Arrow);
    assert_eq!(tokens.len(), 9);
}

#[test]
fn parser_errors_say_what_was_expected() {
    let at_end = parse(&lex("1 +").unwrap()).unwrap_err();
    assert_eq!(at_end.kind, ErrorKind::UnexpectedToken);
    assert_eq!(at_end.span, Some(Span::new(3, 3)));
    assert_eq!(
        at_end.message,
        "整数・真偽値・識別子・括弧付きの式が必要です。見つかったもの: Some(Eof)"
    );
    let unclosed = parse(&lex("(1").unwrap()).unwrap_err();
    assert_eq!(unclosed.message, "RParenが必要です。見つかったもの: Some(Eof)");
    let extra = parse(&lex("1 )").unwrap()).unwrap_err();
    assert_eq!(extra.message, "Eofが必要です。見つかったもの: Some(RParen)");
    assert_eq!(extra.span, Some(Span::new(2, 3)));
    let name = parse(&lex("fun 1 -> 2").unwrap()).unwrap_err();
    assert_eq!(name.message, "識別子が必要です。見つかったもの: Some(Int(1))");
    let empty = parse(&[]).unwrap_err();
    assert_eq!(empty.span, Some(Span::new(0, 0)));
    assert_eq!(empty.message, "式が必要です。見つかったもの: None");
}

#[test]
fn parsed_phrases_span_their_tokens() {
    let expression = parsed("f 1 + (g 2)");
    assert_eq!(expression.span, Span::new(0, 11));
    match &expression.kind {
        ExprKind::Binary { op, left, right } => {
            assert_eq!(*op, BinaryOp::Add);
            assert_eq!(left.span, Span::new(0, 3));
            assert_eq!(right.span, Span::new(6, 11));
        }
        _ => panic!("expected a sum"),
    }
    assert_eq!(parsed("  let x = 1 in x  ").span, Span::new(2, 16));
}

#[test]
fn environments_look_up_the_latest_binding() {
    let env = ValueEnv::new()
        .bind("x".to_string(), Value::Int(1))
        .bind("y".to_string(), Value::Bool(true))
        .bind("x".to_string(), Value::Int(2));
    assert!(matches!(env.get(&"x".to_string()), Some(Value::Int(2))));
    assert!(matches!(env.get(&"y".to_string()), Some(Value::Bool(true))));
    assert!(env.get(&"z".to_string()).is_none());
    assert!(matches!(env.share().get(&"x".to_string()), Some(Value::Int(2))));
}

#[test]
fn expressions_and_types_copy_exactly() {
    let expression = parsed("let f = fun x -> x in f 1");
    assert_eq!(expression.duplicate(), expression);
    assert_eq!(expression.clone(), expression);
    let ty = arrow(Type::Var(3), Type::Bool);
    assert!(ty.same(&ty.duplicate()));
    assert!(!ty.same(&Type::Bool));
}

#[test]
fn inference_messages_name_the_types() {
    let mismatch = type_of("1 + true").unwrap_err();
    assert_eq!(mismatch.message, "型が一致しません: bool と int");
    assert_eq!(mismatch.span, Some(Span::new(4, 8)));
    let condition = type_of("if 1 then 2 else 3").unwrap_err();
    assert_eq!(condition.message, "型が一致しません: int と bool");
    let branches = type_of("if true then 1 else false").unwrap_err();
    assert_eq!(branches.message, "型が一致しません: int と bool");
    assert_eq!(branches.span, Some(Span::new(0, 25)));
    let infinite = type_of("fun x -> x x").unwrap_err();
    assert_eq!(infinite.message, "無限型が必要になる式です。");
    assert_eq!(type_of("z").unwrap_err().message, "未束縛の変数です: z");
    let nested = type_of("(fun f -> f 1) (fun b -> if b then 1 else 2)").unwrap_err();
    assert_eq!(nested.kind, ErrorKind::TypeMismatch);
    assert_eq!(nested.message, "型が一致しません: int と bool");
}

#[test]
fn evaluation_messages() {
    assert_eq!(run("1 / 0").unwrap_err().message, "ゼロで除算できません。");
    assert_eq!(run("9223372036854775807 * 2").unwrap_err().message, "整数演算が許容範囲を超えました。");
    assert_eq!(run("1 + true").unwrap_err().message, "整数が必要です。");
    assert_eq!(run("if 0 then 1 else 2").unwrap_err().message, "条件には真偽値が必要です。");
    assert_eq!(run("true 1").unwrap_err().message, "関数以外の値は呼び出せません。");
    assert_eq!(lex("123456789012345678901").unwrap_err().message, "整数が許容範囲を超えています。");
}

#[test]
fn let_evaluates_as_application() {
    for (bound, applied) in [
        ("let x = 5 in x * 2", "(fun x -> x * 2) 5"),
        ("let f = fun y -> y + 1 in f (f 1)", "(fun f -> f (f 1)) (fun y -> y + 1)"),
        ("let x = true in if x then 1 else 2", "(fun x -> if x then 1 else 2) true"),
    ] {
        assert_eq!(run(bound).unwrap().to_text(), run(applied).unwrap().to_text());
    }
    let bound = run("let x = 1 / 0 in x").unwrap_err();
    let applied = run("(fun x -> x) (1 / 0)").unwrap_err();
    assert_eq!(bound.kind, applied.kind);
    assert_eq!(bound.message, applied.message);
}

#[test]
fn inferred_types_are_principal() {
    // The most general type of application: every other typing of the
    // expression is an instance of it.
    assert_eq!(
        type_of("fun f -> fun x -> f x").unwrap().to_text(),
        "('t1 -> 't2) -> 't1 -> 't2"
    );
    // An instance the typing rules also give is reached by substitution: here
    // the argument is an integer function, and the result is `int`.
    assert_eq!(type_of("(fun f -> fun x -> f x) (fun n -> n + 1) 2").unwrap(), Type::Int);
    // A let-bound function is used at two instances of its principal type.
    assert_eq!(
        type_of("let apply = fun f -> fun x -> f x in apply (fun b -> if b then 1 else 0) (apply (fun n -> n < 1) 3)")
            .unwrap(),
        Type::Int
    );
}

#[test]
fn checked_inference_gives_what_inference_gives() {
    for source in ["fun x -> x", "1 + true", "let id = fun x -> x in id id", "fun x -> x x", "z"] {
        let expression = parsed(source);
        assert_eq!(infer_checked(&expression), Some(infer(&expression)));
    }
}

#[test]
fn schemes_and_closures_clone() {
    let scheme = TypeScheme { quantified: vec![0, 1], ty: arrow(Type::Var(0), Type::Var(1)) };
    assert_eq!(scheme.clone(), scheme);
    let environment = ValueEnv::new().bind("y".to_string(), Value::Int(2));
    let closure = Closure { parameter: "x".to_string(), body: parsed("x + y"), environment };
    let copy = closure.clone();
    assert_eq!(copy.parameter, "x");
    assert_eq!(copy.body, closure.body);
    assert_eq!(copy.environment.get(&"y".to_string()).map(int_value), Some(2));
}
