use tiny_ml_core::{
    ast::{Expr, ExprKind},
    error::{Diagnostic, ErrorKind, Stage},
    report::{analyze_with, StageResult},
    span::Span,
    types::Type,
    value::Value,
};

fn fixture_expr() -> Expr {
    Expr::new(ExprKind::Int(42), Span::new(0, 2))
}

#[test]
fn lexer_error_skips_all_dependents() {
    let report = analyze_with(
        "@",
        |_| {
            Err(Diagnostic::new(
                Stage::Lexer,
                ErrorKind::UnexpectedCharacter,
                "invalid",
                Some(Span::new(0, 1)),
            ))
        },
        |_| panic!("parser must not run"),
        |_| panic!("inference must not run"),
        |_| panic!("evaluation must not run"),
    );
    assert!(matches!(report.tokens, StageResult::Error { .. }));
    assert!(matches!(report.ast, StageResult::Skipped { .. }));
    assert!(matches!(report.inferred_type, StageResult::Skipped { .. }));
    assert!(matches!(report.value, StageResult::Skipped { .. }));
}

#[test]
fn parser_unimplemented_preserves_tokens() {
    let report = analyze_with(
        "42",
        |_| Ok(vec![]),
        |_| Err(Diagnostic::unimplemented(Stage::Parser)),
        |_| panic!("inference must not run"),
        |_| panic!("evaluation must not run"),
    );
    assert!(matches!(report.tokens, StageResult::Success { .. }));
    assert!(matches!(report.ast, StageResult::Unimplemented { .. }));
    assert!(matches!(report.value, StageResult::Skipped { .. }));
}

#[test]
fn inference_failure_does_not_prevent_evaluation() {
    for kind in [ErrorKind::Unimplemented, ErrorKind::TypeMismatch] {
        let report = analyze_with(
            "42",
            |_| Ok(vec![]),
            |_| Ok(fixture_expr()),
            |_| Err(Diagnostic::new(Stage::Inference, kind, "fixture", None)),
            |_| Ok(Value::Int(42)),
        );
        assert!(matches!(report.ast, StageResult::Success { .. }));
        assert!(matches!(report.value, StageResult::Success { output } if output == "42"));
    }
}

// The JSON transport itself is app's (the report's serde copy); here the
// statuses and the exact digits it carries.
#[test]
fn transport_preserves_large_integers_and_statuses() {
    let report = analyze_with(
        "42",
        |_| Ok(vec![]),
        |_| Ok(fixture_expr()),
        |_| Ok(Type::Int),
        |_| Ok(Value::Int(i64::MAX)),
    );
    assert!(matches!(report.inferred_type, StageResult::Success { .. }));
    assert!(matches!(report.value, StageResult::Success { output } if output == "9223372036854775807"));
}

#[test]
fn report_messages_are_diagnostics_as_written() {
    let report = analyze_with(
        "1 $",
        tiny_ml_core::lex,
        |_| panic!("parser must not run"),
        |_| panic!("inference must not run"),
        |_| panic!("evaluation must not run"),
    );
    match &report.tokens {
        StageResult::Error { message } => {
            assert_eq!(message, "lexer: 使えない文字です: '$' (bytes 2..3)")
        }
        other => panic!("unexpected {other:?}"),
    }
    match &report.ast {
        StageResult::Skipped { message } => assert_eq!(message, "lexerが成功すると実行できます。"),
        other => panic!("unexpected {other:?}"),
    }
    match &report.value {
        StageResult::Skipped { message } => assert_eq!(message, "parserが成功すると実行できます。"),
        other => panic!("unexpected {other:?}"),
    }
}

#[test]
fn report_runs_the_real_stages() {
    let report = analyze_with(
        "let id = fun x -> x in id (1 + true)",
        tiny_ml_core::lex,
        tiny_ml_core::parse,
        tiny_ml_core::infer,
        tiny_ml_core::eval,
    );
    assert!(matches!(&report.tokens, StageResult::Success { output } if output.contains("Let")));
    assert!(matches!(&report.ast, StageResult::Success { output } if output.contains("Apply")));
    match &report.inferred_type {
        StageResult::Error { message } => assert!(message.starts_with("型推論: ")),
        other => panic!("unexpected {other:?}"),
    }
    match &report.value {
        StageResult::Error { message } => assert!(message.starts_with("評価器: ")),
        other => panic!("unexpected {other:?}"),
    }
    let unimplemented = analyze_with(
        "1",
        tiny_ml_core::lex,
        tiny_ml_core::parse,
        |_| Err(Diagnostic::unimplemented(Stage::Inference)),
        |e| Ok(match tiny_ml_core::eval(e) {
            Ok(v) => v,
            Err(_) => Value::Bool(false),
        }),
    );
    match &unimplemented.inferred_type {
        StageResult::Unimplemented { message } => {
            assert_eq!(message, "型推論: 型推論はまだ実装されていません。")
        }
        other => panic!("unexpected {other:?}"),
    }
    assert!(matches!(&unimplemented.value, StageResult::Success { output } if output == "1"));
}

#[test]
fn report_shows_tokens_and_tree_as_debug_text() {
    let tokens = tiny_ml_core::lex("1 + 2").unwrap();
    let tree = tiny_ml_core::parse(&tokens).unwrap();
    let report = analyze_with(
        "1 + 2",
        tiny_ml_core::lex,
        tiny_ml_core::parse,
        tiny_ml_core::infer,
        tiny_ml_core::eval,
    );
    assert!(matches!(&report.tokens, StageResult::Success { output } if *output == format!("{tokens:#?}")));
    assert!(matches!(&report.ast, StageResult::Success { output } if *output == format!("{tree:#?}")));
    assert!(matches!(&report.inferred_type, StageResult::Success { output } if output == "int"));
    assert!(matches!(&report.value, StageResult::Success { output } if output == "3"));
}
