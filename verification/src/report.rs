use vstd::prelude::*;

use crate::{
    ast::Expr,
    display::{diagnostic_text, type_text, value_text},
    error::{Diagnostic, ErrorKind, LangResult},
    token::Token,
    types::Type,
    value::Value,
};

verus! {

/// How one stage of an analysis ended: its output as text, a stage not
/// written yet, an error, or a stage that did not run because an earlier
/// one failed. Messages are diagnostics as written, or why a stage was skipped.
#[derive(Debug)]
pub enum StageResult {
    Success { output: String },
    Unimplemented { message: String },
    Error { message: String },
    Skipped { message: String },
}

/// The outcome of every stage for one source text.
#[derive(Debug)]
pub struct AnalysisReport {
    pub tokens: StageResult,
    pub ast: StageResult,
    pub inferred_type: StageResult,
    pub value: StageResult,
}

/// `shown` reports the failure `d`: as a stage not written yet where that is
/// its kind, else as an error; the message is the diagnostic as written.
pub open spec fn reports_failure(shown: StageResult, d: Diagnostic) -> bool {
    if d.kind == ErrorKind::Unimplemented {
        shown matches StageResult::Unimplemented { message } && message@ == diagnostic_text(d)
    } else {
        shown matches StageResult::Error { message } && message@ == diagnostic_text(d)
    }
}

/// `shown` is the stage skipped with the message `why`.
pub open spec fn skipped_because(shown: StageResult, why: Seq<char>) -> bool {
    shown matches StageResult::Skipped { message } && message@ == why
}

impl StageResult {
    fn skipped(message: &str) -> (shown: Self)
        ensures
            skipped_because(shown, message@),
    {
        StageResult::Skipped { message: String::from_str(message) }
    }

    /// The stage's result: `format` of its output, or its failure.
    pub fn from_result<T, F: FnOnce(&T) -> String>(result: &LangResult<T>, format: F) -> (shown: Self)
        requires
            forall|value: &T| call_requires(format, (value,)),
        ensures
            match result {
                Ok(value) => shown matches StageResult::Success { output } && call_ensures(
                    format,
                    (value,),
                    output,
                ),
                Err(d) => reports_failure(shown, *d),
            },
    {
        match result {
            Ok(value) => StageResult::Success { output: format(value) },
            Err(error) => {
                if error.kind == ErrorKind::Unimplemented {
                    StageResult::Unimplemented { message: error.to_text() }
                } else {
                    StageResult::Error { message: error.to_text() }
                }
            },
        }
    }
}


/// Why the stages after the lexer did not run.
pub open spec fn after_lexer() -> Seq<char> {
    "lexerが成功すると実行できます。"@
}

/// Why the stages after the parser did not run.
pub open spec fn after_parser() -> Seq<char> {
    "parserが成功すると実行できます。"@
}

/// `shown` shows the type inferred, or the failure of inference.
pub open spec fn shows_type(shown: StageResult, result: LangResult<Type>) -> bool {
    match result {
        Ok(ty) => shown matches StageResult::Success { output } && output@ == type_text(ty),
        Err(d) => reports_failure(shown, d),
    }
}

/// `shown` shows the value computed, or the failure of evaluation.
pub open spec fn shows_value(shown: StageResult, result: LangResult<Value>) -> bool {
    match result {
        Ok(value) => shown matches StageResult::Success { output } && output@ == value_text(value),
        Err(d) => reports_failure(shown, d),
    }
}

/// How `Debug` writes tokens, spread over lines (`{:#?}`).
pub uninterp spec fn tokens_rendering(tokens: Seq<Token>) -> Seq<char>;

/// How `Debug` writes an expression, spread over lines (`{:#?}`).
pub uninterp spec fn expr_rendering(expr: Expr) -> Seq<char>;

/// `shown` shows the tokens lexed, in their `Debug` rendering, or the failure of the lexer.
pub open spec fn shows_tokens(shown: StageResult, result: LangResult<Vec<Token>>) -> bool {
    match result {
        Ok(tokens) => shown matches StageResult::Success { output } && output@ == tokens_rendering(tokens@),
        Err(d) => reports_failure(shown, d),
    }
}

/// `shown` shows the expression parsed, in its `Debug` rendering, or the failure of the parser.
pub open spec fn shows_expr(shown: StageResult, result: LangResult<Expr>) -> bool {
    match result {
        Ok(expr) => shown matches StageResult::Success { output } && output@ == expr_rendering(expr),
        Err(d) => reports_failure(shown, d),
    }
}

/// `arg` holds tokens that `lex` may return for `source`.
pub open spec fn lexed_from<L>(lex: L, source: &str, arg: &[Token]) -> bool where
    L: FnOnce(&str) -> LangResult<Vec<Token>>,
 {
    exists|tokens: Vec<Token>|
        #[trigger] call_ensures(lex, (source,), Ok::<Vec<Token>, Diagnostic>(tokens)) && tokens@ == arg@
}

/// `expr` is an expression that `parse` may return for tokens `lex` may return for `source`.
pub open spec fn parsed_from<L, P>(lex: L, parse: P, source: &str, expr: Expr) -> bool where
    L: FnOnce(&str) -> LangResult<Vec<Token>>,
    P: FnOnce(&[Token]) -> LangResult<Expr>,
 {
    exists|arg: &[Token]|
        #[trigger] call_ensures(parse, (arg,), Ok::<Expr, Diagnostic>(expr)) && lexed_from(lex, source, arg)
}

/// The report after parsing gave `parsed`: where it failed, neither inference
/// nor evaluation ran; else both ran on the expression, each whatever the
/// other gave.
pub open spec fn reports_after_parsing<I, V>(
    report: AnalysisReport,
    parsed: LangResult<Expr>,
    infer: I,
    eval: V,
) -> bool where
    I: FnOnce(&Expr) -> LangResult<Type>,
    V: FnOnce(&Expr) -> LangResult<Value>,
 {
    &&& shows_expr(report.ast, parsed)
    &&& match parsed {
        Err(_) => {
            &&& skipped_because(report.inferred_type, after_parser())
            &&& skipped_because(report.value, after_parser())
        },
        Ok(expr) => {
            &&& exists|ty: LangResult<Type>|
                #[trigger] call_ensures(infer, (&expr,), ty) && shows_type(report.inferred_type, ty)
            &&& exists|value: LangResult<Value>|
                #[trigger] call_ensures(eval, (&expr,), value) && shows_value(report.value, value)
        },
    }
}

/// The report after lexing gave `lexed`: where it failed, no later stage ran;
/// else the parser ran on the tokens.
pub open spec fn reports_after_lexing<P, I, V>(
    report: AnalysisReport,
    lexed: LangResult<Vec<Token>>,
    parse: P,
    infer: I,
    eval: V,
) -> bool where
    P: FnOnce(&[Token]) -> LangResult<Expr>,
    I: FnOnce(&Expr) -> LangResult<Type>,
    V: FnOnce(&Expr) -> LangResult<Value>,
 {
    &&& shows_tokens(report.tokens, lexed)
    &&& match lexed {
        Err(_) => {
            &&& skipped_because(report.ast, after_lexer())
            &&& skipped_because(report.inferred_type, after_parser())
            &&& skipped_because(report.value, after_parser())
        },
        Ok(tokens) => exists|arg: &[Token], parsed: LangResult<Expr>|
            #![trigger call_ensures(parse, (arg,), parsed)]
            arg@ == tokens@ && call_ensures(parse, (arg,), parsed) && reports_after_parsing(
                report,
                parsed,
                infer,
                eval,
            ),
    }
}

/// `format!("{:#?}")` of tokens (std's `Debug` of a `Vec` of the derived
/// `Debug` of `Token`): a function of the tokens alone, named `tokens_rendering`.
#[verifier::external_body]
fn tokens_debug(tokens: &Vec<Token>) -> (text: String)
    ensures
        text@ == tokens_rendering(tokens@),
{
    format!("{tokens:#?}")
}

/// `format!("{:#?}")` of an expression (the derived `Debug` of `Expr`): a
/// function of the expression alone, named `expr_rendering`.
#[verifier::external_body]
fn expr_debug(expr: &Expr) -> (text: String)
    ensures
        text@ == expr_rendering(*expr),
{
    format!("{expr:#?}")
}

/// Runs the stages on `source`: the lexer, then the parser on its tokens,
/// then inference and evaluation on the parsed expression. A stage runs only
/// after the one it needs succeeded, and inference and evaluation run
/// whatever the other gives. Each stage need only accept what the stage
/// before it may give: a body that called one out of this order would not
/// meet its precondition.
pub fn analyze_with<L, P, I, V>(source: &str, lex: L, parse: P, infer: I, eval: V) -> (report: AnalysisReport) where
    L: FnOnce(&str) -> LangResult<Vec<Token>>,
    P: FnOnce(&[Token]) -> LangResult<Expr>,
    I: FnOnce(&Expr) -> LangResult<Type>,
    V: FnOnce(&Expr) -> LangResult<Value>,

    requires
        call_requires(lex, (source,)),
        forall|tokens: &[Token]| lexed_from(lex, source, tokens) ==> #[trigger] call_requires(parse, (tokens,)),
        forall|expr: &Expr| parsed_from(lex, parse, source, *expr) ==> #[trigger] call_requires(infer, (expr,)),
        forall|expr: &Expr| parsed_from(lex, parse, source, *expr) ==> #[trigger] call_requires(eval, (expr,)),
    ensures
        exists|lexed: LangResult<Vec<Token>>|
            #[trigger] call_ensures(lex, (source,), lexed) && reports_after_lexing(
                report,
                lexed,
                parse,
                infer,
                eval,
            ),
{
    let tokens = lex(source);
    let mut report = AnalysisReport {
        tokens: StageResult::from_result(&tokens, tokens_debug),
        ast: StageResult::skipped("lexerが成功すると実行できます。"),
        inferred_type: StageResult::skipped("parserが成功すると実行できます。"),
        value: StageResult::skipped("parserが成功すると実行できます。"),
    };
    proof {
        reveal_strlit("lexerが成功すると実行できます。");
        reveal_strlit("parserが成功すると実行できます。");
    }
    if let Ok(tokens) = tokens {
        let slice = tokens.as_slice();
        assert(call_ensures(lex, (source,), Ok::<Vec<Token>, Diagnostic>(tokens)));
        assert(lexed_from(lex, source, slice));
        let expr = parse(slice);
        report.ast = StageResult::from_result(&expr, expr_debug);
        if let Ok(expr) = expr {
            assert(call_ensures(parse, (slice,), Ok::<Expr, Diagnostic>(expr)));
            assert(parsed_from(lex, parse, source, expr));
            let ty = infer(&expr);
            report.inferred_type = StageResult::from_result(&ty, Type::to_text);
            let value = eval(&expr);
            report.value = StageResult::from_result(&value, Value::to_text);
        }
    }
    report
}

} // verus!
