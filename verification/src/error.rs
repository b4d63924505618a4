use vstd::prelude::*;

use crate::span::Span;

verus! {

/// The processing stage that reported a diagnostic.
#[derive(Debug, Clone, Copy, PartialEq, Eq, Structural)]
pub enum Stage {
    Lexer,
    Parser,
    Inference,
    Evaluation,
}

/// What went wrong.
#[derive(Debug, Clone, Copy, PartialEq, Eq, Structural)]
pub enum ErrorKind {
    Unimplemented,
    UnexpectedCharacter,
    IntegerOutOfRange,
    UnexpectedToken,
    UnboundVariable,
    TypeMismatch,
    InfiniteType,
    DivisionByZero,
    Overflow,
    NotCallable,
}

/// An error report: the stage, the kind of error, a human readable message
/// and, where known, the byte range of the source that caused it.
#[derive(Debug, Clone, PartialEq, Eq)]
pub struct Diagnostic {
    pub stage: Stage,
    pub kind: ErrorKind,
    pub message: String,
    pub span: Option<Span>,
}

pub type LangResult<T> = Result<T, Diagnostic>;

impl Stage {
    /// The name under which a stage is shown to users.
    pub fn name(&self) -> (name: &'static str)
        ensures
            name@ == stage_name(*self),
    {
        match self {
            Stage::Lexer => "lexer",
            Stage::Parser => "parser",
            Stage::Inference => "型推論",
            Stage::Evaluation => "評価器",
        }
    }
}

pub open spec fn stage_name(stage: Stage) -> Seq<char> {
    match stage {
        Stage::Lexer => "lexer"@,
        Stage::Parser => "parser"@,
        Stage::Inference => "型推論"@,
        Stage::Evaluation => "評価器"@,
    }
}

impl Diagnostic {
    pub fn new<M: Into<String>>(stage: Stage, kind: ErrorKind, message: M, span: Option<Span>) -> (d: Self)
        ensures
            d.stage == stage,
            d.kind == kind,
            d.span == span,
            call_ensures(M::into, (message,), d.message),
    {
        Diagnostic { stage, kind, message: message.into(), span }
    }

    /// The report of a stage that has not been written yet.
    pub fn unimplemented(stage: Stage) -> (d: Self)
        ensures
            d.stage == stage,
            d.kind == ErrorKind::Unimplemented,
            d.span is None,
            d.message@ == stage_name(stage) + "はまだ実装されていません。"@,
    {
        let name = String::from_str(stage.name());
        let message = name.concat("はまだ実装されていません。");
        Diagnostic { stage, kind: ErrorKind::Unimplemented, message, span: None }
    }
}

} // verus!

verus! {

/// `diagnostic` reports an error of `kind` at `span` from `stage`.
pub open spec fn reports_error(diagnostic: Diagnostic, stage: Stage, kind: ErrorKind, span: Span) -> bool {
    &&& diagnostic.stage == stage
    &&& diagnostic.kind == kind
    &&& diagnostic.span == Some(span)
}

} // verus!
