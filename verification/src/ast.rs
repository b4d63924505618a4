use vstd::prelude::*;

use crate::span::Span;

verus! {

/// The binary operators: the four integer operations and `<`.
#[derive(Debug, Clone, Copy, PartialEq, Eq, Structural)]
pub enum BinaryOp {
    Add,
    Subtract,
    Multiply,
    Divide,
    Less,
}

/// The forms of expression.
#[derive(Debug, PartialEq, Eq)]
pub enum ExprKind {
    Int(i64),
    Bool(bool),
    Var(String),
    Negate(Box<Expr>),
    Binary { op: BinaryOp, left: Box<Expr>, right: Box<Expr> },
    If { condition: Box<Expr>, then_branch: Box<Expr>, else_branch: Box<Expr> },
    Let { name: String, value: Box<Expr>, body: Box<Expr> },
    Fun { parameter: String, body: Box<Expr> },
    Apply { function: Box<Expr>, argument: Box<Expr> },
}

/// An expression together with the byte range of the source it spans.
#[derive(Debug, PartialEq, Eq)]
pub struct Expr {
    pub kind: ExprKind,
    pub span: Span,
}

impl Expr {
    pub fn new(kind: ExprKind, span: Span) -> (expr: Self)
        ensures
            expr.kind == kind,
            expr.span == span,
    {
        Expr { kind, span }
    }

    /// A copy of the expression that is equal to it.
    pub fn duplicate(&self) -> (copy: Self)
        ensures
            copy == *self,
        decreases self,
    {
        let kind = match &self.kind {
            ExprKind::Int(value) => ExprKind::Int(*value),
            ExprKind::Bool(value) => ExprKind::Bool(*value),
            ExprKind::Var(name) => ExprKind::Var(name.clone()),
            ExprKind::Negate(inner) => ExprKind::Negate(Box::new(inner.duplicate())),
            ExprKind::Binary { op, left, right } => ExprKind::Binary {
                op: *op,
                left: Box::new(left.duplicate()),
                right: Box::new(right.duplicate()),
            },
            ExprKind::If { condition, then_branch, else_branch } => ExprKind::If {
                condition: Box::new(condition.duplicate()),
                then_branch: Box::new(then_branch.duplicate()),
                else_branch: Box::new(else_branch.duplicate()),
            },
            ExprKind::Let { name, value, body } => ExprKind::Let {
                name: name.clone(),
                value: Box::new(value.duplicate()),
                body: Box::new(body.duplicate()),
            },
            ExprKind::Fun { parameter, body } => ExprKind::Fun {
                parameter: parameter.clone(),
                body: Box::new(body.duplicate()),
            },
            ExprKind::Apply { function, argument } => ExprKind::Apply {
                function: Box::new(function.duplicate()),
                argument: Box::new(argument.duplicate()),
            },
        };
        Expr { kind, span: self.span }
    }
}

impl Clone for Expr {
    fn clone(&self) -> (copy: Self)
        ensures
            copy == *self,
    {
        self.duplicate()
    }
}

} // verus!
