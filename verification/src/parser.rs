use vstd::prelude::*;

use crate::{
    ast::{BinaryOp, Expr, ExprKind},
    error::{reports_error, Diagnostic, ErrorKind, LangResult, Stage},
    span::Span,
    token::{Token, TokenKind},
};

verus! {

/// The outcome of reading a phrase: the expression and the position after
/// it, or the position at which the tokens did not fit the grammar with what
/// was expected there.
pub type Parsed = Result<(Expr, int), (int, Seq<char>)>;

/// How the parser names a token kind that carries no value in its messages
/// (its `Debug` text: the variant's name).
#[verifier::opaque]
pub open spec fn kind_name(kind: TokenKind) -> Seq<char> {
    match kind {
        TokenKind::If => "If"@,
        TokenKind::Then => "Then"@,
        TokenKind::Else => "Else"@,
        TokenKind::Let => "Let"@,
        TokenKind::In => "In"@,
        TokenKind::Fun => "Fun"@,
        TokenKind::Arrow => "Arrow"@,
        TokenKind::Equal => "Equal"@,
        TokenKind::Plus => "Plus"@,
        TokenKind::Minus => "Minus"@,
        TokenKind::Star => "Star"@,
        TokenKind::Slash => "Slash"@,
        TokenKind::Less => "Less"@,
        TokenKind::LParen => "LParen"@,
        TokenKind::RParen => "RParen"@,
        TokenKind::Eof => "Eof"@,
        _ => seq![],
    }
}

/// How `Debug` writes the token kind found where something else was expected
/// (`Option<&TokenKind>`: `None`, or `Some(...)` of the derived `Debug` of the kind).
pub uninterp spec fn found_rendering(found: Option<TokenKind>) -> Seq<char>;

/// The message of a parser error: what was expected, and what was found there.
#[verifier::opaque]
pub open spec fn parse_message(expected: Seq<char>, found: Option<TokenKind>) -> Seq<char> {
    expected + "が必要です。見つかったもの: "@ + found_rendering(found)
}

/// What an atom is expected to be where none begins.
#[verifier::opaque]
pub open spec fn atom_expected(found: Option<TokenKind>) -> Seq<char> {
    if found is None {
        "式"@
    } else {
        "整数・真偽値・識別子・括弧付きの式"@
    }
}

/// The number of tokens from position `p` on.
pub open spec fn remaining(t: Seq<Token>, p: int) -> nat {
    if p < 0 {
        t.len()
    } else if p < t.len() {
        (t.len() - p) as nat
    } else {
        0
    }
}

/// The kind of the token at position `p`, if there is one.
pub open spec fn kind_at(t: Seq<Token>, p: int) -> Option<TokenKind> {
    if 0 <= p < t.len() {
        Some(t[p].kind)
    } else {
        None
    }
}

/// The binary expression `left op right`, spanning both operands.
pub open spec fn binary(op: BinaryOp, left: Expr, right: Expr) -> Expr {
    Expr {
        kind: ExprKind::Binary { op, left: Box::new(left), right: Box::new(right) },
        span: Span { start: left.span.start, end: right.span.end },
    }
}

/// `expression ::= let IDENT = expression in expression
///               | if expression then expression else expression
///               | fun IDENT -> expression
///               | comparison`
pub open spec fn parse_expression(t: Seq<Token>, p: int) -> Parsed
    decreases remaining(t, p), 9nat,
{
    match kind_at(t, p) {
        Some(TokenKind::Let) => match kind_at(t, p + 1) {
            Some(TokenKind::Ident(name)) => if kind_at(t, p + 2) == Some(TokenKind::Equal) {
                match parse_expression(t, p + 3) {
                    Ok((value, q)) => if kind_at(t, q) == Some(TokenKind::In) && p <= q {
                        match parse_expression(t, q + 1) {
                            Ok((body, r)) => Ok(
                                (
                                    Expr {
                                        kind: ExprKind::Let {
                                            name,
                                            value: Box::new(value),
                                            body: Box::new(body),
                                        },
                                        span: Span { start: t[p].span.start, end: body.span.end },
                                    },
                                    r,
                                ),
                            ),
                            Err(e) => Err(e),
                        }
                    } else {
                        Err((q, kind_name(TokenKind::In)))
                    },
                    Err(e) => Err(e),
                }
            } else {
                Err((p + 2, kind_name(TokenKind::Equal)))
            },
            _ => Err((p + 1, "識別子"@)),
        },
        Some(TokenKind::If) => match parse_expression(t, p + 1) {
            Ok((condition, q)) => if kind_at(t, q) == Some(TokenKind::Then) && p <= q {
                match parse_expression(t, q + 1) {
                    Ok((then_branch, r)) => if kind_at(t, r) == Some(TokenKind::Else) && p <= r {
                        match parse_expression(t, r + 1) {
                            Ok((else_branch, s)) => Ok(
                                (
                                    Expr {
                                        kind: ExprKind::If {
                                            condition: Box::new(condition),
                                            then_branch: Box::new(then_branch),
                                            else_branch: Box::new(else_branch),
                                        },
                                        span: Span {
                                            start: t[p].span.start,
                                            end: else_branch.span.end,
                                        },
                                    },
                                    s,
                                ),
                            ),
                            Err(e) => Err(e),
                        }
                    } else {
                        Err((r, kind_name(TokenKind::Else)))
                    },
                    Err(e) => Err(e),
                }
            } else {
                Err((q, kind_name(TokenKind::Then)))
            },
            Err(e) => Err(e),
        },
        Some(TokenKind::Fun) => match kind_at(t, p + 1) {
            Some(TokenKind::Ident(parameter)) => if kind_at(t, p + 2) == Some(TokenKind::Arrow) {
                match parse_expression(t, p + 3) {
                    Ok((body, q)) => Ok(
                        (
                            Expr {
                                kind: ExprKind::Fun { parameter, body: Box::new(body) },
                                span: Span { start: t[p].span.start, end: body.span.end },
                            },
                            q,
                        ),
                    ),
                    Err(e) => Err(e),
                }
            } else {
                Err((p + 2, kind_name(TokenKind::Arrow)))
            },
            _ => Err((p + 1, "識別子"@)),
        },
        _ => parse_comparison(t, p),
    }
}

/// `comparison ::= additive [< additive]`
pub open spec fn parse_comparison(t: Seq<Token>, p: int) -> Parsed
    decreases remaining(t, p), 8nat,
{
    match parse_additive(t, p) {
        Ok((left, q)) => if kind_at(t, q) == Some(TokenKind::Less) && p <= q {
            match parse_additive(t, q + 1) {
                Ok((right, r)) => Ok((binary(BinaryOp::Less, left, right), r)),
                Err(e) => Err(e),
            }
        } else {
            Ok((left, q))
        },
        Err(e) => Err(e),
    }
}

/// `additive ::= product {(+ | -) product}`, grouped to the left.
pub open spec fn parse_additive(t: Seq<Token>, p: int) -> Parsed
    decreases remaining(t, p), 7nat,
{
    match parse_product(t, p) {
        Ok((left, q)) => if p <= q {
            parse_additive_rest(t, left, q)
        } else {
            Err((q, "式"@))
        },
        Err(e) => Err(e),
    }
}

/// The `{(+ | -) product}` part of `additive` after its operand `left`.
pub open spec fn parse_additive_rest(t: Seq<Token>, left: Expr, p: int) -> Parsed
    decreases remaining(t, p), 6nat,
{
    let op = match kind_at(t, p) {
        Some(TokenKind::Plus) => Some(BinaryOp::Add),
        Some(TokenKind::Minus) => Some(BinaryOp::Subtract),
        _ => None,
    };
    match op {
        Some(op) => match parse_product(t, p + 1) {
            Ok((right, q)) => if p < q {
                parse_additive_rest(t, binary(op, left, right), q)
            } else {
                Err((q, "式"@))
            },
            Err(e) => Err(e),
        },
        None => Ok((left, p)),
    }
}

/// `product ::= unary {(* | /) unary}`, grouped to the left.
pub open spec fn parse_product(t: Seq<Token>, p: int) -> Parsed
    decreases remaining(t, p), 5nat,
{
    match parse_unary(t, p) {
        Ok((left, q)) => if p <= q {
            parse_product_rest(t, left, q)
        } else {
            Err((q, "式"@))
        },
        Err(e) => Err(e),
    }
}

/// The `{(* | /) unary}` part of `product` after its operand `left`.
pub open spec fn parse_product_rest(t: Seq<Token>, left: Expr, p: int) -> Parsed
    decreases remaining(t, p), 4nat,
{
    let op = match kind_at(t, p) {
        Some(TokenKind::Star) => Some(BinaryOp::Multiply),
        Some(TokenKind::Slash) => Some(BinaryOp::Divide),
        _ => None,
    };
    match op {
        Some(op) => match parse_unary(t, p + 1) {
            Ok((right, q)) => if p < q {
                parse_product_rest(t, binary(op, left, right), q)
            } else {
                Err((q, "式"@))
            },
            Err(e) => Err(e),
        },
        None => Ok((left, p)),
    }
}

/// `unary ::= - unary | application`
pub open spec fn parse_unary(t: Seq<Token>, p: int) -> Parsed
    decreases remaining(t, p), 3nat,
{
    if kind_at(t, p) == Some(TokenKind::Minus) {
        match parse_unary(t, p + 1) {
            Ok((inner, q)) => Ok(
                (
                    Expr {
                        kind: ExprKind::Negate(Box::new(inner)),
                        span: Span { start: t[p].span.start, end: inner.span.end },
                    },
                    q,
                ),
            ),
            Err(e) => Err(e),
        }
    } else {
        parse_application(t, p)
    }
}

/// The token kinds that begin an atom.
pub open spec fn starts_atom(kind: Option<TokenKind>) -> bool {
    match kind {
        Some(TokenKind::Int(_)) | Some(TokenKind::Bool(_)) | Some(TokenKind::Ident(_)) | Some(
            TokenKind::LParen,
        ) => true,
        _ => false,
    }
}

/// `application ::= atom {atom}`, grouped to the left.
pub open spec fn parse_application(t: Seq<Token>, p: int) -> Parsed
    decreases remaining(t, p), 2nat,
{
    match parse_atom(t, p) {
        Ok((function, q)) => if p <= q {
            parse_application_rest(t, function, q)
        } else {
            Err((q, "式"@))
        },
        Err(e) => Err(e),
    }
}

/// The `{atom}` part of `application` after the applied expression `function`.
pub open spec fn parse_application_rest(t: Seq<Token>, function: Expr, p: int) -> Parsed
    decreases remaining(t, p), 1nat,
{
    if starts_atom(kind_at(t, p)) {
        match parse_atom(t, p) {
            Ok((argument, q)) => if p < q {
                parse_application_rest(
                    t,
                    Expr {
                        kind: ExprKind::Apply {
                            function: Box::new(function),
                            argument: Box::new(argument),
                        },
                        span: Span { start: function.span.start, end: argument.span.end },
                    },
                    q,
                )
            } else {
                Err((q, "式"@))
            },
            Err(e) => Err(e),
        }
    } else {
        Ok((function, p))
    }
}

/// `atom ::= INT | BOOL | IDENT | ( expression )`; parentheses leave no
/// node of their own, but the expression inside spans them.
pub open spec fn parse_atom(t: Seq<Token>, p: int) -> Parsed
    decreases remaining(t, p), 0nat,
{
    match kind_at(t, p) {
        Some(TokenKind::Int(value)) => Ok((Expr { kind: ExprKind::Int(value), span: t[p].span }, p + 1)),
        Some(TokenKind::Bool(value)) => Ok(
            (Expr { kind: ExprKind::Bool(value), span: t[p].span }, p + 1),
        ),
        Some(TokenKind::Ident(name)) => Ok((Expr { kind: ExprKind::Var(name), span: t[p].span }, p + 1)),
        Some(TokenKind::LParen) => match parse_expression(t, p + 1) {
            Ok((inner, q)) => if kind_at(t, q) == Some(TokenKind::RParen) {
                Ok(
                    (
                        Expr {
                            kind: inner.kind,
                            span: Span { start: t[p].span.start, end: t[q].span.end },
                        },
                        q + 1,
                    ),
                )
            } else {
                Err((q, kind_name(TokenKind::RParen)))
            },
            Err(e) => Err(e),
        },
        _ => Err((p, atom_expected(kind_at(t, p)))),
    }
}

/// A whole program: one expression, then `Eof` as the last token.
pub open spec fn parse_program(t: Seq<Token>) -> Result<Expr, (int, Seq<char>)> {
    match parse_expression(t, 0) {
        Ok((expr, p)) => if kind_at(t, p) == Some(TokenKind::Eof) {
            if p + 1 == t.len() {
                Ok(expr)
            } else {
                Err((p + 1, "入力末尾"@))
            }
        } else {
            Err((p, kind_name(TokenKind::Eof)))
        },
        Err(e) => Err(e),
    }
}

/// The span that an error at position `p` points to: the token there, or
/// the empty span at the end of the last token when the tokens ran out.
pub open spec fn error_span(t: Seq<Token>, p: int) -> Span {
    if 0 <= p < t.len() {
        t[p].span
    } else if t.len() > 0 {
        Span { start: t.last().span.end, end: t.last().span.end }
    } else {
        Span { start: 0, end: 0 }
    }
}

/// A phrase `expr` read from position `p` up to `q` consumed at least one
/// token and spans its tokens: from the start of the first to the end of the last.
pub open spec fn spans_tokens(t: Seq<Token>, p: int, expr: Expr, q: int) -> bool {
    &&& p < q <= t.len()
    &&& expr.span == Span { start: t[p].span.start, end: t[q - 1].span.end }
}

proof fn lemma_expression_spans(t: Seq<Token>, p: int)
    requires
        0 <= p,
    ensures
        parse_expression(t, p) matches Ok((e, q)) ==> spans_tokens(t, p, e, q),
    decreases remaining(t, p), 9nat,
{
    match kind_at(t, p) {
        Some(TokenKind::Let) => {
            if kind_at(t, p + 1) is Some && kind_at(t, p + 1)->0 is Ident && kind_at(t, p + 2) == Some(
                TokenKind::Equal,
            ) {
                lemma_expression_spans(t, p + 3);
                if let Ok((_, q)) = parse_expression(t, p + 3) {
                    if kind_at(t, q) == Some(TokenKind::In) && p <= q {
                        lemma_expression_spans(t, q + 1);
                    }
                }
            }
        },
        Some(TokenKind::If) => {
            lemma_expression_spans(t, p + 1);
            if let Ok((_, q)) = parse_expression(t, p + 1) {
                if kind_at(t, q) == Some(TokenKind::Then) && p <= q {
                    lemma_expression_spans(t, q + 1);
                    if let Ok((_, r)) = parse_expression(t, q + 1) {
                        if kind_at(t, r) == Some(TokenKind::Else) && p <= r {
                            lemma_expression_spans(t, r + 1);
                        }
                    }
                }
            }
        },
        Some(TokenKind::Fun) => {
            if kind_at(t, p + 1) is Some && kind_at(t, p + 1)->0 is Ident && kind_at(t, p + 2) == Some(
                TokenKind::Arrow,
            ) {
                lemma_expression_spans(t, p + 3);
            }
        },
        _ => {
            lemma_comparison_spans(t, p);
        },
    }
}

proof fn lemma_comparison_spans(t: Seq<Token>, p: int)
    requires
        0 <= p,
    ensures
        parse_comparison(t, p) matches Ok((e, q)) ==> spans_tokens(t, p, e, q),
    decreases remaining(t, p), 8nat,
{
    lemma_additive_spans(t, p);
    if let Ok((_, q)) = parse_additive(t, p) {
        if kind_at(t, q) == Some(TokenKind::Less) && p <= q {
            lemma_additive_spans(t, q + 1);
        }
    }
}

proof fn lemma_additive_spans(t: Seq<Token>, p: int)
    requires
        0 <= p,
    ensures
        parse_additive(t, p) matches Ok((e, q)) ==> spans_tokens(t, p, e, q),
    decreases remaining(t, p), 7nat,
{
    lemma_product_spans(t, p);
    if let Ok((left, q)) = parse_product(t, p) {
        lemma_additive_rest_spans(t, left, q, p);
    }
}

proof fn lemma_additive_rest_spans(t: Seq<Token>, left: Expr, p: int, p0: int)
    requires
        0 <= p0,
        spans_tokens(t, p0, left, p),
    ensures
        parse_additive_rest(t, left, p) matches Ok((e, q)) ==> spans_tokens(t, p0, e, q),
    decreases remaining(t, p), 6nat,
{
    if kind_at(t, p) == Some(TokenKind::Plus) || kind_at(t, p) == Some(TokenKind::Minus) {
        let op = if kind_at(t, p) == Some(TokenKind::Plus) {
            BinaryOp::Add
        } else {
            BinaryOp::Subtract
        };
        lemma_product_spans(t, p + 1);
        if let Ok((right, q)) = parse_product(t, p + 1) {
            if p < q {
                lemma_additive_rest_spans(t, binary(op, left, right), q, p0);
            }
        }
    }
}

proof fn lemma_product_spans(t: Seq<Token>, p: int)
    requires
        0 <= p,
    ensures
        parse_product(t, p) matches Ok((e, q)) ==> spans_tokens(t, p, e, q),
    decreases remaining(t, p), 5nat,
{
    lemma_unary_spans(t, p);
    if let Ok((left, q)) = parse_unary(t, p) {
        lemma_product_rest_spans(t, left, q, p);
    }
}

proof fn lemma_product_rest_spans(t: Seq<Token>, left: Expr, p: int, p0: int)
    requires
        0 <= p0,
        spans_tokens(t, p0, left, p),
    ensures
        parse_product_rest(t, left, p) matches Ok((e, q)) ==> spans_tokens(t, p0, e, q),
    decreases remaining(t, p), 4nat,
{
    if kind_at(t, p) == Some(TokenKind::Star) || kind_at(t, p) == Some(TokenKind::Slash) {
        let op = if kind_at(t, p) == Some(TokenKind::Star) {
            BinaryOp::Multiply
        } else {
            BinaryOp::Divide
        };
        lemma_unary_spans(t, p + 1);
        if let Ok((right, q)) = parse_unary(t, p + 1) {
            if p < q {
                lemma_product_rest_spans(t, binary(op, left, right), q, p0);
            }
        }
    }
}

proof fn lemma_unary_spans(t: Seq<Token>, p: int)
    requires
        0 <= p,
    ensures
        parse_unary(t, p) matches Ok((e, q)) ==> spans_tokens(t, p, e, q),
    decreases remaining(t, p), 3nat,
{
    if kind_at(t, p) == Some(TokenKind::Minus) {
        lemma_unary_spans(t, p + 1);
    } else {
        lemma_application_spans(t, p);
    }
}

proof fn lemma_application_spans(t: Seq<Token>, p: int)
    requires
        0 <= p,
    ensures
        parse_application(t, p) matches Ok((e, q)) ==> spans_tokens(t, p, e, q),
    decreases remaining(t, p), 2nat,
{
    lemma_atom_spans(t, p);
    if let Ok((function, q)) = parse_atom(t, p) {
        lemma_application_rest_spans(t, function, q, p);
    }
}

proof fn lemma_application_rest_spans(t: Seq<Token>, function: Expr, p: int, p0: int)
    requires
        0 <= p0,
        spans_tokens(t, p0, function, p),
    ensures
        parse_application_rest(t, function, p) matches Ok((e, q)) ==> spans_tokens(t, p0, e, q),
    decreases remaining(t, p), 1nat,
{
    if starts_atom(kind_at(t, p)) {
        lemma_atom_spans(t, p);
        if let Ok((argument, q)) = parse_atom(t, p) {
            if p < q {
                lemma_application_rest_spans(
                    t,
                    Expr {
                        kind: ExprKind::Apply {
                            function: Box::new(function),
                            argument: Box::new(argument),
                        },
                        span: Span { start: function.span.start, end: argument.span.end },
                    },
                    q,
                    p0,
                );
            }
        }
    }
}

#[verifier::spinoff_prover]
#[verifier::rlimit(40)]
proof fn lemma_atom_spans(t: Seq<Token>, p: int)
    requires
        0 <= p,
    ensures
        parse_atom(t, p) matches Ok((e, q)) ==> spans_tokens(t, p, e, q),
    decreases remaining(t, p), 0nat,
{
    match kind_at(t, p) {
        Some(TokenKind::LParen) => {
            lemma_expression_spans(t, p + 1);
            if let Ok((inner, q)) = parse_expression(t, p + 1) {
                if kind_at(t, q) == Some(TokenKind::RParen) {
                    let e = Expr { kind: inner.kind, span: Span { start: t[p].span.start, end: t[q].span.end } };
                    assert(parse_atom(t, p) == Ok::<(Expr, int), (int, Seq<char>)>((e, q + 1)));
                    assert(spans_tokens(t, p, e, q + 1));
                }
            }
        },
        Some(TokenKind::Int(_)) | Some(TokenKind::Bool(_)) | Some(TokenKind::Ident(_)) => {},
        _ => {
            assert(parse_atom(t, p) is Err);
        },
    }
}

/// Every phrase of the grammar consumes at least one token and spans
/// exactly the tokens it was read from, from the start of the first to the
/// end of the last. (So the checks that keep the grammar's definitions
/// well-founded never decide anything.)
pub proof fn law_phrases_span_their_tokens(t: Seq<Token>, p: int)
    requires
        0 <= p,
    ensures
        parse_expression(t, p) matches Ok((e, q)) ==> spans_tokens(t, p, e, q),
        parse_comparison(t, p) matches Ok((e, q)) ==> spans_tokens(t, p, e, q),
        parse_additive(t, p) matches Ok((e, q)) ==> spans_tokens(t, p, e, q),
        parse_product(t, p) matches Ok((e, q)) ==> spans_tokens(t, p, e, q),
        parse_unary(t, p) matches Ok((e, q)) ==> spans_tokens(t, p, e, q),
        parse_application(t, p) matches Ok((e, q)) ==> spans_tokens(t, p, e, q),
        parse_atom(t, p) matches Ok((e, q)) ==> spans_tokens(t, p, e, q),
{
    lemma_expression_spans(t, p);
    lemma_comparison_spans(t, p);
    lemma_additive_spans(t, p);
    lemma_product_spans(t, p);
    lemma_unary_spans(t, p);
    lemma_application_spans(t, p);
    lemma_atom_spans(t, p);
}

/// A parsed program spans its tokens up to the final `Eof`: from the start
/// of the first token to the end of the last one before `Eof`.
pub proof fn law_program_spans_its_tokens(t: Seq<Token>)
    ensures
        parse_program(t) matches Ok(e) ==> t.len() >= 2 && e.span == (Span {
            start: t[0].span.start,
            end: t[t.len() - 2].span.end,
        }),
{
    lemma_expression_spans(t, 0);
}

/// The expression of an integer literal token.
pub open spec fn literal(token: Token) -> Expr {
    Expr { kind: ExprKind::Int(token.kind->Int_0), span: token.span }
}

/// The arithmetic operator that a token stands for, if it stands for one.
pub open spec fn arithmetic_operator(kind: TokenKind) -> Option<BinaryOp> {
    match kind {
        TokenKind::Plus => Some(BinaryOp::Add),
        TokenKind::Minus => Some(BinaryOp::Subtract),
        TokenKind::Star => Some(BinaryOp::Multiply),
        TokenKind::Slash => Some(BinaryOp::Divide),
        _ => None,
    }
}

/// `*` and `/` bind tighter than `+` and `-`.
pub open spec fn binds_tighter(kind: TokenKind) -> bool {
    kind == TokenKind::Star || kind == TokenKind::Slash
}

/// An integer literal followed by a token that begins no atom is an operand on its own.
proof fn lemma_literal_operand(t: Seq<Token>, p: int)
    requires
        0 <= p,
        p + 1 < t.len(),
        t[p].kind is Int,
        !starts_atom(kind_at(t, p + 1)),
    ensures
        parse_unary(t, p) == Ok::<(Expr, int), (int, Seq<char>)>((literal(t[p]), p + 1)),
{
    assert(parse_atom(t, p) == Ok::<(Expr, int), (int, Seq<char>)>((literal(t[p]), p + 1)));
    assert(parse_application_rest(t, literal(t[p]), p + 1) == Ok::<(Expr, int), (int, Seq<char>)>(
        (literal(t[p]), p + 1),
    ));
    assert(parse_application(t, p) == Ok::<(Expr, int), (int, Seq<char>)>((literal(t[p]), p + 1)));
}

/// How `a op1 b op2 c` groups, for integer literals and arithmetic
/// operators: operators of the same strength group to the left (`8 / 4 / 2`
/// is `(8 / 4) / 2`, `1 - 2 - 3` is `(1 - 2) - 3`), and `*` and `/` bind
/// tighter than `+` and `-` on either side (`a + b * c` is `a + (b * c)`,
/// `a * b + c` is `(a * b) + c`).
pub proof fn law_operators_group(t: Seq<Token>)
    requires
        t.len() == 6,
        t[0].kind is Int,
        t[2].kind is Int,
        t[4].kind is Int,
        arithmetic_operator(t[1].kind) is Some,
        arithmetic_operator(t[3].kind) is Some,
        t[5].kind == TokenKind::Eof,
    ensures
        ({
            let op1 = arithmetic_operator(t[1].kind)->Some_0;
            let op2 = arithmetic_operator(t[3].kind)->Some_0;
            let (a, b, c) = (literal(t[0]), literal(t[2]), literal(t[4]));
            parse_program(t) == Ok::<Expr, (int, Seq<char>)>(
                if binds_tighter(t[3].kind) && !binds_tighter(t[1].kind) {
                    binary(op1, a, binary(op2, b, c))
                } else {
                    binary(op2, binary(op1, a, b), c)
                },
            )
        }),
{
    let op1 = arithmetic_operator(t[1].kind)->Some_0;
    let op2 = arithmetic_operator(t[3].kind)->Some_0;
    let (a, b, c) = (literal(t[0]), literal(t[2]), literal(t[4]));
    lemma_literal_operand(t, 0);
    lemma_literal_operand(t, 2);
    lemma_literal_operand(t, 4);
    let whole = if binds_tighter(t[3].kind) && !binds_tighter(t[1].kind) {
        binary(op1, a, binary(op2, b, c))
    } else {
        binary(op2, binary(op1, a, b), c)
    };
    if binds_tighter(t[1].kind) {
        let ab = binary(op1, a, b);
        assert(parse_product_rest(t, whole, 5) == Ok::<(Expr, int), (int, Seq<char>)>((whole, 5)));
        if binds_tighter(t[3].kind) {
            assert(parse_product_rest(t, ab, 3) == Ok::<(Expr, int), (int, Seq<char>)>((whole, 5)));
            assert(parse_product_rest(t, a, 1) == Ok::<(Expr, int), (int, Seq<char>)>((whole, 5)));
            assert(parse_product(t, 0) == Ok::<(Expr, int), (int, Seq<char>)>((whole, 5)));
            assert(parse_additive_rest(t, whole, 5) == Ok::<(Expr, int), (int, Seq<char>)>((whole, 5)));
        } else {
            assert(parse_product_rest(t, ab, 3) == Ok::<(Expr, int), (int, Seq<char>)>((ab, 3)));
            assert(parse_product_rest(t, a, 1) == Ok::<(Expr, int), (int, Seq<char>)>((ab, 3)));
            assert(parse_product(t, 0) == Ok::<(Expr, int), (int, Seq<char>)>((ab, 3)));
            assert(parse_product_rest(t, c, 5) == Ok::<(Expr, int), (int, Seq<char>)>((c, 5)));
            assert(parse_product(t, 4) == Ok::<(Expr, int), (int, Seq<char>)>((c, 5)));
            assert(parse_additive_rest(t, whole, 5) == Ok::<(Expr, int), (int, Seq<char>)>((whole, 5)));
            assert(parse_additive_rest(t, ab, 3) == Ok::<(Expr, int), (int, Seq<char>)>((whole, 5)));
        }
    } else {
        assert(parse_product_rest(t, a, 1) == Ok::<(Expr, int), (int, Seq<char>)>((a, 1)));
        assert(parse_product(t, 0) == Ok::<(Expr, int), (int, Seq<char>)>((a, 1)));
        assert(parse_additive_rest(t, whole, 5) == Ok::<(Expr, int), (int, Seq<char>)>((whole, 5)));
        if binds_tighter(t[3].kind) {
            let bc = binary(op2, b, c);
            assert(parse_product_rest(t, bc, 5) == Ok::<(Expr, int), (int, Seq<char>)>((bc, 5)));
            assert(parse_product_rest(t, b, 3) == Ok::<(Expr, int), (int, Seq<char>)>((bc, 5)));
            assert(parse_product(t, 2) == Ok::<(Expr, int), (int, Seq<char>)>((bc, 5)));
            assert(parse_additive_rest(t, a, 1) == Ok::<(Expr, int), (int, Seq<char>)>((whole, 5)));
        } else {
            let ab = binary(op1, a, b);
            assert(parse_product_rest(t, b, 3) == Ok::<(Expr, int), (int, Seq<char>)>((b, 3)));
            assert(parse_product(t, 2) == Ok::<(Expr, int), (int, Seq<char>)>((b, 3)));
            assert(parse_product_rest(t, c, 5) == Ok::<(Expr, int), (int, Seq<char>)>((c, 5)));
            assert(parse_product(t, 4) == Ok::<(Expr, int), (int, Seq<char>)>((c, 5)));
            assert(parse_additive_rest(t, ab, 3) == Ok::<(Expr, int), (int, Seq<char>)>((whole, 5)));
            assert(parse_additive_rest(t, a, 1) == Ok::<(Expr, int), (int, Seq<char>)>((whole, 5)));
        }
    }
    assert(parse_additive(t, 0) == Ok::<(Expr, int), (int, Seq<char>)>((whole, 5)));
    assert(parse_comparison(t, 0) == Ok::<(Expr, int), (int, Seq<char>)>((whole, 5)));
    assert(parse_expression(t, 0) == Ok::<(Expr, int), (int, Seq<char>)>((whole, 5)));
}

/// The token kinds that carry no value.
pub open spec fn fieldless(kind: TokenKind) -> bool {
    !(kind is Int || kind is Bool || kind is Ident)
}

fn kind_is(actual: &TokenKind, expected: &TokenKind) -> (same: bool)
    requires
        fieldless(*expected),
    ensures
        same == (*actual == *expected),
{
    match (actual, expected) {
        (TokenKind::If, TokenKind::If) => true,
        (TokenKind::Then, TokenKind::Then) => true,
        (TokenKind::Else, TokenKind::Else) => true,
        (TokenKind::Let, TokenKind::Let) => true,
        (TokenKind::In, TokenKind::In) => true,
        (TokenKind::Fun, TokenKind::Fun) => true,
        (TokenKind::Arrow, TokenKind::Arrow) => true,
        (TokenKind::Equal, TokenKind::Equal) => true,
        (TokenKind::Plus, TokenKind::Plus) => true,
        (TokenKind::Minus, TokenKind::Minus) => true,
        (TokenKind::Star, TokenKind::Star) => true,
        (TokenKind::Slash, TokenKind::Slash) => true,
        (TokenKind::Less, TokenKind::Less) => true,
        (TokenKind::LParen, TokenKind::LParen) => true,
        (TokenKind::RParen, TokenKind::RParen) => true,
        (TokenKind::Eof, TokenKind::Eof) => true,
        _ => false,
    }
}

/// `format!("{:?}")` of the token kind found (std's `Debug` of an `Option`
/// of the derived `Debug` of `TokenKind`): a function of it alone, named
/// `found_rendering`.
#[verifier::external_body]
fn found_debug(found: Option<&TokenKind>) -> (text: String)
    ensures
        text@ == found_rendering(
            match found {
                Some(k) => Some(*k),
                None => None,
            },
        ),
{
    format!("{found:?}")
}

/// The name of a token kind that carries no value.
fn kind_text(kind: &TokenKind) -> (text: &'static str)
    requires
        fieldless(*kind),
    ensures
        text@ == kind_name(*kind),
{
    proof {
        reveal(kind_name);
    }
    match kind {
        TokenKind::If => "If",
        TokenKind::Then => "Then",
        TokenKind::Else => "Else",
        TokenKind::Let => "Let",
        TokenKind::In => "In",
        TokenKind::Fun => "Fun",
        TokenKind::Arrow => "Arrow",
        TokenKind::Equal => "Equal",
        TokenKind::Plus => "Plus",
        TokenKind::Minus => "Minus",
        TokenKind::Star => "Star",
        TokenKind::Slash => "Slash",
        TokenKind::Less => "Less",
        TokenKind::LParen => "LParen",
        TokenKind::RParen => "RParen",
        _ => "Eof",
    }
}

/// `result`, with the parser at `position`, is what `parsed` describes for the tokens `t`.
pub open spec fn reports_parse(result: LangResult<Expr>, position: usize, parsed: Parsed, t: Seq<Token>) -> bool {
    match parsed {
        Ok((expr, q)) => result == Ok::<Expr, Diagnostic>(expr) && position == q,
        Err((q, expected)) => result matches Err(d) && reports_error(
            d,
            Stage::Parser,
            ErrorKind::UnexpectedToken,
            error_span(t, q),
        ) && d.message@ == parse_message(expected, kind_at(t, q)),
    }
}

struct Parser<'a> {
    tokens: &'a [Token],
    position: usize,
}

spec fn step(before: Parser, after: Parser, result: LangResult<Expr>, parsed: Parsed) -> bool {
    &&& after.tokens == before.tokens
    &&& before.position <= after.position <= after.tokens@.len()
    &&& reports_parse(result, after.position, parsed, before.tokens@)
}

impl<'a> Parser<'a> {
    fn peek(&self) -> (kind: Option<&TokenKind>)
        ensures
            kind is Some <==> self.position < self.tokens@.len(),
            match kind {
                Some(k) => kind_at(self.tokens@, self.position as int) == Some(*k),
                None => kind_at(self.tokens@, self.position as int) is None,
            },
    {
        if self.position < self.tokens.len() {
            Some(&self.tokens[self.position].kind)
        } else {
            None
        }
    }

    fn at(&self, kind: &TokenKind) -> (found: bool)
        requires
            fieldless(*kind),
        ensures
            found == (kind_at(self.tokens@, self.position as int) == Some(*kind)),
    {
        match self.peek() {
            Some(k) => kind_is(k, kind),
            None => false,
        }
    }

    fn error(&self, expected: &str) -> (d: Diagnostic)
        ensures
            reports_error(
                d,
                Stage::Parser,
                ErrorKind::UnexpectedToken,
                error_span(self.tokens@, self.position as int),
            ),
            d.message@ == parse_message(expected@, kind_at(self.tokens@, self.position as int)),
    {
        let span = if self.position < self.tokens.len() {
            self.tokens[self.position].span
        } else if self.tokens.len() > 0 {
            let end = self.tokens[self.tokens.len() - 1].span.end;
            Span::new(end, end)
        } else {
            Span::new(0, 0)
        };
        proof {
            reveal(parse_message);
        }
        Diagnostic {
            stage: Stage::Parser,
            kind: ErrorKind::UnexpectedToken,
            message: String::from_str(expected).concat("が必要です。見つかったもの: ").concat(
                found_debug(self.peek()).as_str(),
            ),
            span: Some(span),
        }
    }

    fn expect(&mut self, kind: &TokenKind) -> (result: LangResult<Span>)
        requires
            fieldless(*kind),
            old(self).position <= old(self).tokens@.len(),
        ensures
            final(self).tokens == old(self).tokens,
            if kind_at(old(self).tokens@, old(self).position as int) == Some(*kind) {
                &&& result == Ok::<Span, Diagnostic>(old(self).tokens@[old(self).position as int].span)
                &&& final(self).position == old(self).position + 1
            } else {
                &&& result matches Err(d) && reports_error(
                    d,
                    Stage::Parser,
                    ErrorKind::UnexpectedToken,
                    error_span(old(self).tokens@, old(self).position as int),
                ) && d.message@ == parse_message(
                    kind_name(*kind),
                    kind_at(old(self).tokens@, old(self).position as int),
                )
                &&& final(self).position == old(self).position
            },
    {
        if !self.at(kind) {
            return Err(self.error(kind_text(kind)));
        }
        let span = self.tokens[self.position].span;
        self.position += 1;
        Ok(span)
    }

    fn advance(&mut self)
        requires
            old(self).position < old(self).tokens@.len(),
        ensures
            final(self).tokens == old(self).tokens,
            final(self).position == old(self).position + 1,
    {
        let n = self.tokens.len();
        assert(self.position < n);
        self.position += 1;
    }

    fn identifier(&mut self) -> (result: LangResult<String>)
        requires
            old(self).position <= old(self).tokens@.len(),
        ensures
            final(self).tokens == old(self).tokens,
            old(self).position <= final(self).position <= final(self).tokens@.len(),
            match kind_at(old(self).tokens@, old(self).position as int) {
                Some(TokenKind::Ident(name)) => result == Ok::<String, Diagnostic>(name)
                    && final(self).position == old(self).position + 1,
                _ => result matches Err(d) && reports_error(
                    d,
                    Stage::Parser,
                    ErrorKind::UnexpectedToken,
                    error_span(old(self).tokens@, old(self).position as int),
                ) && d.message@ == parse_message(
                    "識別子"@,
                    kind_at(old(self).tokens@, old(self).position as int),
                ) && final(self).position == old(self).position,
            },
    {
        let name = match self.peek() {
            Some(TokenKind::Ident(name)) => name.clone(),
            _ => return Err(self.error("識別子")),
        };
        self.advance();
        Ok(name)
    }

    fn expression(&mut self) -> (result: LangResult<Expr>)
        requires
            old(self).position <= old(self).tokens@.len(),
        ensures
            step(*old(self), *final(self), result, parse_expression(old(self).tokens@, old(self).position as int)),
        decreases remaining(old(self).tokens@, old(self).position as int), 9nat,
    {
        if self.at(&TokenKind::Let) {
            let start = self.expect(&TokenKind::Let)?.start;
            let name = self.identifier()?;
            self.expect(&TokenKind::Equal)?;
            let value = Box::new(self.expression()?);
            self.expect(&TokenKind::In)?;
            let body = Box::new(self.expression()?);
            let span = Span::new(start, body.span.end);
            Ok(Expr::new(ExprKind::Let { name, value, body }, span))
        } else if self.at(&TokenKind::If) {
            let start = self.expect(&TokenKind::If)?.start;
            let condition = Box::new(self.expression()?);
            self.expect(&TokenKind::Then)?;
            let then_branch = Box::new(self.expression()?);
            self.expect(&TokenKind::Else)?;
            let else_branch = Box::new(self.expression()?);
            let span = Span::new(start, else_branch.span.end);
            Ok(Expr::new(ExprKind::If { condition, then_branch, else_branch }, span))
        } else if self.at(&TokenKind::Fun) {
            let start = self.expect(&TokenKind::Fun)?.start;
            let parameter = self.identifier()?;
            self.expect(&TokenKind::Arrow)?;
            let body = Box::new(self.expression()?);
            let span = Span::new(start, body.span.end);
            Ok(Expr::new(ExprKind::Fun { parameter, body }, span))
        } else {
            self.comparison()
        }
    }

    fn binary(op: BinaryOp, left: Expr, right: Expr) -> (expr: Expr)
        ensures
            expr == binary(op, left, right),
    {
        let span = Span::new(left.span.start, right.span.end);
        Expr::new(ExprKind::Binary { op, left: Box::new(left), right: Box::new(right) }, span)
    }

    fn comparison(&mut self) -> (result: LangResult<Expr>)
        requires
            old(self).position <= old(self).tokens@.len(),
        ensures
            step(*old(self), *final(self), result, parse_comparison(old(self).tokens@, old(self).position as int)),
        decreases remaining(old(self).tokens@, old(self).position as int), 8nat,
    {
        let left = self.additive()?;
        if self.at(&TokenKind::Less) {
            self.advance();
            let right = self.additive()?;
            Ok(Self::binary(BinaryOp::Less, left, right))
        } else {
            Ok(left)
        }
    }

    #[verifier::spinoff_prover]
    fn additive(&mut self) -> (result: LangResult<Expr>)
        requires
            old(self).position <= old(self).tokens@.len(),
        ensures
            step(*old(self), *final(self), result, parse_additive(old(self).tokens@, old(self).position as int)),
        decreases remaining(old(self).tokens@, old(self).position as int), 7nat,
    {
        let ghost t = self.tokens@;
        let ghost start = self.position as int;
        let mut expr = self.product()?;
        loop
            invariant
                self.tokens@ == t,
                self.tokens == old(self).tokens,
                start <= self.position <= t.len(),
                start == old(self).position,
                parse_additive(t, start) == parse_additive_rest(t, expr, self.position as int),
            ensures
                self.tokens == old(self).tokens,
                start <= self.position <= t.len(),
                parse_additive(t, start) == Ok::<(Expr, int), (int, Seq<char>)>((expr, self.position as int)),
            decreases t.len() - self.position,
        {
            let op = if self.at(&TokenKind::Plus) {
                BinaryOp::Add
            } else if self.at(&TokenKind::Minus) {
                BinaryOp::Subtract
            } else {
                break;
            };
            self.advance();
            let ghost before = self.position as int;
            let right = self.product()?;
            assert(parse_additive_rest(t, expr, before - 1) == parse_additive_rest(
                t,
                binary(op, expr, right),
                self.position as int,
            ));
            expr = Self::binary(op, expr, right);
        }
        Ok(expr)
    }

    #[verifier::spinoff_prover]
    fn product(&mut self) -> (result: LangResult<Expr>)
        requires
            old(self).position <= old(self).tokens@.len(),
        ensures
            step(*old(self), *final(self), result, parse_product(old(self).tokens@, old(self).position as int)),
        decreases remaining(old(self).tokens@, old(self).position as int), 5nat,
    {
        let ghost t = self.tokens@;
        let ghost start = self.position as int;
        let mut expr = self.unary()?;
        loop
            invariant
                self.tokens@ == t,
                self.tokens == old(self).tokens,
                start <= self.position <= t.len(),
                start == old(self).position,
                parse_product(t, start) == parse_product_rest(t, expr, self.position as int),
            ensures
                self.tokens == old(self).tokens,
                start <= self.position <= t.len(),
                parse_product(t, start) == Ok::<(Expr, int), (int, Seq<char>)>((expr, self.position as int)),
            decreases t.len() - self.position,
        {
            let op = if self.at(&TokenKind::Star) {
                BinaryOp::Multiply
            } else if self.at(&TokenKind::Slash) {
                BinaryOp::Divide
            } else {
                break;
            };
            self.advance();
            let ghost before = self.position as int;
            let right = self.unary()?;
            assert(parse_product_rest(t, expr, before - 1) == parse_product_rest(
                t,
                binary(op, expr, right),
                self.position as int,
            ));
            expr = Self::binary(op, expr, right);
        }
        Ok(expr)
    }

    fn unary(&mut self) -> (result: LangResult<Expr>)
        requires
            old(self).position <= old(self).tokens@.len(),
        ensures
            step(*old(self), *final(self), result, parse_unary(old(self).tokens@, old(self).position as int)),
        decreases remaining(old(self).tokens@, old(self).position as int), 3nat,
    {
        if self.at(&TokenKind::Minus) {
            let start = self.expect(&TokenKind::Minus)?.start;
            let inner = self.unary()?;
            let span = Span::new(start, inner.span.end);
            Ok(Expr::new(ExprKind::Negate(Box::new(inner)), span))
        } else {
            self.application()
        }
    }

    fn starts_atom(&self) -> (starts: bool)
        ensures
            starts == starts_atom(kind_at(self.tokens@, self.position as int)),
    {
        match self.peek() {
            Some(TokenKind::Int(_)) | Some(TokenKind::Bool(_)) | Some(TokenKind::Ident(_)) | Some(
                TokenKind::LParen,
            ) => true,
            _ => false,
        }
    }

    fn application(&mut self) -> (result: LangResult<Expr>)
        requires
            old(self).position <= old(self).tokens@.len(),
        ensures
            step(*old(self), *final(self), result, parse_application(old(self).tokens@, old(self).position as int)),
        decreases remaining(old(self).tokens@, old(self).position as int), 2nat,
    {
        let ghost t = self.tokens@;
        let ghost start = self.position as int;
        let mut expr = self.atom()?;
        while self.starts_atom()
            invariant
                self.tokens@ == t,
                self.tokens == old(self).tokens,
                start <= self.position <= t.len(),
                start == old(self).position,
                parse_application(t, start) == parse_application_rest(t, expr, self.position as int),
            decreases t.len() - self.position,
        {
            let argument = self.atom()?;
            let span = Span::new(expr.span.start, argument.span.end);
            expr = Expr::new(
                ExprKind::Apply { function: Box::new(expr), argument: Box::new(argument) },
                span,
            );
        }
        Ok(expr)
    }

    #[verifier::spinoff_prover]
    #[verifier::rlimit(40)]
    fn atom(&mut self) -> (result: LangResult<Expr>)
        requires
            old(self).position <= old(self).tokens@.len(),
        ensures
            step(*old(self), *final(self), result, parse_atom(old(self).tokens@, old(self).position as int)),
            result is Ok ==> old(self).position < final(self).position,
            !starts_atom(kind_at(old(self).tokens@, old(self).position as int)) ==> result is Err
                && final(self).position == old(self).position,
        decreases remaining(old(self).tokens@, old(self).position as int), 0nat,
    {
        proof {
            reveal(atom_expected);
        }
        let tokens = self.tokens;
        if self.position >= tokens.len() {
            return Err(self.error("式"));
        }
        let token = &tokens[self.position];
        let kind = match &token.kind {
            TokenKind::Int(value) => ExprKind::Int(*value),
            TokenKind::Bool(value) => ExprKind::Bool(*value),
            TokenKind::Ident(name) => ExprKind::Var(name.clone()),
            TokenKind::LParen => {
                let start = self.expect(&TokenKind::LParen)?.start;
                let mut expr = self.expression()?;
                let end = self.expect(&TokenKind::RParen)?.end;
                expr.span = Span::new(start, end);
                return Ok(expr);
            },
            _ => return Err(self.error("整数・真偽値・識別子・括弧付きの式")),
        };
        let span = token.span;
        self.advance();
        Ok(Expr::new(kind, span))
    }
}

/// Reads one expression from the tokens, which must end with `Eof` right after it.
pub fn parse(tokens: &[Token]) -> (result: LangResult<Expr>)
    ensures
        match parse_program(tokens@) {
            Ok(expr) => result == Ok::<Expr, Diagnostic>(expr),
            Err((p, expected)) => result matches Err(d) && reports_error(
                d,
                Stage::Parser,
                ErrorKind::UnexpectedToken,
                error_span(tokens@, p),
            ) && d.message@ == parse_message(expected, kind_at(tokens@, p)),
        },
{
    let mut parser = Parser { tokens, position: 0 };
    let expr = parser.expression()?;
    parser.expect(&TokenKind::Eof)?;
    if parser.position != tokens.len() {
        return Err(parser.error("入力末尾"));
    }
    Ok(expr)
}

} // verus!
