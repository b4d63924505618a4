use vstd::prelude::*;
use vstd::string::StringSliceAdditionalSpecFns;
use vstd::utf8::*;

use crate::{
    error::{reports_error, Diagnostic, ErrorKind, LangResult, Stage},
    span::Span,
    token::{Token, TokenKind},
};

verus! {

broadcast use vstd::string::group_string_axioms;

/// The four whitespace bytes: space, tab, carriage return and line feed.
pub open spec fn is_space(c: u8) -> bool {
    c == 32 || c == 9 || c == 13 || c == 10
}

pub open spec fn is_digit(c: u8) -> bool {
    48 <= c <= 57
}

/// A byte that can begin an identifier: an ASCII letter or `_`.
pub open spec fn is_ident_start(c: u8) -> bool {
    (65 <= c <= 90) || (97 <= c <= 122) || c == 95
}

/// A byte that can continue an identifier: an ASCII letter, digit or `_`.
pub open spec fn is_ident_char(c: u8) -> bool {
    is_ident_start(c) || is_digit(c)
}

/// The one-byte operators other than `-`: `=`, `+`, `*`, `/`, `<`, `(` and `)`.
pub open spec fn is_symbol(c: u8) -> bool {
    c == 61 || c == 43 || c == 42 || c == 47 || c == 60 || c == 40 || c == 41
}

/// The first position at or after `i` that does not hold a digit.
pub open spec fn digits_end(b: Seq<u8>, i: int) -> int
    decreases b.len() - i,
{
    if 0 <= i < b.len() && is_digit(b[i]) {
        digits_end(b, i + 1)
    } else {
        i
    }
}

/// The first position at or after `i` that does not hold an identifier byte.
pub open spec fn ident_end(b: Seq<u8>, i: int) -> int
    decreases b.len() - i,
{
    if 0 <= i < b.len() && is_ident_char(b[i]) {
        ident_end(b, i + 1)
    } else {
        i
    }
}

/// The number written in decimal by a sequence of digits.
pub open spec fn digits_value(s: Seq<u8>) -> nat
    decreases s.len(),
{
    if s.len() == 0 {
        0
    } else {
        digits_value(s.drop_last()) * 10 + (s.last() - 48) as nat
    }
}

/// The end of the token that starts at `i` (a byte that is not whitespace),
/// or the error that the text at `i` is.
pub open spec fn token_end(b: Seq<u8>, i: int) -> Result<int, (ErrorKind, int, int)> {
    let c = b[i];
    if is_digit(c) {
        let e = digits_end(b, i + 1);
        if digits_value(b.subrange(i, e)) <= i64::MAX {
            Ok(e)
        } else {
            Err((ErrorKind::IntegerOutOfRange, i, e))
        }
    } else if is_ident_start(c) {
        Ok(ident_end(b, i + 1))
    } else if c == 45 {
        if i + 1 < b.len() && b[i + 1] == 62 {
            Ok(i + 2)
        } else {
            Ok(i + 1)
        }
    } else if is_symbol(c) {
        Ok(i + 1)
    } else {
        Err((ErrorKind::UnexpectedCharacter, i, i + length_of_first_scalar(b.subrange(i, b.len() as int))))
    }
}

pub proof fn lemma_run_ends(b: Seq<u8>, i: int)
    requires
        0 <= i <= b.len(),
    ensures
        i <= digits_end(b, i) <= b.len(),
        i <= ident_end(b, i) <= b.len(),
        forall|k: int| i <= k < digits_end(b, i) ==> is_digit(#[trigger] b[k]),
        forall|k: int| i <= k < ident_end(b, i) ==> is_ident_char(#[trigger] b[k]),
        digits_end(b, i) < b.len() ==> !is_digit(b[digits_end(b, i)]),
        ident_end(b, i) < b.len() ==> !is_ident_char(b[ident_end(b, i)]),
    decreases b.len() - i,
{
    if i < b.len() {
        lemma_run_ends(b, i + 1);
    }
}

pub proof fn lemma_token_end_advances(b: Seq<u8>, i: int)
    requires
        0 <= i < b.len(),
    ensures
        token_end(b, i) matches Ok(e) ==> i < e <= b.len(),
{
    lemma_run_ends(b, i + 1);
}

/// The byte ranges of the tokens of `b` from position `i` on, whitespace left
/// out, or the first error met.
pub open spec fn scan(b: Seq<u8>, i: int) -> Result<Seq<(int, int)>, (ErrorKind, int, int)>
    decreases b.len() - i,
{
    if i < 0 || i >= b.len() {
        Ok(seq![])
    } else if is_space(b[i]) {
        scan(b, i + 1)
    } else {
        match token_end(b, i) {
            Ok(e) => {
                proof {
                    lemma_token_end_advances(b, i);
                }
                match scan(b, e) {
                    Ok(rest) => Ok(seq![(i, e)] + rest),
                    Err(x) => Err(x),
                }
            },
            Err(x) => Err(x),
        }
    }
}

/// Where the `k`-th gap around the token ranges `ranges` begins: at `i`
/// before the first token, else where the token before it ends.
pub open spec fn gap_start(ranges: Seq<(int, int)>, i: int, k: int) -> int {
    if k == 0 {
        i
    } else {
        ranges[k - 1].1
    }
}

/// Where the `k`-th gap around the token ranges `ranges` ends: at the next
/// token, or at the end `n` of the input after the last one.
pub open spec fn gap_end(ranges: Seq<(int, int)>, n: int, k: int) -> int {
    if k == ranges.len() {
        n
    } else {
        ranges[k].0
    }
}

/// Every byte of `b` in `lo..hi` is whitespace.
pub open spec fn blank(b: Seq<u8>, lo: int, hi: int) -> bool {
    forall|j: int| lo <= j < hi ==> is_space(#[trigger] b[j])
}

/// The ranges `ranges` cut the bytes of `b` from `i` on into tokens: each
/// range is non-empty, they come in order without overlapping, and what lies
/// before the first, between two of them and after the last is whitespace.
pub open spec fn tiles(b: Seq<u8>, i: int, ranges: Seq<(int, int)>) -> bool {
    &&& forall|k: int| 0 <= k < ranges.len() ==> (#[trigger] ranges[k]).0 < ranges[k].1
    &&& forall|k: int|
        0 <= k <= ranges.len() ==> {
            &&& #[trigger] gap_start(ranges, i, k) <= gap_end(ranges, b.len() as int, k)
            &&& blank(b, gap_start(ranges, i, k), gap_end(ranges, b.len() as int, k))
        }
}

/// The lexer's token ranges tile its input: the tokens come in order, each
/// non-empty, none overlapping another, inside the input, and the bytes that
/// no token covers are whitespace.
pub proof fn law_tokens_tile_the_source(b: Seq<u8>, i: int)
    requires
        0 <= i <= b.len(),
    ensures
        scan(b, i) matches Ok(ranges) ==> tiles(b, i, ranges),
    decreases b.len() - i,
{
    if i < b.len() {
        if is_space(b[i]) {
            law_tokens_tile_the_source(b, i + 1);
            if let Ok(ranges) = scan(b, i) {
                assert forall|k: int| 0 <= k <= ranges.len() implies {
                    &&& #[trigger] gap_start(ranges, i, k) <= gap_end(ranges, b.len() as int, k)
                    &&& blank(b, gap_start(ranges, i, k), gap_end(ranges, b.len() as int, k))
                } by {
                    assert(gap_start(ranges, i + 1, k) <= gap_end(ranges, b.len() as int, k));
                    assert(blank(b, gap_start(ranges, i + 1, k), gap_end(ranges, b.len() as int, k)));
                }
            }
        } else if let Ok(e) = token_end(b, i) {
            lemma_token_end_advances(b, i);
            law_tokens_tile_the_source(b, e);
            if let Ok(rest) = scan(b, e) {
                let ranges = seq![(i, e)] + rest;
                assert(scan(b, i) == Ok::<Seq<(int, int)>, (ErrorKind, int, int)>(ranges));
                assert forall|k: int| 0 <= k < ranges.len() implies (#[trigger] ranges[k]).0 < ranges[k].1 by {
                    if k > 0 {
                        assert(ranges[k] == rest[k - 1]);
                    }
                }
                assert forall|k: int| 0 <= k <= ranges.len() implies {
                    &&& #[trigger] gap_start(ranges, i, k) <= gap_end(ranges, b.len() as int, k)
                    &&& blank(b, gap_start(ranges, i, k), gap_end(ranges, b.len() as int, k))
                } by {
                    if k > 0 {
                        assert(gap_start(ranges, i, k) == gap_start(rest, e, k - 1));
                        assert(gap_end(ranges, b.len() as int, k) == gap_end(rest, b.len() as int, k - 1));
                    }
                }
            }
        }
    }
}

/// An ASCII letter, upper or lower case, or `_`.
pub open spec fn letter_or_underscore(c: u8) -> bool {
    (65 <= c <= 90) || (97 <= c <= 122) || c == 95
}

/// An ASCII letter, upper or lower case, a digit or `_`.
pub open spec fn word_byte(c: u8) -> bool {
    letter_or_underscore(c) || (48 <= c <= 57)
}

/// A token that begins with a letter or `_` runs over every following
/// letter, digit and `_`: it ends at the first other byte, or at the end.
pub proof fn law_word_tokens_are_maximal(b: Seq<u8>, i: int)
    requires
        0 <= i < b.len(),
        letter_or_underscore(b[i]),
    ensures
        token_end(b, i) matches Ok(e) && i < e <= b.len() && (forall|k: int| i <= k < e ==> word_byte(
            #[trigger] b[k],
        )) && (e < b.len() ==> !word_byte(b[e])),
{
    lemma_run_ends(b, i + 1);
}

/// A source that is one word, a letter or `_` followed by letters, digits
/// and `_`, and no keyword, lexes to one identifier named by the whole text
/// and spanning it, then `Eof`.
pub proof fn law_one_identifier(b: Seq<u8>, result: LangResult<Vec<Token>>)
    requires
        0 < b.len() <= usize::MAX,
        letter_or_underscore(b[0]),
        forall|k: int| 0 <= k < b.len() ==> word_byte(#[trigger] b[k]),
        keyword(b) is None,
        lexes(b, result),
    ensures
        result is Ok,
        result->Ok_0@.len() == 2,
        result->Ok_0@[0].kind is Ident,
        encode_utf8(result->Ok_0@[0].kind->Ident_0@) == b,
        result->Ok_0@[0].span == (Span { start: 0, end: b.len() as usize }),
{
    let n = b.len() as int;
    law_word_tokens_are_maximal(b, 0);
    assert(token_end(b, 0) == Ok::<int, (ErrorKind, int, int)>(n));
    assert(scan(b, n) == Ok::<Seq<(int, int)>, (ErrorKind, int, int)>(seq![]));
    assert(seq![(0int, n)] + seq![] =~= seq![(0int, n)]);
    assert(scan(b, 0) == Ok::<Seq<(int, int)>, (ErrorKind, int, int)>(seq![(0int, n)]));
    let tokens = result->Ok_0;
    assert(token_from(tokens@[0], (0int, n), b));
    assert(b.subrange(0, n) =~= b);
}

/// The keywords, each read as its own token: `true`, `false`, `if`, `then`, `else`, `let`, `in`, `fun`.
pub proof fn law_keywords(b: Seq<u8>, result: LangResult<Vec<Token>>)
    requires
        0 < b.len() <= usize::MAX,
        letter_or_underscore(b[0]),
        forall|k: int| 0 <= k < b.len() ==> word_byte(#[trigger] b[k]),
        lexes(b, result),
    ensures
        result is Ok,
        result->Ok_0@.len() == 2,
        result->Ok_0@[0].span == (Span { start: 0, end: b.len() as usize }),
        b == seq![116u8, 114, 117, 101] ==> result->Ok_0@[0].kind == TokenKind::Bool(true),
        b == seq![102u8, 97, 108, 115, 101] ==> result->Ok_0@[0].kind == TokenKind::Bool(false),
        b == seq![105u8, 102] ==> result->Ok_0@[0].kind == TokenKind::If,
        b == seq![116u8, 104, 101, 110] ==> result->Ok_0@[0].kind == TokenKind::Then,
        b == seq![101u8, 108, 115, 101] ==> result->Ok_0@[0].kind == TokenKind::Else,
        b == seq![108u8, 101, 116] ==> result->Ok_0@[0].kind == TokenKind::Let,
        b == seq![105u8, 110] ==> result->Ok_0@[0].kind == TokenKind::In,
        b == seq![102u8, 117, 110] ==> result->Ok_0@[0].kind == TokenKind::Fun,
{
    let n = b.len() as int;
    law_word_tokens_are_maximal(b, 0);
    assert(token_end(b, 0) == Ok::<int, (ErrorKind, int, int)>(n));
    assert(scan(b, n) == Ok::<Seq<(int, int)>, (ErrorKind, int, int)>(seq![]));
    assert(seq![(0int, n)] + seq![] =~= seq![(0int, n)]);
    assert(scan(b, 0) == Ok::<Seq<(int, int)>, (ErrorKind, int, int)>(seq![(0int, n)]));
    let tokens = result->Ok_0;
    assert(token_from(tokens@[0], (0int, n), b));
    assert(b.subrange(0, n) =~= b);
}

/// The keyword that `text` spells, if it spells one.
pub open spec fn keyword(text: Seq<u8>) -> Option<TokenKind> {
    if text == seq![116u8, 114, 117, 101] {
        Some(TokenKind::Bool(true))
    } else if text == seq![102u8, 97, 108, 115, 101] {
        Some(TokenKind::Bool(false))
    } else if text == seq![105u8, 102] {
        Some(TokenKind::If)
    } else if text == seq![116u8, 104, 101, 110] {
        Some(TokenKind::Then)
    } else if text == seq![101u8, 108, 115, 101] {
        Some(TokenKind::Else)
    } else if text == seq![108u8, 101, 116] {
        Some(TokenKind::Let)
    } else if text == seq![105u8, 110] {
        Some(TokenKind::In)
    } else if text == seq![102u8, 117, 110] {
        Some(TokenKind::Fun)
    } else {
        None
    }
}

/// The token kind of a one-byte operator.
pub open spec fn symbol_kind(c: u8) -> TokenKind {
    if c == 45 {
        TokenKind::Minus
    } else if c == 61 {
        TokenKind::Equal
    } else if c == 43 {
        TokenKind::Plus
    } else if c == 42 {
        TokenKind::Star
    } else if c == 47 {
        TokenKind::Slash
    } else if c == 60 {
        TokenKind::Less
    } else if c == 40 {
        TokenKind::LParen
    } else {
        TokenKind::RParen
    }
}

/// `kind` is the token that the text of a token stands for: an integer's
/// value, a keyword, an identifier whose name is the text, or an operator.
pub open spec fn denotes(kind: TokenKind, text: Seq<u8>) -> bool {
    let c = text[0];
    if is_digit(c) {
        kind == TokenKind::Int(digits_value(text) as i64)
    } else if is_ident_start(c) {
        match keyword(text) {
            Some(k) => kind == k,
            None => kind matches TokenKind::Ident(name) && encode_utf8(name@) == text,
        }
    } else if text == seq![45u8, 62] {
        kind == TokenKind::Arrow
    } else {
        kind == symbol_kind(c)
    }
}

/// `token` is the token read from the byte range `range` of `b`.
pub open spec fn token_from(token: Token, range: (int, int), b: Seq<u8>) -> bool {
    &&& token.span.start == range.0
    &&& token.span.end == range.1
    &&& denotes(token.kind, b.subrange(range.0, range.1))
}

/// `result` is what the lexer gives for the bytes `b`: the tokens of
/// `scan(b, 0)` followed by `Eof` at the end of the input, or its error.
pub open spec fn lexes(b: Seq<u8>, result: LangResult<Vec<Token>>) -> bool {
    match scan(b, 0) {
        Ok(ranges) => result matches Ok(tokens) && {
            &&& tokens@.len() == ranges.len() + 1
            &&& forall|k: int| 0 <= k < ranges.len() ==> token_from(#[trigger] tokens@[k], ranges[k], b)
            &&& tokens@.last() == (Token {
                kind: TokenKind::Eof,
                span: Span { start: b.len() as usize, end: b.len() as usize },
            })
        },
        Err((kind, start, end)) => result matches Err(d) && reports_error(
            d,
            Stage::Lexer,
            kind,
            Span { start: start as usize, end: end as usize },
        ) && d.message@ == lexer_message(kind, b.subrange(start, end)),
    }
}

/// The message of a lexer error over the bytes it points to: the integer
/// literal too large, or the character no token begins with, as `Debug`
/// writes it.
pub open spec fn lexer_message(kind: ErrorKind, text: Seq<u8>) -> Seq<char> {
    if kind == ErrorKind::IntegerOutOfRange {
        out_of_range_message()
    } else {
        "使えない文字です: "@ + char_rendering(decode_first_scalar(text) as char)
    }
}

/// The message of an integer literal too large for 64 bits.
pub open spec fn out_of_range_message() -> Seq<char> {
    "整数が許容範囲を超えています。"@
}

spec fn after(done: Seq<(int, int)>, rest: Result<Seq<(int, int)>, (ErrorKind, int, int)>) -> Result<
    Seq<(int, int)>,
    (ErrorKind, int, int),
> {
    match rest {
        Ok(r) => Ok(done + r),
        Err(x) => Err(x),
    }
}

/// After an ASCII byte of valid UTF-8 a character begins.
#[verifier::spinoff_prover]
proof fn lemma_ascii_boundary(bytes: Seq<u8>, k: int)
    requires
        valid_utf8(bytes),
        0 <= k <= bytes.len(),
        k > 0 ==> bytes[k - 1] < 128,
    ensures
        is_char_boundary(bytes, k),
    decreases bytes.len(),
{
    if k == 0 || k == bytes.len() {
        is_char_boundary_start_end_of_seq(bytes);
    } else {
        let width = length_of_first_scalar(bytes);
        let rest = pop_first_scalar(bytes);
        assert(valid_first_scalar(bytes));
        assert(valid_utf8(rest));
        assert(1 <= width <= bytes.len());
        assert(rest.len() == bytes.len() - width);
        if k > width {
            assert(rest[k - width - 1] == bytes[k - 1]);
            lemma_ascii_boundary(rest, k - width);
        } else if k == width {
        } else {
            assert(is_continuation_byte(bytes[k - 1]));
        }
    }
}

proof fn lemma_digits_value_prefix(s: Seq<u8>, m: int)
    requires
        0 <= m <= s.len(),
        forall|k: int| 0 <= k < s.len() ==> is_digit(#[trigger] s[k]),
    ensures
        digits_value(s.subrange(0, m)) <= digits_value(s),
    decreases s.len(),
{
    if m < s.len() {
        let t = s.drop_last();
        assert(t.subrange(0, m) == s.subrange(0, m));
        lemma_digits_value_prefix(t, m);
    } else {
        assert(s.subrange(0, m) == s);
    }
}

/// The bytes `start..end` of `bytes` are `word`.
fn spells(bytes: &[u8], start: usize, end: usize, word: &[u8]) -> (r: bool)
    requires
        start <= end <= bytes@.len(),
    ensures
        r == (bytes@.subrange(start as int, end as int) == word@),
{
    if end - start != word.len() {
        return false;
    }
    let mut k: usize = 0;
    while k < word.len()
        invariant
            start <= end <= bytes@.len(),
            end - start == word@.len(),
            0 <= k <= word@.len(),
            forall|j: int| 0 <= j < k ==> bytes@[start + j] == word@[j],
        decreases word@.len() - k,
    {
        if bytes[start + k] != word[k] {
            assert(bytes@.subrange(start as int, end as int)[k as int] != word@[k as int]);
            return false;
        }
        k += 1;
    }
    assert(bytes@.subrange(start as int, end as int) =~= word@);
    true
}

fn keyword_at(bytes: &[u8], start: usize, end: usize) -> (kind: Option<TokenKind>)
    requires
        start <= end <= bytes@.len(),
    ensures
        kind == keyword(bytes@.subrange(start as int, end as int)),
{
    if spells(bytes, start, end, &[116u8, 114, 117, 101]) {
        Some(TokenKind::Bool(true))
    } else if spells(bytes, start, end, &[102u8, 97, 108, 115, 101]) {
        Some(TokenKind::Bool(false))
    } else if spells(bytes, start, end, &[105u8, 102]) {
        Some(TokenKind::If)
    } else if spells(bytes, start, end, &[116u8, 104, 101, 110]) {
        Some(TokenKind::Then)
    } else if spells(bytes, start, end, &[101u8, 108, 115, 101]) {
        Some(TokenKind::Else)
    } else if spells(bytes, start, end, &[108u8, 101, 116]) {
        Some(TokenKind::Let)
    } else if spells(bytes, start, end, &[105u8, 110]) {
        Some(TokenKind::In)
    } else if spells(bytes, start, end, &[102u8, 117, 110]) {
        Some(TokenKind::Fun)
    } else {
        None
    }
}

/// How `Debug` writes a character (`char`'s `Debug`: quoted, with escapes).
pub uninterp spec fn char_rendering(ch: char) -> Seq<char>;

/// `format!("{:?}")` of a character (std's `Debug` for `char`): a function of
/// the character alone, named `char_rendering`.
#[verifier::external_body]
fn char_debug(ch: char) -> (text: String)
    ensures
        text@ == char_rendering(ch),
{
    format!("{ch:?}")
}

/// The kind and the end of the token that starts at `start`, or the lexer's error there.
fn read_token(source: &str, bytes: &[u8], start: usize) -> (result: Result<(TokenKind, usize), Diagnostic>)
    requires
        bytes@ == source.spec_bytes(),
        valid_utf8(bytes@),
        start < bytes@.len(),
        !is_space(bytes@[start as int]),
        start > 0 ==> bytes@[start - 1] < 128,
    ensures
        match token_end(bytes@, start as int) {
            Ok(e) => result matches Ok((kind, end)) && end == e && denotes(
                kind,
                bytes@.subrange(start as int, e),
            ),
            Err((kind, s, e)) => result matches Err(d) && reports_error(
                d,
                Stage::Lexer,
                kind,
                Span { start: s as usize, end: e as usize },
            ) && d.message@ == lexer_message(kind, bytes@.subrange(s, e)),
        },
{
    let ghost b = bytes@;
    let n = bytes.len();
    let c = bytes[start];
    proof {
        lemma_run_ends(b, start + 1);
    }
    if 48 <= c && c <= 57 {
        let mut end = start + 1;
        while end < n && 48 <= bytes[end] && bytes[end] <= 57
            invariant
                b == bytes@,
                n == b.len(),
                start < end <= n,
                digits_end(b, start + 1) == digits_end(b, end as int),
            decreases n - end,
        {
            end += 1;
        }
        assert(digits_end(b, end as int) == end);
        let ghost text = b.subrange(start as int, end as int);
        assert forall|k: int| 0 <= k < text.len() implies is_digit(#[trigger] text[k]) by {
            assert(text[k] == b[start + k]);
        }
        let mut value: i64 = 0;
        let mut k = start;
        while k < end
            invariant
                b == bytes@,
                start <= k <= end <= b.len(),
                text == b.subrange(start as int, end as int),
                forall|j: int| 0 <= j < text.len() ==> is_digit(#[trigger] text[j]),
                digits_end(b, start + 1) == end,
                value as int == digits_value(b.subrange(start as int, k as int)),
            decreases end - k,
        {
            assert(text[k - start] == b[k as int]);
            let d = (bytes[k] - 48) as i64;
            assert(b.subrange(start as int, k + 1).drop_last() =~= b.subrange(start as int, k as int));
            assert(digits_value(b.subrange(start as int, k + 1)) == value * 10 + d);
            if value > 922337203685477580 || (value == 922337203685477580 && d > 7) {
                proof {
                    assert(text.subrange(0, k + 1 - start) =~= b.subrange(start as int, k + 1));
                    lemma_digits_value_prefix(text, k + 1 - start);
                }
                return Err(
                    Diagnostic {
                        stage: Stage::Lexer,
                        kind: ErrorKind::IntegerOutOfRange,
                        message: String::from_str("整数が許容範囲を超えています。"),
                        span: Some(Span::new(start, end)),
                    },
                );
            }
            value = value * 10 + d;
            k += 1;
        }
        return Ok((TokenKind::Int(value), end));
    }
    if (65 <= c && c <= 90) || (97 <= c && c <= 122) || c == 95 {
        let mut end = start + 1;
        while end < n && ((65 <= bytes[end] && bytes[end] <= 90) || (97 <= bytes[end] && bytes[end]
            <= 122) || bytes[end] == 95 || (48 <= bytes[end] && bytes[end] <= 57))
            invariant
                b == bytes@,
                n == b.len(),
                start < end <= n,
                ident_end(b, start + 1) == ident_end(b, end as int),
            decreases n - end,
        {
            end += 1;
        }
        if let Some(kind) = keyword_at(bytes, start, end) {
            return Ok((kind, end));
        }
        proof {
            lemma_ascii_boundary(b, start as int);
            valid_utf8_split(b, start as int);
            lemma_ascii_boundary(b.subrange(start as int, n as int), end - start);
        }
        let (_, rest) = source.split_at(start);
        let (word, _) = rest.split_at(end - start);
        assert(word.spec_bytes() =~= b.subrange(start as int, end as int));
        let name = word.to_owned();
        return Ok((TokenKind::Ident(name), end));
    }
    if c == 45 {
        if start + 1 < n && bytes[start + 1] == 62 {
            assert(b.subrange(start as int, start + 2) =~= seq![45u8, 62]);
            return Ok((TokenKind::Arrow, start + 2));
        }
        assert(b.subrange(start as int, start + 1) =~= seq![45u8]);
        return Ok((TokenKind::Minus, start + 1));
    }
    let symbol = if c == 61 {
        Some(TokenKind::Equal)
    } else if c == 43 {
        Some(TokenKind::Plus)
    } else if c == 42 {
        Some(TokenKind::Star)
    } else if c == 47 {
        Some(TokenKind::Slash)
    } else if c == 60 {
        Some(TokenKind::Less)
    } else if c == 40 {
        Some(TokenKind::LParen)
    } else if c == 41 {
        Some(TokenKind::RParen)
    } else {
        None
    };
    if let Some(kind) = symbol {
        assert(b.subrange(start as int, start + 1) =~= seq![c]);
        return Ok((kind, start + 1));
    }
    proof {
        lemma_ascii_boundary(b, start as int);
        valid_utf8_split(b, start as int);
    }
    let ghost suffix = b.subrange(start as int, n as int);
    assert(suffix[0] == c);
    assert(valid_first_scalar(suffix));
    let width: usize = if c < 128 {
        1
    } else if c >= 240 {
        4
    } else if c >= 224 {
        3
    } else {
        2
    };
    assert(width == length_of_first_scalar(suffix));
    assert(is_char_boundary(suffix, width as int)) by {
        assert(valid_utf8(pop_first_scalar(suffix)));
        reveal_with_fuel(is_char_boundary, 2);
    }
    let (_, rest) = source.split_at(start);
    let (word, _) = rest.split_at(width);
    let ghost text = b.subrange(start as int, start + width);
    assert(word.spec_bytes() =~= text);
    proof {
        encode_utf8_decode_utf8(word@);
        encode_utf8_valid_utf8(word@);
        if word@.len() == 0 {
            assert(encode_utf8(word@) =~= seq![]);
        }
    }
    let ch = word.get_char(0);
    assert(ch == decode_first_scalar(text) as char);
    let message = String::from_str("使えない文字です: ").concat(char_debug(ch).as_str());
    Err(
        Diagnostic {
            stage: Stage::Lexer,
            kind: ErrorKind::UnexpectedCharacter,
            message,
            span: Some(Span::new(start, start + width)),
        },
    )
}

/// The tokens of `source`, whitespace left out, followed by `Eof` at the end
/// of the input; or the first error met.
pub fn lex(source: &str) -> (result: LangResult<Vec<Token>>)
    ensures
        lexes(source.spec_bytes(), result),
{
    let bytes = source.as_bytes();
    let n = bytes.len();
    let ghost b = bytes@;
    proof {
        encode_utf8_valid_utf8(source@);
    }
    let mut tokens: Vec<Token> = Vec::new();
    let mut i: usize = 0;
    let ghost mut done: Seq<(int, int)> = seq![];
    while i < n
        invariant
            b == bytes@,
            b == source.spec_bytes(),
            n == b.len(),
            valid_utf8(b),
            0 <= i <= n,
            i > 0 ==> b[i - 1] < 128,
            tokens@.len() == done.len(),
            forall|k: int| 0 <= k < done.len() ==> token_from(#[trigger] tokens@[k], done[k], b),
            scan(b, 0) == after(done, scan(b, i as int)),
        decreases n - i,
    {
        let c = bytes[i];
        if c == 32 || c == 9 || c == 13 || c == 10 {
            i += 1;
            continue;
        }
        proof {
            lemma_token_end_advances(b, i as int);
        }
        match read_token(source, bytes, i) {
            Ok((kind, end)) => {
                let ghost start = i as int;
                proof {
                    lemma_run_ends(b, start + 1);
                    assert(after(done, scan(b, start)) == after(done.push((start, end as int)), scan(b, end as int))) by {
                        match scan(b, end as int) {
                            Ok(rest) => {
                                assert(done + (seq![(start, end as int)] + rest) =~= done.push((start, end as int)) + rest);
                            },
                            Err(_) => {},
                        }
                    }
                    assert(b[end - 1] < 128) by {
                        if is_digit(b[start]) {
                        } else if is_ident_start(b[start]) {
                        } else {
                        }
                    }
                }
                tokens.push(Token { kind, span: Span::new(i, end) });
                proof {
                    done = done.push((start, end as int));
                }
                i = end;
            },
            Err(d) => {
                return Err(d);
            },
        }
    }
    proof {
        assert(done + seq![] =~= done);
    }
    tokens.push(Token { kind: TokenKind::Eof, span: Span::new(n, n) });
    Ok(tokens)
}

} // verus!
