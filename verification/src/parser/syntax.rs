//! Syntax: recursive-descent parsing of the token list into a [`GelDocument`].

use vstd::prelude::*;
use crate::errors::{GelError, Span};
use crate::parser::ast::{
    defines_view, find_key, grammars_view, lemma_store_view, GrammarV, grammar_view, stmt_view, stmts_view, StmtV, alts_view, AltV, calls_view, CallV, exprs_view, Expression, ExprV, FunctionCall, GelDocument, Grammar, MatchFieldList, MatchList, MatchStatement,
    SkipStatement, Statement, WhenStatement,
};
use crate::parser::lexer::{Token, TokenKind, is_ascii_digit_c, is_ascii_alpha_c};
use crate::parser::rules::{define_spec, doc_spec, document_spec, grammar_spec, match_stmt_spec, skip_stmt_spec, statement_spec, stmts_spec, when_stmt_spec, block_loop, block_spec, capped, slice_bytes, alts_spec, call_args_spec, call_spec, exprs_spec, many1_spec, more_alts_spec, skip_kind_spec, skip_ws_spec, expr_at};
use crate::text::str_to_chars;

verus! {

/// Why a parse failed at a token.
#[derive(Debug, Clone, Copy, PartialEq, Eq, Structural)]
pub enum ParseErrorKind {
    Tag,
    Eof,
    Digit,
}

/// A parse failure: the index of the token where it happened and why.
#[derive(Debug, Clone, Copy)]
pub struct ParseError {
    pub pos: usize,
    pub kind: ParseErrorKind,
}

/// Parsed value and the index of the first token after it.
pub type ParseResult<T> = Result<(usize, T), ParseError>;

// ---------------------------------------------------------------------------
// Decimal numbers
// ---------------------------------------------------------------------------

/// Value of a digit string.
pub open spec fn digits_value(s: Seq<char>) -> int
    decreases s.len(),
{
    if s.len() == 0 {
        0
    } else {
        digits_value(s.drop_last()) * 10 + (s.last() as int - '0' as int)
    }
}

pub open spec fn all_digits(s: Seq<char>) -> bool {
    forall|i: int| 0 <= i < s.len() ==> is_ascii_digit_c(#[trigger] s[i])
}

/// What `str::parse` gives for an integer type with range `lo ..= hi`: an
/// optional sign (`-` only where `allow_minus`) and at least one digit.
pub open spec fn parse_int_spec(s: Seq<char>, lo: int, hi: int, allow_minus: bool) -> Option<int> {
    let neg = s.len() > 0 && s[0] == '-' && allow_minus;
    let signed = s.len() > 0 && (s[0] == '+' || (s[0] == '-' && allow_minus));
    let body = if signed {
        s.drop_first()
    } else {
        s
    };
    if body.len() == 0 || !all_digits(body) {
        None
    } else {
        let v = if neg {
            -digits_value(body)
        } else {
            digits_value(body)
        };
        if lo <= v <= hi {
            Some(v)
        } else {
            None
        }
    }
}

proof fn lemma_digits_value_nonneg(s: Seq<char>)
    requires
        all_digits(s),
    ensures
        digits_value(s) >= 0,
    decreases s.len(),
{
    if s.len() > 0 {
        assert(all_digits(s.drop_last()));
        lemma_digits_value_nonneg(s.drop_last());
    }
}

/// Magnitude of a digit string, when it fits in a `u64`.
fn parse_digits(s: &[char], start: usize) -> (r: Option<u64>)
    requires
        start <= s@.len(),
    ensures
        match r {
            Some(v) => s@.len() > start && all_digits(s@.subrange(start as int, s@.len() as int)) && v
                == digits_value(s@.subrange(start as int, s@.len() as int)),
            None => s@.len() == start || !all_digits(s@.subrange(start as int, s@.len() as int)) || digits_value(
                s@.subrange(start as int, s@.len() as int),
            ) > u64::MAX,
        },
{
    if start >= s.len() {
        return None;
    }
    let mut acc: u64 = 0;
    let mut i = start;
    while i < s.len()
        invariant
            start <= i <= s@.len(),
            all_digits(s@.subrange(start as int, i as int)),
            acc == digits_value(s@.subrange(start as int, i as int)),
        decreases s@.len() - i,
    {
        let c = s[i];
        proof {
            assert(s@.subrange(start as int, i + 1).drop_last() =~= s@.subrange(start as int, i as int));
        }
        if !('0' <= c && c <= '9') {
            proof {
                let sub = s@.subrange(start as int, s@.len() as int);
                assert(sub[i - start] == c);
            }
            return None;
        }
        let d = (c as u32 - '0' as u32) as u64;
        if acc > (u64::MAX - d) / 10 {
            proof {
                // every longer prefix is at least this large
                lemma_digits_value_grows(s@.subrange(start as int, s@.len() as int), i + 1 - start);
                assert(s@.subrange(start as int, s@.len() as int).subrange(0, i + 1 - start) =~= s@.subrange(start as int, i + 1));
            }
            return None;
        }
        acc = acc * 10 + d;
        i = i + 1;
    }
    Some(acc)
}

proof fn lemma_digits_value_grows(s: Seq<char>, k: int)
    requires
        0 <= k <= s.len(),
    ensures
        all_digits(s) ==> digits_value(s.subrange(0, k)) <= digits_value(s),
    decreases s.len() - k,
{
    if k < s.len() && all_digits(s) {
        lemma_digits_value_grows(s, k + 1);
        assert(s.subrange(0, k + 1).drop_last() =~= s.subrange(0, k));
        assert(all_digits(s.subrange(0, k)));
        lemma_digits_value_nonneg(s.subrange(0, k));
    } else if k == s.len() {
        assert(s.subrange(0, k) =~= s);
    }
}

/// `str::parse::<i64>`.
pub fn parse_i64(text: &str) -> (r: Option<i64>)
    ensures
        match r {
            Some(v) => parse_int_spec(text@, i64::MIN as int, i64::MAX as int, true) == Some(v as int),
            None => parse_int_spec(text@, i64::MIN as int, i64::MAX as int, true) is None,
        },
{
    let s = str_to_chars(text);
    let n = s.len();
    let neg = n > 0 && s[0] == '-';
    let signed = n > 0 && (s[0] == '+' || s[0] == '-');
    let start: usize = if signed { 1 } else { 0 };
    proof {
        let body = if signed { s@.drop_first() } else { s@ };
        assert(body =~= s@.subrange(start as int, s@.len() as int));
    }
    match parse_digits(s.as_slice(), start) {
        None => None,
        Some(m) => {
            if neg {
                if m <= 9223372036854775808 {
                    if m == 9223372036854775808 {
                        Some(i64::MIN)
                    } else {
                        Some(-(m as i64))
                    }
                } else {
                    None
                }
            } else {
                if m <= 9223372036854775807 {
                    Some(m as i64)
                } else {
                    None
                }
            }
        },
    }
}

/// `str::parse::<usize>`.
pub fn parse_usize(text: &str) -> (r: Option<usize>)
    ensures
        match r {
            Some(v) => parse_int_spec(text@, 0, usize::MAX as int, false) == Some(v as int),
            None => parse_int_spec(text@, 0, usize::MAX as int, false) is None,
        },
{
    let s = str_to_chars(text);
    let n = s.len();
    let signed = n > 0 && s[0] == '+';
    let start: usize = if signed { 1 } else { 0 };
    proof {
        let body = if signed { s@.drop_first() } else { s@ };
        assert(body =~= s@.subrange(start as int, s@.len() as int));
    }
    match parse_digits(s.as_slice(), start) {
        None => None,
        Some(m) => {
            if m <= usize::MAX as u64 {
                Some(m as usize)
            } else {
                None
            }
        },
    }
}

} // verus!

verus! {

// ---------------------------------------------------------------------------
// Token-level parsers
// ---------------------------------------------------------------------------

/// The text between a literal's delimiters (the text itself when shorter than two).
pub open spec fn inner_text(s: Seq<char>) -> Seq<char> {
    if s.len() >= 2 {
        s.subrange(1, s.len() - 1)
    } else {
        s
    }
}

/// Whether a capture body names a group rather than numbering one.
pub open spec fn is_capture_name(body: Seq<char>) -> bool {
    &&& body.len() > 0
    &&& (forall|i: int| 0 <= i < body.len() ==> is_ascii_alpha_c(#[trigger] body[i]) || body[i] == '_')
        || (exists|i: int| 0 <= i < body.len() && !is_ascii_digit_c(#[trigger] body[i]))
}

/// A text without its first character.
pub open spec fn tail_of(s: Seq<char>) -> Seq<char> {
    if s.len() > 0 {
        s.subrange(1, s.len() as int)
    } else {
        s
    }
}

/// The expression a single token stands for.
pub open spec fn expr_of(t: Token) -> Option<ExprV> {
    match t.kind {
        TokenKind::String => Some(ExprV::String(inner_text(t.slice@))),
        TokenKind::Regex => Some(ExprV::Regex(inner_text(t.slice@))),
        TokenKind::Number => match parse_int_spec(t.slice@, i64::MIN as int, i64::MAX as int, true) {
            Some(v) => Some(ExprV::Number(v as i64)),
            None => None,
        },
        TokenKind::Capture => match parse_int_spec(tail_of(t.slice@), 0, usize::MAX as int, false) {
            Some(v) => Some(ExprV::Capture(v as usize)),
            None => if is_capture_name(tail_of(t.slice@)) {
                Some(ExprV::CaptureName(tail_of(t.slice@)))
            } else {
                None
            },
        },
        TokenKind::Identifier => Some(ExprV::Variable(t.slice@)),
        _ => None,
    }
}

fn inner_string(s: &String) -> (r: String)
    ensures
        r@ == inner_text(s@),
{
    let c = str_to_chars(s.as_str());
    if c.len() >= 2 {
        crate::text::chars_to_string(vstd::slice::slice_subrange(c.as_slice(), 1, c.len() - 1))
    } else {
        s.clone()
    }
}

fn capture_name_body(body: &[char]) -> (r: bool)
    ensures
        r == is_capture_name(body@),
{
    if body.len() == 0 {
        return false;
    }
    let mut all_alpha = true;
    let mut any_non_digit = false;
    let mut i: usize = 0;
    while i < body.len()
        invariant
            i <= body@.len(),
            all_alpha == forall|j: int| 0 <= j < i ==> is_ascii_alpha_c(#[trigger] body@[j]) || body@[j] == '_',
            any_non_digit == exists|j: int| 0 <= j < i && !is_ascii_digit_c(#[trigger] body@[j]),
        decreases body@.len() - i,
    {
        let c = body[i];
        if !(('a' <= c && c <= 'z') || ('A' <= c && c <= 'Z') || c == '_') {
            all_alpha = false;
        }
        if !('0' <= c && c <= '9') {
            any_non_digit = true;
        }
        i = i + 1;
    }
    all_alpha || any_non_digit
}

/// The expression token `i` stands for.
fn expression(t: &[Token], i: usize) -> (r: ParseResult<Expression>)
    ensures
        match r {
            Ok((j, e)) => i < t@.len() && j == i + 1 && expr_of(t@[i as int]) == Some(e@),
            Err(err) => err.pos == i && err.kind == ParseErrorKind::Tag && (i >= t@.len() || expr_of(
                t@[i as int],
            ) is None),
        },
{
    if i >= t.len() {
        return Err(ParseError { pos: i, kind: ParseErrorKind::Tag });
    }
    let tok = &t[i];
    match tok.kind {
        TokenKind::String => Ok((i + 1, Expression::String(inner_string(&tok.slice)))),
        TokenKind::Regex => Ok((i + 1, Expression::Regex(inner_string(&tok.slice)))),
        TokenKind::Number => match parse_i64(tok.slice.as_str()) {
            Some(n) => Ok((i + 1, Expression::Number(n))),
            None => Err(ParseError { pos: i, kind: ParseErrorKind::Tag }),
        },
        TokenKind::Capture => {
            let c = str_to_chars(tok.slice.as_str());
            let body = if c.len() > 0 {
                vstd::slice::slice_to_vec(vstd::slice::slice_subrange(c.as_slice(), 1, c.len()))
            } else {
                Vec::new()
            };
            proof {
                assert(body@ =~= tail_of(tok.slice@));
            }
            let body_s = crate::text::chars_to_string(body.as_slice());
            match parse_usize(body_s.as_str()) {
                Some(idx) => Ok((i + 1, Expression::Capture(idx))),
                None => {
                    if capture_name_body(body.as_slice()) {
                        Ok((i + 1, Expression::CaptureName(body_s)))
                    } else {
                        Err(ParseError { pos: i, kind: ParseErrorKind::Tag })
                    }
                },
            }
        },
        TokenKind::Identifier => Ok((i + 1, Expression::Variable(tok.slice.clone()))),
        _ => Err(ParseError { pos: i, kind: ParseErrorKind::Tag }),
    }
}

/// Whether token `i` exists and has kind `k`.
pub open spec fn kind_at(t: Seq<Token>, i: int, k: TokenKind) -> bool {
    0 <= i < t.len() && t[i].kind == k
}

fn is_kind(t: &[Token], i: usize, k: TokenKind) -> (r: bool)
    ensures
        r == kind_at(t@, i as int, k),
        r ==> i < usize::MAX,
{
    i < t.len() && t[i].kind == k
}

/// Consumes one token of kind `k`.
fn token_kind(t: &[Token], i: usize, k: TokenKind) -> (r: Result<usize, ParseError>)
    ensures
        match r {
            Ok(j) => kind_at(t@, i as int, k) && j == i + 1,
            Err(e) => !kind_at(t@, i as int, k) && e.pos == i && e.kind == (if i < t@.len() {
                ParseErrorKind::Tag
            } else {
                ParseErrorKind::Eof
            }),
        },
{
    if i < t.len() {
        if t[i].kind == k {
            Ok(i + 1)
        } else {
            Err(ParseError { pos: i, kind: ParseErrorKind::Tag })
        }
    } else {
        Err(ParseError { pos: i, kind: ParseErrorKind::Eof })
    }
}

/// An identifier token's text.
fn identifier(t: &[Token], i: usize) -> (r: ParseResult<String>)
    ensures
        match r {
            Ok((j, s)) => kind_at(t@, i as int, TokenKind::Identifier) && j == i + 1 && s@ == t@[i as int].slice@,
            Err(e) => !kind_at(t@, i as int, TokenKind::Identifier) && e.pos == i,
        },
{
    if i < t.len() {
        if t[i].kind == TokenKind::Identifier {
            Ok((i + 1, t[i].slice.clone()))
        } else {
            Err(ParseError { pos: i, kind: ParseErrorKind::Tag })
        }
    } else {
        Err(ParseError { pos: i, kind: ParseErrorKind::Eof })
    }
}

/// The first token from `i` on that is not a `Newline` or `Indent`.
fn skip_ws_tokens(t: &[Token], i: usize) -> (j: usize)
    ensures
        j == skip_ws_spec(t@, i as int),
        i <= j,
        j <= t@.len() || j == i,
        forall|k: int| i <= k < j ==> kind_at(t@, k, TokenKind::Newline) || kind_at(t@, k, TokenKind::Indent),
        j < t@.len() ==> !kind_at(t@, j as int, TokenKind::Newline) && !kind_at(t@, j as int, TokenKind::Indent),
{
    let mut j = i;
    while j < t.len() && (t[j].kind == TokenKind::Newline || t[j].kind == TokenKind::Indent)
        invariant
            i <= j,
            j <= t@.len() || j == i,
            forall|k: int| i <= k < j ==> kind_at(t@, k, TokenKind::Newline) || kind_at(t@, k, TokenKind::Indent),
            skip_ws_spec(t@, i as int) == skip_ws_spec(t@, j as int),
        decreases t@.len() - j,
    {
        j = j + 1;
    }
    j
}

/// Skips tokens of one kind.
fn skip_kind(t: &[Token], i: usize, k: TokenKind) -> (j: usize)
    ensures
        j == skip_kind_spec(t@, i as int, k),
        i <= j,
        j <= t@.len() || j == i,
        forall|x: int| i <= x < j ==> kind_at(t@, x, k),
        !kind_at(t@, j as int, k),
{
    let mut j = i;
    while j < t.len() && t[j].kind == k
        invariant
            i <= j,
            j <= t@.len() || j == i,
            forall|x: int| i <= x < j ==> kind_at(t@, x, k),
            skip_kind_spec(t@, i as int, k) == skip_kind_spec(t@, j as int, k),
        decreases t@.len() - j,
    {
        j = j + 1;
    }
    j
}

// ---------------------------------------------------------------------------
// Statements
// ---------------------------------------------------------------------------

/// `name` or `name(arg, ...)`.
fn function_call(t: &[Token], i: usize) -> (r: ParseResult<FunctionCall>)
    ensures
        match r {
            Ok((j, f)) => call_spec(t@, i as int) == Some((j as int, f@)) && i < j <= t@.len(),
            Err(e) => call_spec(t@, i as int) is None,
        },
{
    let (rest, name) = match identifier(t, i) {
        Ok(x) => x,
        Err(e) => { return Err(e); },
    };
    if !is_kind(t, rest, TokenKind::LeftParen) {
        proof {
            assert(exprs_view(Seq::<Expression>::empty()) =~= Seq::<ExprV>::empty());
        }
        return Ok((rest, FunctionCall { name, args: Vec::new() }));
    }
    let mut r = rest + 1;
    let mut args: Vec<Expression> = Vec::new();
    loop
        invariant
            rest < r <= t@.len(),
            call_args_spec(t@, rest + 1) == (call_args_spec(t@, r as int).0, exprs_view(args@) + call_args_spec(t@, r as int).1),
        ensures
            rest < r <= t@.len(),
            call_args_spec(t@, rest + 1) == (r as int, exprs_view(args@)),
        decreases t@.len() - r,
    {
        if is_kind(t, r, TokenKind::RightParen) {
            proof {
                assert(exprs_view(args@) + Seq::<ExprV>::empty() =~= exprs_view(args@));
            }
            break;
        }
        match expression(t, r) {
            Ok((r2, arg)) => {
                let ghost prev = args@;
                args.push(arg);
                proof {
                    assert(exprs_view(args@) =~= exprs_view(prev).push(arg@));
                }
                let next = if is_kind(t, r2, TokenKind::Comma) { r2 + 1 } else { r2 };
                proof {
                    let a = call_args_spec(t@, next as int);
                    assert(call_args_spec(t@, r as int) == (a.0, seq![arg@] + a.1));
                    assert(exprs_view(prev) + (seq![arg@] + a.1) =~= exprs_view(args@) + a.1);
                }
                r = next;
            },
            Err(_) => {
                proof {
                    assert(exprs_view(args@) + Seq::<ExprV>::empty() =~= exprs_view(args@));
                }
                break;
            },
        }
    }
    match token_kind(t, r, TokenKind::RightParen) {
        Ok(j) => Ok((j, FunctionCall { name, args })),
        Err(e) => Err(e),
    }
}

/// Whether a token kind ends a match field list.
pub open spec fn ends_fields(k: TokenKind) -> bool {
    k == TokenKind::Colon || k == TokenKind::Pipe || k == TokenKind::Match || k == TokenKind::IMatch
        || k == TokenKind::When || k == TokenKind::Skip || k == TokenKind::Define || k == TokenKind::Grammar
}

/// One or more expressions, across line breaks and indentation.
fn many1_expression(t: &[Token], i: usize) -> (r: ParseResult<Vec<Expression>>)
    ensures
        match r {
            Ok((j, es)) => many1_spec(t@, i as int) == Some((j as int, exprs_view(es@))) && i < j <= t@.len()
                && es@.len() >= 1,
            Err(e) => many1_spec(t@, i as int) is None,
        },
{
    let mut out: Vec<Expression> = Vec::new();
    let mut rest = i;
    loop
        invariant
            i <= rest,
            rest <= t@.len() || rest == i,
            out@.len() > 0 ==> i < rest <= t@.len(),
            exprs_spec(t@, i as int) == (exprs_spec(t@, rest as int).0, exprs_view(out@) + exprs_spec(t@, rest as int).1),
        ensures
            out@.len() > 0 ==> i < rest <= t@.len(),
            exprs_spec(t@, i as int) == (rest as int, exprs_view(out@)),
        decreases t@.len() + 1 - rest,
    {
        let r2 = skip_ws_tokens(t, rest);
        if r2 >= t.len() {
            proof {
                assert(exprs_view(out@) + Seq::<ExprV>::empty() =~= exprs_view(out@));
            }
            rest = r2;
            break;
        }
        let k = t[r2].kind;
        if k == TokenKind::Colon || k == TokenKind::Pipe || k == TokenKind::Match || k == TokenKind::IMatch
            || k == TokenKind::When || k == TokenKind::Skip || k == TokenKind::Define || k == TokenKind::Grammar {
            proof {
                assert(exprs_view(out@) + Seq::<ExprV>::empty() =~= exprs_view(out@));
            }
            rest = r2;
            break;
        }
        match expression(t, r2) {
            Ok((r3, e)) => {
                let ghost prev = out@;
                out.push(e);
                proof {
                    let m = exprs_spec(t@, r3 as int);
                    assert(exprs_spec(t@, rest as int) == (m.0, seq![e@] + m.1));
                    assert(exprs_view(out@) =~= exprs_view(prev).push(e@));
                    assert(exprs_view(prev) + (seq![e@] + m.1) =~= exprs_view(out@) + m.1);
                }
                rest = r3;
            },
            Err(_) => {
                proof {
                    assert(exprs_view(out@) + Seq::<ExprV>::empty() =~= exprs_view(out@));
                }
                rest = r2;
                break;
            },
        }
    }
    if out.len() == 0 {
        return Err(ParseError { pos: rest, kind: ParseErrorKind::Tag });
    }
    Ok((rest, out))
}

/// A block's indentation as the rules state it.
spec fn base_of(b: Option<usize>) -> Option<int> {
    match b {
        Some(w) => Some(w as int),
        None => None,
    }
}

/// Calls read so far, in front of what the rest of a block gives.
spec fn prepend_calls(p: Seq<CallV>, o: Option<(int, Seq<CallV>)>) -> Option<(int, Seq<CallV>)> {
    match o {
        Some(m) => Some((m.0, p + m.1)),
        None => None,
    }
}

/// A block of actions; the first indented action sets the block's indentation,
/// a line indented less ends it.
fn action_block(t: &[Token], i: usize) -> (r: ParseResult<Vec<FunctionCall>>)
    ensures
        match r {
            Ok((j, acts)) => block_spec(t@, i as int) == Some((j as int, calls_view(acts@))) && i < j <= t@.len()
                && acts@.len() >= 1,
            Err(e) => block_spec(t@, i as int) is None,
        },
{
    let mut rest = i;
    let mut actions: Vec<FunctionCall> = Vec::new();
    let mut baseline: Option<usize> = None;
    proof {
        let b = block_loop(t@, i as int, None, false);
        if b is Some {
            let bb = b->0;
            assert(calls_view(actions@) + bb.1 =~= bb.1);
        }
    }
    loop
        invariant
            i <= rest,
            rest <= t@.len() || rest == i,
            actions@.len() > 0 ==> i < rest <= t@.len(),
            baseline is Some ==> actions@.len() > 0,
            block_loop(t@, i as int, None, false) == prepend_calls(
                calls_view(actions@),
                block_loop(t@, rest as int, base_of(baseline), actions@.len() > 0),
            ),
        ensures
            actions@.len() > 0,
            i < rest <= t@.len(),
            block_loop(t@, i as int, None, false) == Some((rest as int, calls_view(actions@))),
        decreases t@.len() + 1 - rest,
    {
        let saved = rest;
        let r0 = skip_kind(t, rest, TokenKind::Newline);
        let mut r = r0;
        let mut width: usize = 0;
        while r < t.len() && t[r].kind == TokenKind::Indent
            invariant
                saved <= r0 <= r,
                r <= t@.len() || r == r0,
                width == capped(slice_bytes(t@, r0 as int, r as int)),
                skip_kind_spec(t@, r0 as int, TokenKind::Indent) == skip_kind_spec(t@, r as int, TokenKind::Indent),
                slice_bytes(t@, r0 as int, r as int) >= 0,
            decreases t@.len() - r,
        {
            let n = t[r].slice.as_str().as_bytes().len();
            proof {
                assert(slice_bytes(t@, r0 as int, r + 1) == slice_bytes(t@, r0 as int, r as int) + n);
            }
            width = width.saturating_add(n);
            r = r + 1;
        }
        proof {
            assert(r == skip_kind_spec(t@, r0 as int, TokenKind::Indent));
            assert(calls_view(actions@) + Seq::<CallV>::empty() =~= calls_view(actions@));
        }
        match baseline {
            Some(base) => {
                if width < base {
                    rest = saved;
                    break;
                }
            },
            None => {},
        }
        match function_call(t, r) {
            Ok((rf, f)) => {
                if baseline.is_none() && width > 0 {
                    baseline = Some(width);
                }
                let ghost prev = actions@;
                actions.push(f);
                proof {
                    assert(calls_view(actions@) =~= calls_view(prev).push(f@));
                    let m = block_loop(t@, rf as int, base_of(baseline), true);
                    if m is Some {
                        let mm = m->0;
                        assert(calls_view(prev) + (seq![f@] + mm.1) =~= calls_view(actions@) + mm.1);
                    }
                }
                rest = rf;
            },
            Err(_) => {
                if actions.len() == 0 {
                    return Err(ParseError { pos: r, kind: ParseErrorKind::Tag });
                }
                rest = saved;
                break;
            },
        }
    }
    Ok((rest, actions))
}

/// Alternatives of a `match`/`when`: field lists separated by `|`, then `:`.
fn match_alternatives(t: &[Token], i: usize, flags: u32) -> (r: ParseResult<Vec<MatchFieldList>>)
    ensures
        match r {
            Ok((j, alts)) => alts_spec(t@, i as int, flags) == Some((j as int, alts_view(alts@))) && i < j <= t@.len()
                && alts@.len() >= 1,
            Err(e) => alts_spec(t@, i as int, flags) is None,
        },
{
    let (mut rest, first) = match many1_expression(t, i) {
        Ok(x) => x,
        Err(e) => { return Err(e); },
    };
    let ghost start = rest;
    let mut alts: Vec<MatchFieldList> = Vec::new();
    alts.push(MatchFieldList { expressions: first, flags, compiled_regex: None, literal_prefix: None });
    loop
        invariant
            i < start <= rest <= t@.len(),
            alts@.len() >= 1,
            many1_spec(t@, i as int) == Some((start as int, alts_view(alts@)[0].0)),
            alts_view(alts@)[0].1 == flags,
            more_alts_spec(t@, start as int, flags) matches Some(m0) ==> (more_alts_spec(t@, rest as int, flags) matches Some(m1)
                && m0 == (m1.0, alts_view(alts@).drop_first() + m1.1)),
            more_alts_spec(t@, start as int, flags) is None ==> more_alts_spec(t@, rest as int, flags) is None,
        ensures
            i < start <= rest <= t@.len(),
            alts@.len() >= 1,
            many1_spec(t@, i as int) == Some((start as int, alts_view(alts@)[0].0)),
            alts_view(alts@)[0].1 == flags,
            more_alts_spec(t@, start as int, flags) == Some((rest as int, alts_view(alts@).drop_first())),
        decreases t@.len() - rest,
    {
        let peek = skip_ws_tokens(t, rest);
        if is_kind(t, peek, TokenKind::Pipe) {
            match many1_expression(t, peek + 1) {
                Ok((r2, exprs)) => {
                    let ghost prev = alts@;
                    alts.push(MatchFieldList { expressions: exprs, flags, compiled_regex: None, literal_prefix: None });
                    proof {
                        assert(alts_view(alts@) =~= alts_view(prev).push((exprs_view(exprs@), flags)));
                        assert(alts_view(alts@).drop_first() =~= alts_view(prev).drop_first().push((exprs_view(exprs@), flags)));
                        let m = more_alts_spec(t@, r2 as int, flags);
                        if m is Some {
                            let mm = m->0;
                            assert(alts_view(prev).drop_first() + (seq![(exprs_view(exprs@), flags)] + mm.1)
                                =~= alts_view(alts@).drop_first() + mm.1);
                        }
                    }
                    rest = r2;
                },
                Err(e) => { return Err(e); },
            }
        } else {
            proof {
                assert(alts_view(alts@).drop_first() + Seq::<AltV>::empty() =~= alts_view(alts@).drop_first());
            }
            break;
        }
    }
    proof {
        assert(alts_view(alts@) =~= seq![alts_view(alts@)[0]] + alts_view(alts@).drop_first());
    }
    Ok((rest, alts))
}

fn match_statement(t: &[Token], i: usize) -> (r: ParseResult<MatchStatement>)
    ensures
        match r {
            Ok((j, m)) => match_stmt_spec(t@, i as int) == Some((j as int, stmt_view(Statement::Match(m))))
                && i < j <= t@.len(),
            Err(e) => match_stmt_spec(t@, i as int) is None,
        },
{
    let case_flag = if is_kind(t, i, TokenKind::Match) {
        false
    } else if is_kind(t, i, TokenKind::IMatch) {
        true
    } else {
        return Err(ParseError { pos: i, kind: ParseErrorKind::Tag });
    };
    let flags: u32 = if case_flag { 1 } else { 0 };
    let (rest, alts) = match match_alternatives(t, i + 1, flags) {
        Ok(x) => x,
        Err(e) => { return Err(e); },
    };
    let rest = match token_kind(t, rest, TokenKind::Colon) {
        Ok(j) => j,
        Err(e) => { return Err(e); },
    };
    let (rest, actions) = match action_block(t, rest) {
        Ok(x) => x,
        Err(e) => { return Err(e); },
    };
    Ok((rest, MatchStatement { match_list: MatchList { alternatives: alts }, actions, case_insensitive: case_flag }))
}

fn when_statement(t: &[Token], i: usize) -> (r: ParseResult<WhenStatement>)
    ensures
        match r {
            Ok((j, w)) => when_stmt_spec(t@, i as int) == Some((j as int, stmt_view(Statement::When(w))))
                && i < j <= t@.len(),
            Err(e) => when_stmt_spec(t@, i as int) is None,
        },
{
    let rest = match token_kind(t, i, TokenKind::When) {
        Ok(j) => j,
        Err(e) => { return Err(e); },
    };
    let (rest, alts) = match match_alternatives(t, rest, 0) {
        Ok(x) => x,
        Err(e) => { return Err(e); },
    };
    let rest = match token_kind(t, rest, TokenKind::Colon) {
        Ok(j) => j,
        Err(e) => { return Err(e); },
    };
    let (rest, actions) = match action_block(t, rest) {
        Ok(x) => x,
        Err(e) => { return Err(e); },
    };
    Ok((rest, WhenStatement { match_list: MatchList { alternatives: alts }, actions }))
}

fn skip_statement(t: &[Token], i: usize) -> (r: ParseResult<SkipStatement>)
    ensures
        match r {
            Ok((j, s)) => skip_stmt_spec(t@, i as int) == Some((j as int, stmt_view(Statement::Skip(s))))
                && i < j <= t@.len(),
            Err(e) => skip_stmt_spec(t@, i as int) is None,
        },
{
    let rest = match token_kind(t, i, TokenKind::Skip) {
        Ok(j) => j,
        Err(e) => { return Err(e); },
    };
    match expression(t, rest) {
        Ok((j, e)) => Ok((j, SkipStatement { pattern: e })),
        Err(e) => Err(e),
    }
}

/// One statement, after any blank lines and indentation: `skip`, `match` /
/// `imatch`, `when`, or a bare action.
fn statement_line(t: &[Token], i: usize) -> (r: ParseResult<Statement>)
    ensures
        match r {
            Ok((j, s)) => statement_spec(t@, i as int) == Some((j as int, stmt_view(s))) && i < j <= t@.len(),
            Err(e) => statement_spec(t@, i as int) is None,
        },
{
    let r0 = skip_kind(t, i, TokenKind::Newline);
    let rest = skip_kind(t, r0, TokenKind::Indent);
    match skip_statement(t, rest) {
        Ok((j, s)) => { return Ok((j, Statement::Skip(s))); },
        Err(_) => {},
    }
    match match_statement(t, rest) {
        Ok((j, m)) => { return Ok((j, Statement::Match(m))); },
        Err(_) => {},
    }
    match when_statement(t, rest) {
        Ok((j, w)) => { return Ok((j, Statement::When(w))); },
        Err(_) => {},
    }
    match function_call(t, rest) {
        Ok((j, f)) => Ok((j, Statement::Action(f))),
        Err(_) => Err(ParseError { pos: rest, kind: ParseErrorKind::Tag }),
    }
}

/// `grammar name[(parent)]: statements`.
fn grammar_statement(t: &[Token], i: usize) -> (r: ParseResult<Grammar>)
    ensures
        match r {
            Ok((j, g)) => grammar_spec(t@, i as int) == Some((j as int, grammar_view(g))) && i < j <= t@.len()
                && g.name@ == t@[i + 1].slice@,
            Err(e) => grammar_spec(t@, i as int) is None,
        },
{
    let rest = match token_kind(t, i, TokenKind::Grammar) {
        Ok(j) => j,
        Err(e) => { return Err(e); },
    };
    let (rest, name) = match identifier(t, rest) {
        Ok(x) => x,
        Err(e) => { return Err(e); },
    };
    let (rest, inherit) = if is_kind(t, rest, TokenKind::LeftParen) {
        let (r2, parent) = match identifier(t, rest + 1) {
            Ok(x) => x,
            Err(e) => { return Err(e); },
        };
        let r3 = match token_kind(t, r2, TokenKind::RightParen) {
            Ok(j) => j,
            Err(e) => { return Err(e); },
        };
        (r3, Some(parent))
    } else {
        (rest, None)
    };
    let mut rest = match token_kind(t, rest, TokenKind::Colon) {
        Ok(j) => j,
        Err(e) => { return Err(e); },
    };
    let ghost body_start = rest;
    let mut stmts: Vec<Statement> = Vec::new();
    proof {
        let b = stmts_spec(t@, body_start as int);
        assert(stmts_view(stmts@) + b.1 =~= b.1);
    }
    loop
        invariant
            i < body_start <= rest <= t@.len(),
            stmts_spec(t@, body_start as int) == (stmts_spec(t@, rest as int).0, stmts_view(stmts@) + stmts_spec(t@, rest as int).1),
        ensures
            i < rest <= t@.len(),
            stmts_spec(t@, body_start as int) == (rest as int, stmts_view(stmts@)),
        decreases t@.len() - rest,
    {
        match statement_line(t, rest) {
            Ok((j, s)) => {
                let ghost prev = stmts@;
                stmts.push(s);
                proof {
                    assert(stmts_view(stmts@) =~= stmts_view(prev).push(stmt_view(s)));
                    let m = stmts_spec(t@, j as int);
                    assert(stmts_view(prev) + (seq![stmt_view(s)] + m.1) =~= stmts_view(stmts@) + m.1);
                }
                rest = j;
            },
            Err(_) => {
                proof {
                    assert(stmts_view(stmts@) + Seq::<StmtV>::empty() =~= stmts_view(stmts@));
                }
                break;
            },
        }
    }
    Ok((rest, Grammar { name, inherit, statements: stmts }))
}

/// `define name expression`.
fn define_statement(t: &[Token], i: usize) -> (r: ParseResult<(String, Expression)>)
    ensures
        match r {
            Ok((j, d)) => define_spec(t@, i as int) == Some((j as int, (d.0@, d.1@))) && i < j <= t@.len(),
            Err(e) => define_spec(t@, i as int) is None,
        },
{
    let rest = match token_kind(t, i, TokenKind::Define) {
        Ok(j) => j,
        Err(e) => { return Err(e); },
    };
    let (rest, name) = match identifier(t, rest) {
        Ok(x) => x,
        Err(e) => { return Err(e); },
    };
    match expression(t, rest) {
        Ok((j, e)) => Ok((j, (name, e))),
        Err(e) => Err(e),
    }
}

/// Message of the error a document that does not end where its top level
/// ends is refused with.
pub open spec fn document_error_message(t: Seq<Token>, end: int) -> Seq<char> {
    if end < t.len() {
        "unexpected token Tag"@
    } else {
        "unexpected token Eof"@
    }
}

/// Where that error points: the token where the top level ends, if any.
pub open spec fn document_error_span(t: Seq<Token>, end: int) -> Span {
    if 0 <= end < t.len() {
        t[end].span
    } else {
        Span { offset: 0, line: 0, col: 0, len: 0 }
    }
}

/// Parses a whole document: blank lines, `define`s and `grammar`s, then `EOF`.
/// A later definition of a name replaces an earlier one.
pub fn parse_gel_document(tokens: &[Token]) -> (r: Result<GelDocument, GelError>)
    ensures
        match r {
            Ok(doc) => {
                &&& kind_at(tokens@, document_spec(tokens@).0, TokenKind::EOF)
                &&& defines_view(doc) == document_spec(tokens@).1
                &&& grammars_view(doc) == document_spec(tokens@).2
                &&& doc.wf()
                &&& doc.regex_patterns@.len() == 0
                &&& doc.pattern_indices.entries@.len() == 0
            },
            Err(e) => {
                &&& !kind_at(tokens@, document_spec(tokens@).0, TokenKind::EOF)
                &&& e matches GelError::Parse { message, span }
                &&& message@ == document_error_message(tokens@, document_spec(tokens@).0)
                &&& span == document_error_span(tokens@, document_spec(tokens@).0)
            },
        },
{
    let mut doc = GelDocument::new();
    let mut rest: usize = 0;
    proof {
        assert(defines_view(doc) =~= Seq::<(Seq<char>, ExprV)>::empty());
        assert(grammars_view(doc) =~= Seq::<(Seq<char>, GrammarV)>::empty());
    }
    loop
        invariant
            rest <= tokens@.len(),
            doc.wf(),
            doc.regex_patterns@.len() == 0,
            doc.pattern_indices.entries@.len() == 0,
            document_spec(tokens@) == doc_spec(tokens@, rest as int, defines_view(doc), grammars_view(doc)),
        ensures
            rest <= tokens@.len(),
            doc.wf(),
            doc.regex_patterns@.len() == 0,
            doc.pattern_indices.entries@.len() == 0,
            document_spec(tokens@) == (rest as int, defines_view(doc), grammars_view(doc)),
        decreases tokens@.len() - rest,
    {
        if is_kind(tokens, rest, TokenKind::Newline) {
            rest = rest + 1;
            continue;
        }
        match define_statement(tokens, rest) {
            Ok((j, (name, e))) => {
                proof {
                    lemma_store_view(doc.defines.entries@, |x: Expression| x@, name, e);
                    let m = (match find_key(doc.defines.entries@, name@) {
                        Some(x) => doc.defines.entries@.update(x, (name, e)),
                        None => doc.defines.entries@.push((name, e)),
                    });
                    assert(m.map_values(|p: (String, Expression)| (p.0@, (|x: Expression| x@)(p.1)))
                        =~= m.map_values(|p: (String, Expression)| (p.0@, p.1@)));
                    assert(doc.defines.entries@.map_values(|p: (String, Expression)| (p.0@, (|x: Expression| x@)(p.1)))
                        =~= defines_view(doc));
                }
                doc.defines.insert(name, e);
                rest = j;
                continue;
            },
            Err(_) => {},
        }
        match grammar_statement(tokens, rest) {
            Ok((j, g)) => {
                let key = g.name.clone();
                proof {
                    lemma_store_view(doc.grammars.entries@, |x: Grammar| grammar_view(x), key, g);
                    let m = (match find_key(doc.grammars.entries@, key@) {
                        Some(x) => doc.grammars.entries@.update(x, (key, g)),
                        None => doc.grammars.entries@.push((key, g)),
                    });
                    assert(m.map_values(|p: (String, Grammar)| (p.0@, (|x: Grammar| grammar_view(x))(p.1)))
                        =~= m.map_values(|p: (String, Grammar)| (p.0@, grammar_view(p.1))));
                    assert(doc.grammars.entries@.map_values(|p: (String, Grammar)| (p.0@, (|x: Grammar| grammar_view(x))(p.1)))
                        =~= grammars_view(doc));
                }
                doc.grammars.insert(key, g);
                rest = j;
                continue;
            },
            Err(_) => {},
        }
        break;
    }
    match token_kind(tokens, rest, TokenKind::EOF) {
        Ok(_) => Ok(doc),
        Err(e) => {
            let span = if e.pos < tokens.len() { tokens[e.pos].span } else { Span::unknown() };
            let msg = match e.kind {
                ParseErrorKind::Tag => "unexpected token Tag",
                ParseErrorKind::Eof => "unexpected token Eof",
                ParseErrorKind::Digit => "unexpected token Digit",
            };
            Err(GelError::parse(msg, span))
        },
    }
}

} // verus!
