//! Lexer: turns Gel source text into tokens.
//!
//! The token grammar is stated as spec functions over the source characters
//! (`next_token_spec`, `lex_from`); `lex` is proved to follow it.

use vstd::prelude::*;
use crate::errors::{GelError, Span};
use crate::text::{str_to_chars, chars_to_string, char_is_whitespace, char_is_alphanumeric, unicode_whitespace, unicode_alphanumeric};

verus! {

/// Discriminant for each kind of Gel token produced by the lexer.
#[derive(Debug, Clone, Copy, PartialEq, Eq, Structural)]
pub enum TokenKind {
    Define,
    Grammar,
    Match,
    IMatch,
    When,
    Skip,
    Identifier,
    String,
    Regex,
    Number,
    Capture,
    Colon,
    Pipe,
    Comma,
    Equals,
    LeftParen,
    RightParen,
    Newline,
    Indent,
    Comment,
    EOF,
}

/// A lexer token: its kind, its source text, its byte offset and its span.
#[derive(Debug, Clone)]
pub struct Token {
    pub kind: TokenKind,
    pub slice: String,
    pub position: usize,
    pub span: Span,
}

// ---------------------------------------------------------------------------
// Character classes
// ---------------------------------------------------------------------------

pub open spec fn is_ascii_digit_c(c: char) -> bool {
    '0' <= c <= '9'
}

pub open spec fn is_ascii_alpha_c(c: char) -> bool {
    ('a' <= c <= 'z') || ('A' <= c <= 'Z')
}

pub open spec fn is_ascii_alnum_c(c: char) -> bool {
    is_ascii_digit_c(c) || is_ascii_alpha_c(c)
}

/// Characters an identifier continues with.
pub open spec fn is_ident_char(c: char) -> bool {
    is_ascii_alnum_c(c) || c == '_' || c == '-' || c == '.' || c == '/' || c == '@'
}

/// Characters a capture name is made of.
pub open spec fn is_capture_char(c: char) -> bool {
    is_ascii_alnum_c(c) || c == '_'
}

/// Intra-line whitespace.
pub open spec fn is_inline_ws(c: char) -> bool {
    unicode_whitespace(c) && c != '\n' && c != '\r'
}

/// Characters a comment runs over.
pub open spec fn is_comment_char(c: char) -> bool {
    c != '\n' && c != '\r'
}

/// Character classes the lexer scans runs of.
#[derive(Clone, Copy, PartialEq, Eq, Structural)]
pub enum CharClass {
    Digit,
    Ident,
    CaptureName,
    InlineWs,
    CommentBody,
    Space,
    Tab,
}

pub open spec fn in_char_class(k: CharClass, c: char) -> bool {
    match k {
        CharClass::Digit => is_ascii_digit_c(c),
        CharClass::Ident => is_ident_char(c),
        CharClass::CaptureName => is_capture_char(c),
        CharClass::InlineWs => is_inline_ws(c),
        CharClass::CommentBody => is_comment_char(c),
        CharClass::Space => c == ' ',
        CharClass::Tab => c == '\t',
    }
}

fn char_in_class(k: CharClass, c: char) -> (r: bool)
    ensures
        r == in_char_class(k, c),
{
    match k {
        CharClass::Digit => '0' <= c && c <= '9',
        CharClass::Ident => ('0' <= c && c <= '9') || ('a' <= c && c <= 'z') || ('A' <= c && c <= 'Z')
            || c == '_' || c == '-' || c == '.' || c == '/' || c == '@',
        CharClass::CaptureName => ('0' <= c && c <= '9') || ('a' <= c && c <= 'z') || ('A' <= c && c <= 'Z')
            || c == '_',
        CharClass::InlineWs => c != '\n' && c != '\r' && char_is_whitespace(c),
        CharClass::CommentBody => c != '\n' && c != '\r',
        CharClass::Space => c == ' ',
        CharClass::Tab => c == '\t',
    }
}

/// Length of the run of class-`k` characters starting at `i`.
pub open spec fn class_run(s: Seq<char>, i: int, k: CharClass) -> nat
    decreases s.len() - i,
{
    if i < 0 || i >= s.len() || !in_char_class(k, s[i]) {
        0
    } else {
        1 + class_run(s, i + 1, k)
    }
}

proof fn lemma_class_run_bound(s: Seq<char>, i: int, k: CharClass)
    requires
        0 <= i <= s.len(),
    ensures
        i + class_run(s, i, k) <= s.len(),
    decreases s.len() - i,
{
    if i < s.len() && in_char_class(k, s[i]) {
        lemma_class_run_bound(s, i + 1, k);
    }
}

fn scan_class(s: &[char], i: usize, k: CharClass) -> (n: usize)
    requires
        i <= s@.len(),
    ensures
        n == class_run(s@, i as int, k),
        i + n <= s@.len(),
{
    let mut j = i;
    while j < s.len() && char_in_class(k, s[j])
        invariant
            i <= j <= s@.len(),
            class_run(s@, i as int, k) == (j - i) + class_run(s@, j as int, k),
        decreases s@.len() - j,
    {
        j = j + 1;
    }
    proof {
        lemma_class_run_bound(s@, i as int, k);
    }
    j - i
}

/// Length of the run of `\n` / `\r\n` line endings starting at `i`.
pub open spec fn nl_run(s: Seq<char>, i: int) -> nat
    decreases s.len() - i,
{
    if 0 <= i < s.len() && s[i] == '\n' {
        1 + nl_run(s, i + 1)
    } else if 0 <= i && i + 1 < s.len() && s[i] == '\r' && s[i + 1] == '\n' {
        2 + nl_run(s, i + 2)
    } else {
        0
    }
}

proof fn lemma_nl_run_bound(s: Seq<char>, i: int)
    requires
        0 <= i <= s.len(),
    ensures
        i + nl_run(s, i) <= s.len(),
    decreases s.len() - i,
{
    if i < s.len() && s[i] == '\n' {
        lemma_nl_run_bound(s, i + 1);
    } else if i + 1 < s.len() && s[i] == '\r' && s[i + 1] == '\n' {
        lemma_nl_run_bound(s, i + 2);
    }
}

fn scan_newlines(s: &[char], i: usize) -> (n: usize)
    requires
        i <= s@.len(),
    ensures
        n == nl_run(s@, i as int),
        i + n <= s@.len(),
{
    let mut j = i;
    loop
        invariant
            i <= j <= s@.len(),
            nl_run(s@, i as int) == (j - i) + nl_run(s@, j as int),
        ensures
            i <= j <= s@.len(),
            nl_run(s@, i as int) == (j - i) + nl_run(s@, j as int),
            nl_run(s@, j as int) == 0,
        decreases s@.len() - j,
    {
        if j < s.len() && s[j] == '\n' {
            j = j + 1;
        } else if s.len() - j > 1 && s[j] == '\r' && s[j + 1] == '\n' {
            j = j + 2;
        } else {
            break;
        }
    }
    proof {
        lemma_nl_run_bound(s@, i as int);
    }
    j - i
}

/// End (one past the closing delimiter) of a quoted literal whose body starts at
/// `j`; a backslash skips the next character.  `None` when unterminated.
pub open spec fn quoted_end(s: Seq<char>, j: int, delim: char) -> Option<int>
    decreases s.len() + 1 - j,
{
    if j < 0 || j >= s.len() {
        None
    } else if s[j] == '\\' {
        quoted_end(s, j + 2, delim)
    } else if s[j] == delim {
        Some(j + 1)
    } else {
        quoted_end(s, j + 1, delim)
    }
}

proof fn lemma_quoted_end_bound(s: Seq<char>, j: int, delim: char)
    requires
        0 <= j,
    ensures
        quoted_end(s, j, delim) matches Some(e) ==> j < e <= s.len(),
    decreases s.len() + 1 - j,
{
    if j < s.len() {
        if s[j] == '\\' {
            lemma_quoted_end_bound(s, j + 2, delim);
        } else if s[j] != delim {
            lemma_quoted_end_bound(s, j + 1, delim);
        }
    }
}

fn scan_quoted(s: &[char], j: usize, delim: char) -> (r: Option<usize>)
    ensures
        r matches Some(e) ==> quoted_end(s@, j as int, delim) == Some(e as int),
        r is None ==> quoted_end(s@, j as int, delim) is None,
{
    let mut k = j;
    proof {
        lemma_quoted_end_bound(s@, j as int, delim);
    }
    while k < s.len()
        invariant
            j <= k,
            quoted_end(s@, j as int, delim) == quoted_end(s@, k as int, delim),
        decreases s@.len() - k,
    {
        if s[k] == '\\' {
            if k >= s.len() - 1 {
                proof {
                    assert(quoted_end(s@, k + 2, delim) is None);
                }
                return None;
            }
            k = k + 2;
        } else if s[k] == delim {
            return Some(k + 1);
        } else {
            k = k + 1;
        }
    }
    None
}

/// Whether `w` occurs in `s` at `i`.
pub open spec fn starts_at(s: Seq<char>, i: int, w: Seq<char>) -> bool {
    0 <= i && i + w.len() <= s.len() && s.subrange(i, i + w.len()) == w
}

fn starts_with_at(s: &[char], i: usize, w: &str) -> (r: bool)
    ensures
        r == starts_at(s@, i as int, w@),
{
    let wc = str_to_chars(w);
    let slen = s.len();
    if i > slen || wc.len() > slen - i {
        return false;
    }
    let mut k: usize = 0;
    while k < wc.len()
        invariant
            i + wc@.len() <= s@.len(),
            slen == s@.len(),
            k <= wc@.len(),
            wc@ == w@,
            forall|t: int| 0 <= t < k ==> s@[i + t] == wc@[t],
        decreases wc@.len() - k,
    {
        if s[i + k] != wc[k] {
            proof {
                assert(s@.subrange(i as int, i + wc@.len())[k as int] != wc@[k as int]);
            }
            return false;
        }
        k = k + 1;
    }
    proof {
        assert(s@.subrange(i as int, i + wc@.len()) =~= wc@);
    }
    true
}

/// A keyword matches when its word is not followed by a letter, digit or `_`.
pub open spec fn keyword_at(s: Seq<char>, i: int, w: Seq<char>) -> bool {
    &&& starts_at(s, i, w)
    &&& (i + w.len() >= s.len() || !(unicode_alphanumeric(s[i + w.len()]) || s[i + w.len()] == '_'))
}

/// The token that starts at `i`: its kind and length in characters.  The rules
/// are tried in order: line endings, intra-line whitespace, comments, keywords,
/// quoted strings, regex literals, numbers, captures, identifiers, operators.
pub open spec fn next_token_spec(s: Seq<char>, i: int) -> Option<(TokenKind, nat)> {
    if i < 0 || i >= s.len() {
        None
    } else if nl_run(s, i) > 0 {
        Some((TokenKind::Newline, nl_run(s, i)))
    } else if class_run(s, i, CharClass::InlineWs) > 0 {
        Some((TokenKind::Newline, class_run(s, i, CharClass::InlineWs)))
    } else if s[i] == '#' || s[i] == '!' {
        Some((TokenKind::Comment, 1 + class_run(s, i + 1, CharClass::CommentBody)))
    } else if keyword_at(s, i, "define"@) {
        Some((TokenKind::Define, 6))
    } else if keyword_at(s, i, "grammar"@) {
        Some((TokenKind::Grammar, 7))
    } else if keyword_at(s, i, "imatch"@) {
        Some((TokenKind::IMatch, 6))
    } else if keyword_at(s, i, "match"@) {
        Some((TokenKind::Match, 5))
    } else if keyword_at(s, i, "when"@) {
        Some((TokenKind::When, 4))
    } else if keyword_at(s, i, "skip"@) {
        Some((TokenKind::Skip, 4))
    } else if (s[i] == '\'' && quoted_end(s, i + 1, '\'') is Some) {
        Some((TokenKind::String, (quoted_end(s, i + 1, '\'')->0 - i) as nat))
    } else if (s[i] == '"' && quoted_end(s, i + 1, '"') is Some) {
        Some((TokenKind::String, (quoted_end(s, i + 1, '"')->0 - i) as nat))
    } else if (s[i] == '/' && quoted_end(s, i + 1, '/') is Some) {
        Some((TokenKind::Regex, (quoted_end(s, i + 1, '/')->0 - i) as nat))
    } else if is_ascii_digit_c(s[i]) && (i + class_run(s, i, CharClass::Digit) >= s.len()
        || !is_capture_char(s[i + class_run(s, i, CharClass::Digit)])) {
        Some((TokenKind::Number, class_run(s, i, CharClass::Digit)))
    } else if s[i] == '$' && class_run(s, i + 1, CharClass::CaptureName) > 0 {
        Some((TokenKind::Capture, 1 + class_run(s, i + 1, CharClass::CaptureName)))
    } else if is_capture_char(s[i]) {
        Some((TokenKind::Identifier, class_run(s, i, CharClass::Ident)))
    } else if s[i] == ':' {
        Some((TokenKind::Colon, 1))
    } else if s[i] == '|' {
        Some((TokenKind::Pipe, 1))
    } else if s[i] == ',' {
        Some((TokenKind::Comma, 1))
    } else if s[i] == '=' {
        Some((TokenKind::Equals, 1))
    } else if s[i] == '(' {
        Some((TokenKind::LeftParen, 1))
    } else if s[i] == ')' {
        Some((TokenKind::RightParen, 1))
    } else {
        None
    }
}

/// The indentation at a line start: four or more spaces, or one or more tabs.
pub open spec fn indent_len(s: Seq<char>, i: int) -> nat {
    if starts_at(s, i, "    "@) {
        class_run(s, i, CharClass::Space)
    } else if 0 <= i < s.len() && s[i] == '\t' {
        class_run(s, i, CharClass::Tab)
    } else {
        0
    }
}

/// Whether a character range contains a `\n`.
pub open spec fn has_newline(s: Seq<char>, a: int, b: int) -> bool {
    exists|k: int| a <= k < b && s[k] == '\n'
}

/// The error lexing `input` fails with: at the first character no rule
/// accepts, "Unexpected character 'c'" spanning it, or "empty token" where a
/// rule accepts nothing; the span gives the byte offset, line and column.
pub open spec fn lex_failure(input: Seq<char>, e: GelError) -> bool {
    lex_from(input, 0, true) is Err && {
        let at = lex_from(input, 0, true)->Err_0;
        &&& e matches GelError::Lex { message, span } && {
            &&& span.offset == byte_len(input.subrange(0, at))
            &&& (span.line as nat, span.col as nat) == line_col(input, at)
            &&& if next_token_spec(input, at) is Some {
                message@ == "empty token"@ && span.len == 0
            } else {
                message@ == "Unexpected character '"@ + seq![input[at]] + "'"@ && span.len == 1
            }
        }
    }
}

/// The tokens from `i` on, as (kind, start, end) character ranges, or the
/// position of the first character no rule accepts.  Comments and intra-line
/// whitespace are dropped; indentation is recognised only at a line start.
pub open spec fn lex_from(s: Seq<char>, i: int, line_start: bool) -> Result<Seq<(TokenKind, int, int)>, int>
    decreases s.len() - i, if line_start { 1int } else { 0int },
{
    if i < 0 || i >= s.len() {
        Ok(Seq::empty())
    } else if line_start && indent_len(s, i) > 0 {
        let n = indent_len(s, i) as int;
        if i + n > s.len() {
            Err(i)
        } else {
        match lex_from(s, i + n, false) {
            Ok(rest) => Ok(seq![(TokenKind::Indent, i, i + n)] + rest),
            Err(e) => Err(e),
        }
        }
    } else {
        match next_token_spec(s, i) {
            None => Err(i),
            Some((kind, n)) => {
                if n == 0 || i + n > s.len() {
                    Err(i)
                } else {
                    let end = i + n;
                    let kept = kind != TokenKind::Comment && (kind != TokenKind::Newline || has_newline(s, i, end));
                    let next_start = kept && kind == TokenKind::Newline;
                    match lex_from(s, end, next_start) {
                        Ok(rest) => if kept {
                            Ok(seq![(kind, i, end)] + rest)
                        } else {
                            Ok(rest)
                        },
                        Err(e) => Err(e),
                    }
                }
            },
        }
    }
}

/// UTF-8 length of a character.
pub open spec fn utf8_len(c: char) -> nat {
    if (c as u32) < 0x80 {
        1
    } else if (c as u32) < 0x800 {
        2
    } else if (c as u32) < 0x10000 {
        3
    } else {
        4
    }
}

/// UTF-8 length of a character sequence.
pub open spec fn byte_len(s: Seq<char>) -> nat
    decreases s.len(),
{
    if s.len() == 0 {
        0
    } else {
        byte_len(s.drop_last()) + utf8_len(s.last())
    }
}

/// 1-based (line, column) of character position `i`.
pub open spec fn line_col(s: Seq<char>, i: int) -> (nat, nat)
    decreases i,
{
    if i <= 0 {
        (1, 1)
    } else {
        let (l, c) = line_col(s, i - 1);
        if s[i - 1] == '\n' {
            (l + 1, 1)
        } else {
            (l, c + 1)
        }
    }
}

pub(crate) fn char_utf8_len(c: char) -> (n: usize)
    ensures
        n == utf8_len(c),
        1 <= n <= 4,
{
    let v = c as u32;
    if v < 0x80 {
        1
    } else if v < 0x800 {
        2
    } else if v < 0x10000 {
        3
    } else {
        4
    }
}

proof fn lemma_line_col_bound(s: Seq<char>, i: int)
    requires
        0 <= i,
    ensures
        1 <= line_col(s, i).0 <= i + 1,
        1 <= line_col(s, i).1 <= i + 1,
    decreases i,
{
    if i > 0 {
        lemma_line_col_bound(s, i - 1);
    }
}

pub proof fn lemma_byte_len_bound(s: Seq<char>)
    ensures
        s.len() <= byte_len(s) <= 4 * s.len(),
    decreases s.len(),
{
    if s.len() > 0 {
        lemma_byte_len_bound(s.drop_last());
    }
}

/// Cursor over the source: character index, byte offset, line and column.
#[derive(Clone, Copy)]
struct LexPos {
    i: usize,
    byte: usize,
    line: usize,
    col: usize,
}

/// Whether a cursor describes character position `p.i` of `s`.
spec fn pos_ok(s: Seq<char>, p: LexPos) -> bool {
    &&& p.i <= s.len()
    &&& p.byte == byte_len(s.subrange(0, p.i as int))
    &&& (p.line as nat, p.col as nat) == line_col(s, p.i as int)
}

/// Moves the cursor `n` characters forward.
fn advance(s: &[char], p: LexPos, n: usize) -> (q: LexPos)
    requires
        pos_ok(s@, p),
        p.i + n <= s@.len(),
        4 * s@.len() < usize::MAX,
    ensures
        pos_ok(s@, q),
        q.i == p.i + n,
{
    let mut q = p;
    let target = p.i + n;
    while q.i < target
        invariant
            pos_ok(s@, q),
            p.i <= q.i <= target <= s@.len(),
            4 * s@.len() < usize::MAX,
        decreases target - q.i,
    {
        let c = s[q.i];
        proof {
            assert(s@.subrange(0, q.i + 1).drop_last() =~= s@.subrange(0, q.i as int));
            lemma_byte_len_bound(s@.subrange(0, q.i + 1));
            lemma_line_col_bound(s@, q.i + 1);
        }
        let w = char_utf8_len(c);
        q.byte = q.byte + w;
        if c == '\n' {
            q.line = q.line + 1;
            q.col = 1;
        } else {
            q.col = q.col + 1;
        }
        q.i = q.i + 1;
    }
    q
}

/// The token at `i` per [`next_token_spec`].
pub(crate) fn next_token(s: &[char], i: usize) -> (r: Option<(TokenKind, usize)>)
    requires
        i < s@.len(),
    ensures
        match r {
            Some((k, n)) => next_token_spec(s@, i as int) == Some((k, n as nat)) && i + n <= s@.len(),
            None => next_token_spec(s@, i as int) is None,
        },
{
    let len = s.len();
    let nl = scan_newlines(s, i);
    if nl > 0 {
        return Some((TokenKind::Newline, nl));
    }
    let ws = scan_class(s, i, CharClass::InlineWs);
    if ws > 0 {
        return Some((TokenKind::Newline, ws));
    }
    let c = s[i];
    if c == '#' || c == '!' {
        let body = scan_class(s, i + 1, CharClass::CommentBody);
        return Some((TokenKind::Comment, 1 + body));
    }
    if keyword(s, i, "define") {
        proof { reveal_strlit("define"); }
        return Some((TokenKind::Define, 6));
    }
    if keyword(s, i, "grammar") {
        proof { reveal_strlit("grammar"); }
        return Some((TokenKind::Grammar, 7));
    }
    if keyword(s, i, "imatch") {
        proof { reveal_strlit("imatch"); }
        return Some((TokenKind::IMatch, 6));
    }
    if keyword(s, i, "match") {
        proof { reveal_strlit("match"); }
        return Some((TokenKind::Match, 5));
    }
    if keyword(s, i, "when") {
        proof { reveal_strlit("when"); }
        return Some((TokenKind::When, 4));
    }
    if keyword(s, i, "skip") {
        proof { reveal_strlit("skip"); }
        return Some((TokenKind::Skip, 4));
    }
    if c == '\'' {
        proof { lemma_quoted_end_bound(s@, i + 1, '\''); }
        match scan_quoted(s, i + 1, '\'') {
            Some(e) => { return Some((TokenKind::String, e - i)); },
            None => {},
        }
    }
    if c == '"' {
        proof { lemma_quoted_end_bound(s@, i + 1, '"'); }
        match scan_quoted(s, i + 1, '"') {
            Some(e) => { return Some((TokenKind::String, e - i)); },
            None => {},
        }
    }
    if c == '/' {
        proof { lemma_quoted_end_bound(s@, i + 1, '/'); }
        match scan_quoted(s, i + 1, '/') {
            Some(e) => { return Some((TokenKind::Regex, e - i)); },
            None => {},
        }
    }
    if '0' <= c && c <= '9' {
        let d = scan_class(s, i, CharClass::Digit);
        if i + d >= len || !char_in_class(CharClass::CaptureName, s[i + d]) {
            return Some((TokenKind::Number, d));
        }
    }
    if c == '$' {
        let m = scan_class(s, i + 1, CharClass::CaptureName);
        if m > 0 {
            return Some((TokenKind::Capture, 1 + m));
        }
    }
    if char_in_class(CharClass::CaptureName, c) {
        let m = scan_class(s, i, CharClass::Ident);
        return Some((TokenKind::Identifier, m));
    }
    if c == ':' {
        Some((TokenKind::Colon, 1))
    } else if c == '|' {
        Some((TokenKind::Pipe, 1))
    } else if c == ',' {
        Some((TokenKind::Comma, 1))
    } else if c == '=' {
        Some((TokenKind::Equals, 1))
    } else if c == '(' {
        Some((TokenKind::LeftParen, 1))
    } else if c == ')' {
        Some((TokenKind::RightParen, 1))
    } else {
        None
    }
}

fn keyword(s: &[char], i: usize, w: &str) -> (r: bool)
    requires
        i < s@.len(),
    ensures
        r == keyword_at(s@, i as int, w@),
{
    if !starts_with_at(s, i, w) {
        return false;
    }
    let slen = s.len();
    let wl = w.unicode_len();
    let end = i + wl;
    if end >= slen {
        return true;
    }
    let c = s[end];
    !(char_is_alphanumeric(c) || c == '_')
}

fn indent_at(s: &[char], i: usize) -> (n: usize)
    requires
        i <= s@.len(),
    ensures
        n == indent_len(s@, i as int),
        i + n <= s@.len(),
{
    if starts_with_at(s, i, "    ") {
        scan_class(s, i, CharClass::Space)
    } else if i < s.len() && s[i] == '\t' {
        scan_class(s, i, CharClass::Tab)
    } else {
        0
    }
}

fn range_has_newline(s: &[char], a: usize, b: usize) -> (r: bool)
    requires
        a <= b <= s@.len(),
    ensures
        r == has_newline(s@, a as int, b as int),
{
    let mut k = a;
    while k < b
        invariant
            a <= k <= b <= s@.len(),
            forall|t: int| a <= t < k ==> s@[t] != '\n',
        decreases b - k,
    {
        if s[k] == '\n' {
            return true;
        }
        k = k + 1;
    }
    false
}

/// `Ok(prefix + rest)` for `Ok(rest)`; errors pass through.
pub open spec fn prepend(prefix: Seq<(TokenKind, int, int)>, r: Result<Seq<(TokenKind, int, int)>, int>) -> Result<
    Seq<(TokenKind, int, int)>,
    int,
> {
    match r {
        Ok(rest) => Ok(prefix + rest),
        Err(e) => Err(e),
    }
}

/// Whether a token stands for the spec token `t` of source `s`.
pub open spec fn token_matches(tok: Token, t: (TokenKind, int, int), s: Seq<char>) -> bool {
    &&& tok.kind == t.0
    &&& tok.slice@ == s.subrange(t.1, t.2)
    &&& tok.position == byte_len(s.subrange(0, t.1))
    &&& tok.span.offset == tok.position
    &&& (tok.span.line as nat, tok.span.col as nat) == line_col(s, t.1)
    &&& tok.span.len == byte_len(s.subrange(t.1, t.2))
}

pub proof fn lemma_byte_len_concat(a: Seq<char>, b: Seq<char>)
    ensures
        byte_len(a + b) == byte_len(a) + byte_len(b),
    decreases b.len(),
{
    if b.len() > 0 {
        assert((a + b).drop_last() =~= a + b.drop_last());
        lemma_byte_len_concat(a, b.drop_last());
    } else {
        assert(a + b =~= a);
    }
}

/// Builds the token for the character range `p.i .. q.i`.
fn make_token(s: &[char], kind: TokenKind, p: &LexPos, q: &LexPos) -> (tok: Token)
    requires
        pos_ok(s@, *p),
        pos_ok(s@, *q),
        p.i <= q.i,
    ensures
        token_matches(tok, (kind, p.i as int, q.i as int), s@),
{
    proof {
        let a = s@.subrange(0, p.i as int);
        let b = s@.subrange(p.i as int, q.i as int);
        assert(a + b =~= s@.subrange(0, q.i as int));
        lemma_byte_len_concat(a, b);
    }
    let text = chars_to_string(vstd::slice::slice_subrange(s, p.i, q.i));
    Token { kind, slice: text, position: p.byte, span: Span::new(p.byte, p.line, p.col, q.byte - p.byte) }
}

/// Whether `toks` is a tokenization of `input`: the tokens [`lex_from`] finds,
/// each with its text and place, then the end-of-input token.
pub open spec fn tokens_of(input: Seq<char>, toks: Seq<Token>) -> bool {
    lex_from(input, 0, true) is Ok && {
        let spec = lex_from(input, 0, true)->Ok_0;
        &&& toks.len() == spec.len() + 1
        &&& forall|j: int| 0 <= j < spec.len() ==> token_matches(#[trigger] toks[j], spec[j], input)
        &&& toks.last().kind == TokenKind::EOF
        &&& toks.last().slice@.len() == 0
        &&& toks.last().position == byte_len(input)
    }
}

/// Tokenizes Gel source.  Comments and intra-line whitespace are dropped;
/// an `EOF` token ends the list.  An unexpected character is a lex error at its
/// position.
pub fn lex(input: &str) -> (r: Result<Vec<Token>, GelError>)
    requires
        4 * input@.len() < usize::MAX,
    ensures
        match r {
            Ok(toks) => tokens_of(input@, toks@),
            Err(e) => lex_from(input@, 0, true) is Err && {
                let at = lex_from(input@, 0, true)->Err_0;
                &&& e is Lex
                &&& e->Lex_span.offset == byte_len(input@.subrange(0, at))
                &&& (e->Lex_span.line as nat, e->Lex_span.col as nat) == line_col(input@, at)
            } && lex_failure(input@, e),
        },
{
    let s = str_to_chars(input);
    let mut tokens: Vec<Token> = Vec::new();
    let mut p = LexPos { i: 0, byte: 0, line: 1, col: 1 };
    let mut line_start = true;
    let ghost mut emitted: Seq<(TokenKind, int, int)> = Seq::empty();
    proof {
        assert(s@.subrange(0, 0) =~= Seq::<char>::empty());
        assert(emitted + lex_from(s@, 0, true)->Ok_0 =~= lex_from(s@, 0, true)->Ok_0);
    }
    while p.i < s.len()
        invariant
            s@ == input@,
            4 * s@.len() < usize::MAX,
            pos_ok(s@, p),
            lex_from(s@, 0, true) == prepend(emitted, lex_from(s@, p.i as int, line_start)),
            tokens@.len() == emitted.len(),
            forall|j: int| 0 <= j < emitted.len() ==> token_matches(#[trigger] tokens@[j], emitted[j], s@),
        decreases s@.len() - p.i, if line_start { 1int } else { 0int },
    {
        if line_start {
            line_start = false;
            let n = indent_at(s.as_slice(), p.i);
            if n > 0 {
                let q = advance(s.as_slice(), p, n);
                let tok = make_token(s.as_slice(), TokenKind::Indent, &p, &q);
                tokens.push(tok);
                proof {
                    let t = (TokenKind::Indent, p.i as int, q.i as int);
                    let old_e = emitted;
                    assert(lex_from(s@, p.i as int, true) == prepend(seq![t], lex_from(s@, q.i as int, false)));
                    emitted = emitted.push(t);
                    assert(lex_from(s@, 0, true) == prepend(emitted, lex_from(s@, q.i as int, false))) by {
                        match lex_from(s@, q.i as int, false) {
                            Ok(rest) => {
                                assert(old_e + (seq![t] + rest) =~= emitted + rest);
                            },
                            Err(_) => {},
                        }
                    }
                }
                p = q;
                continue;
            }
            proof {
                assert(lex_from(s@, p.i as int, true) == lex_from(s@, p.i as int, false));
            }
        }
        match next_token(s.as_slice(), p.i) {
            None => {
                proof {
                    assert(lex_from(s@, p.i as int, line_start) == Err::<Seq<(TokenKind, int, int)>, int>(p.i as int));
                }
                let mut msg = "Unexpected character '".to_string();
                let one = vstd::slice::slice_subrange(s.as_slice(), p.i, p.i + 1);
                let cs = chars_to_string(one);
                msg.append(cs.as_str());
                msg.append("'");
                proof {
                    assert(one@ =~= seq![s@[p.i as int]]);
                    assert(msg@ =~= "Unexpected character '"@ + seq![s@[p.i as int]] + "'"@);
                }
                return Err(GelError::lex(msg.as_str(), Span::new(p.byte, p.line, p.col, 1)));
            },
            Some((kind, n)) => {
                if n == 0 {
                    proof {
                        assert(lex_from(s@, p.i as int, line_start) == Err::<Seq<(TokenKind, int, int)>, int>(p.i as int));
                    }
                    return Err(GelError::lex("empty token", Span::new(p.byte, p.line, p.col, 0)));
                }
                let q = advance(s.as_slice(), p, n);
                let kept = kind != TokenKind::Comment && (kind != TokenKind::Newline || range_has_newline(s.as_slice(), p.i, q.i));
                let ghost t = (kind, p.i as int, q.i as int);
                let ghost old_e = emitted;
                if kept {
                    let tok = make_token(s.as_slice(), kind, &p, &q);
                    tokens.push(tok);
                    proof {
                        emitted = emitted.push(t);
                    }
                }
                let next_start = kept && kind == TokenKind::Newline;
                proof {
                    let rest_r = lex_from(s@, q.i as int, next_start);
                    assert(lex_from(s@, p.i as int, line_start) == if kept { prepend(seq![t], rest_r) } else { rest_r });
                    assert(lex_from(s@, 0, true) == prepend(emitted, rest_r)) by {
                        match rest_r {
                            Ok(rest) => {
                                if kept {
                                    assert(old_e + (seq![t] + rest) =~= emitted + rest);
                                }
                            },
                            Err(_) => {},
                        }
                    }
                }
                line_start = next_start;
                p = q;
            },
        }
    }
    proof {
        assert(lex_from(s@, p.i as int, line_start) == Ok::<Seq<(TokenKind, int, int)>, int>(Seq::empty()));
        assert(emitted + Seq::<(TokenKind, int, int)>::empty() =~= emitted);
        assert(s@.subrange(0, s@.len() as int) =~= s@);
    }
    let eof = Token {
        kind: TokenKind::EOF,
        slice: String::new(),
        position: p.byte,
        span: Span::new(p.byte, p.line, p.col, 0),
    };
    tokens.push(eof);
    Ok(tokens)
}

} // verus!
