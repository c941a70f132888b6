//! The document grammar, stated over the token list: for each construct,
//! whether it is found at a position, where it ends, and what it stands for.
//! The parsers of `syntax` are proved to follow these rules.

use vstd::prelude::*;
use crate::parser::ast::{AltV, CallV, ExprV, GrammarV, StmtV, put_named};
use crate::parser::lexer::{Token, TokenKind};
use crate::parser::syntax::{ends_fields, expr_of, kind_at};

verus! {

/// The first index from `i` on whose token is not of kind `k`.
pub open spec fn skip_kind_spec(t: Seq<Token>, i: int, k: TokenKind) -> int
    decreases t.len() - i,
{
    if kind_at(t, i, k) {
        skip_kind_spec(t, i + 1, k)
    } else {
        i
    }
}

/// The first index from `i` on whose token is neither a line break nor indentation.
pub open spec fn skip_ws_spec(t: Seq<Token>, i: int) -> int
    decreases t.len() - i,
{
    if kind_at(t, i, TokenKind::Newline) || kind_at(t, i, TokenKind::Indent) {
        skip_ws_spec(t, i + 1)
    } else {
        i
    }
}

/// The expression token `i` stands for, if there is such a token.
pub open spec fn expr_at(t: Seq<Token>, i: int) -> Option<ExprV> {
    if 0 <= i < t.len() {
        expr_of(t[i])
    } else {
        None
    }
}

/// A call's arguments from `r` on: expressions, each optionally followed by a
/// comma, up to a `)` or a token that is no expression; with where they end.
pub open spec fn call_args_spec(t: Seq<Token>, r: int) -> (int, Seq<ExprV>)
    decreases t.len() - r,
{
    if kind_at(t, r, TokenKind::RightParen) {
        (r, seq![])
    } else {
        match expr_at(t, r) {
            Some(e) => {
                let next = if kind_at(t, r + 1, TokenKind::Comma) {
                    r + 2
                } else {
                    r + 1
                };
                let more = call_args_spec(t, next);
                (more.0, seq![e] + more.1)
            },
            None => (r, seq![]),
        }
    }
}

/// `name` or `name(arg, ...)` at `i`.
pub open spec fn call_spec(t: Seq<Token>, i: int) -> Option<(int, CallV)> {
    if !kind_at(t, i, TokenKind::Identifier) {
        None
    } else if !kind_at(t, i + 1, TokenKind::LeftParen) {
        Some((i + 1, (t[i].slice@, seq![])))
    } else {
        let a = call_args_spec(t, i + 2);
        if kind_at(t, a.0, TokenKind::RightParen) {
            Some((a.0 + 1, (t[i].slice@, a.1)))
        } else {
            None
        }
    }
}

/// Expressions from `i` on, across line breaks and indentation, up to a token
/// that ends a field list or is no expression; with where they end (past the
/// line breaks and indentation there).
pub open spec fn exprs_spec(t: Seq<Token>, i: int) -> (int, Seq<ExprV>)
    decreases t.len() - i,
{
    let p = skip_ws_spec(t, i);
    if i <= p < t.len() && !ends_fields(t[p].kind) {
        match expr_of(t[p]) {
            Some(e) => {
                let more = exprs_spec(t, p + 1);
                (more.0, seq![e] + more.1)
            },
            None => (p, seq![]),
        }
    } else {
        (p, seq![])
    }
}

/// One or more expressions at `i` (see [`exprs_spec`]).
pub open spec fn many1_spec(t: Seq<Token>, i: int) -> Option<(int, Seq<ExprV>)> {
    let r = exprs_spec(t, i);
    if r.1.len() == 0 {
        None
    } else {
        Some(r)
    }
}

/// Further alternatives after position `i`: each a `|` (after line breaks and
/// indentation) and one or more expressions.
pub open spec fn more_alts_spec(t: Seq<Token>, i: int, flags: u32) -> Option<(int, Seq<AltV>)>
    decreases t.len() - i,
{
    let p = skip_ws_spec(t, i);
    if kind_at(t, p, TokenKind::Pipe) {
        match many1_spec(t, p + 1) {
            Some(m) => if i < m.0 <= t.len() {
                match more_alts_spec(t, m.0, flags) {
                    Some(more) => Some((more.0, seq![(m.1, flags)] + more.1)),
                    None => None,
                }
            } else {
                None
            },
            None => None,
        }
    } else {
        Some((i, seq![]))
    }
}

/// The alternatives of a `match` / `when` at `i`.
pub open spec fn alts_spec(t: Seq<Token>, i: int, flags: u32) -> Option<(int, Seq<AltV>)> {
    match many1_spec(t, i) {
        Some(m) => match more_alts_spec(t, m.0, flags) {
            Some(more) => Some((more.0, seq![(m.1, flags)] + more.1)),
            None => None,
        },
        None => None,
    }
}

/// Total UTF-8 length of the slices of tokens `a .. b`.
pub open spec fn slice_bytes(t: Seq<Token>, a: int, b: int) -> int
    decreases b - a,
{
    if b <= a {
        0
    } else {
        slice_bytes(t, a, b - 1) + vstd::utf8::encode_utf8(t[b - 1].slice@).len()
    }
}

/// A width as a `usize` counter that stops at its maximum holds it.
pub open spec fn capped(n: int) -> int {
    if n > usize::MAX {
        usize::MAX as int
    } else {
        n
    }
}

/// A block of actions from `i` on. Each line: line breaks, indentation, a call.
/// The first indented line sets the block's indentation (`base`); a line
/// indented less, or one without a call once a call was read (`started`), ends
/// the block before its line breaks.
pub open spec fn block_loop(t: Seq<Token>, i: int, base: Option<int>, started: bool) -> Option<(int, Seq<CallV>)>
    decreases t.len() - i,
{
    let r0 = skip_kind_spec(t, i, TokenKind::Newline);
    let r = skip_kind_spec(t, r0, TokenKind::Indent);
    let w = capped(slice_bytes(t, r0, r));
    if base matches Some(b) && w < b {
        Some((i, seq![]))
    } else {
        match call_spec(t, r) {
            Some(c) => if i < c.0 <= t.len() {
                let nb = if base is None && w > 0 {
                    Some(w)
                } else {
                    base
                };
                match block_loop(t, c.0, nb, true) {
                    Some(more) => Some((more.0, seq![c.1] + more.1)),
                    None => None,
                }
            } else {
                None
            },
            None => if started {
                Some((i, seq![]))
            } else {
                None
            },
        }
    }
}

/// The action block at `i`: at least one call.
pub open spec fn block_spec(t: Seq<Token>, i: int) -> Option<(int, Seq<CallV>)> {
    block_loop(t, i, None, false)
}

/// `skip expression` at `i`.
pub open spec fn skip_stmt_spec(t: Seq<Token>, i: int) -> Option<(int, StmtV)> {
    if kind_at(t, i, TokenKind::Skip) {
        match expr_at(t, i + 1) {
            Some(e) => Some((i + 2, StmtV::Skip(e))),
            None => None,
        }
    } else {
        None
    }
}

/// `match` / `imatch` alternatives `:` actions, at `i`.
pub open spec fn match_stmt_spec(t: Seq<Token>, i: int) -> Option<(int, StmtV)> {
    if kind_at(t, i, TokenKind::Match) || kind_at(t, i, TokenKind::IMatch) {
        let ci = kind_at(t, i, TokenKind::IMatch);
        let flags: u32 = if ci {
            1
        } else {
            0
        };
        match alts_spec(t, i + 1, flags) {
            Some(a) => if kind_at(t, a.0, TokenKind::Colon) {
                match block_spec(t, a.0 + 1) {
                    Some(b) => Some((b.0, StmtV::Match(a.1, b.1, ci))),
                    None => None,
                }
            } else {
                None
            },
            None => None,
        }
    } else {
        None
    }
}

/// `when` alternatives `:` actions, at `i`.
pub open spec fn when_stmt_spec(t: Seq<Token>, i: int) -> Option<(int, StmtV)> {
    if kind_at(t, i, TokenKind::When) {
        match alts_spec(t, i + 1, 0) {
            Some(a) => if kind_at(t, a.0, TokenKind::Colon) {
                match block_spec(t, a.0 + 1) {
                    Some(b) => Some((b.0, StmtV::When(a.1, b.1))),
                    None => None,
                }
            } else {
                None
            },
            None => None,
        }
    } else {
        None
    }
}

/// Where a statement line's statement starts: past line breaks, then indentation.
pub open spec fn line_start(t: Seq<Token>, i: int) -> int {
    skip_kind_spec(t, skip_kind_spec(t, i, TokenKind::Newline), TokenKind::Indent)
}

/// One statement line at `i`: `skip`, else `match` / `imatch`, else `when`,
/// else a bare call.
pub open spec fn statement_spec(t: Seq<Token>, i: int) -> Option<(int, StmtV)> {
    let p = line_start(t, i);
    if skip_stmt_spec(t, p) is Some {
        skip_stmt_spec(t, p)
    } else if match_stmt_spec(t, p) is Some {
        match_stmt_spec(t, p)
    } else if when_stmt_spec(t, p) is Some {
        when_stmt_spec(t, p)
    } else {
        match call_spec(t, p) {
            Some(c) => Some((c.0, StmtV::Action(c.1))),
            None => None,
        }
    }
}

/// Statement lines from `i` on, as many as there are; with where they end.
pub open spec fn stmts_spec(t: Seq<Token>, i: int) -> (int, Seq<StmtV>)
    decreases t.len() - i,
{
    match statement_spec(t, i) {
        Some(s) => if i < s.0 <= t.len() {
            let more = stmts_spec(t, s.0);
            (more.0, seq![s.1] + more.1)
        } else {
            (i, seq![])
        },
        None => (i, seq![]),
    }
}

/// `grammar name[(parent)]:` and its statements, at `i`.
pub open spec fn grammar_spec(t: Seq<Token>, i: int) -> Option<(int, GrammarV)> {
    if kind_at(t, i, TokenKind::Grammar) && kind_at(t, i + 1, TokenKind::Identifier) {
        let head: Option<(int, Option<Seq<char>>)> = if kind_at(t, i + 2, TokenKind::LeftParen) {
            if kind_at(t, i + 3, TokenKind::Identifier) && kind_at(t, i + 4, TokenKind::RightParen) {
                Some((i + 5, Some(t[i + 3].slice@)))
            } else {
                None
            }
        } else {
            Some((i + 2, None))
        };
        match head {
            Some(h) => if kind_at(t, h.0, TokenKind::Colon) {
                let body = stmts_spec(t, h.0 + 1);
                Some((body.0, (t[i + 1].slice@, h.1, body.1)))
            } else {
                None
            },
            None => None,
        }
    } else {
        None
    }
}

/// `define name expression` at `i`.
pub open spec fn define_spec(t: Seq<Token>, i: int) -> Option<(int, (Seq<char>, ExprV))> {
    if kind_at(t, i, TokenKind::Define) && kind_at(t, i + 1, TokenKind::Identifier) {
        match expr_at(t, i + 2) {
            Some(e) => Some((i + 3, (t[i + 1].slice@, e))),
            None => None,
        }
    } else {
        None
    }
}

/// The top level from `i` on: blank lines, definitions and grammars, each
/// stored under its name (a later one replaces an earlier one in place); with
/// where they end.
pub open spec fn doc_spec(
    t: Seq<Token>,
    i: int,
    defs: Seq<(Seq<char>, ExprV)>,
    gs: Seq<(Seq<char>, GrammarV)>,
) -> (int, Seq<(Seq<char>, ExprV)>, Seq<(Seq<char>, GrammarV)>)
    decreases t.len() - i,
{
    if kind_at(t, i, TokenKind::Newline) {
        doc_spec(t, i + 1, defs, gs)
    } else {
        match define_spec(t, i) {
            Some(d) => doc_spec(t, d.0, put_named(defs, d.1.0, d.1.1), gs),
            None => match grammar_spec(t, i) {
                Some(g) => if i < g.0 <= t.len() {
                    doc_spec(t, g.0, defs, put_named(gs, g.1.0, g.1))
                } else {
                    (i, defs, gs)
                },
                None => (i, defs, gs),
            },
        }
    }
}

/// The whole document: its top level from the first token, starting empty.
pub open spec fn document_spec(t: Seq<Token>) -> (int, Seq<(Seq<char>, ExprV)>, Seq<(Seq<char>, GrammarV)>) {
    doc_spec(t, 0, seq![], seq![])
}

} // verus!
