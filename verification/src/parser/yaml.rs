//! YAML rendering of a document's syntax tree.

use vstd::prelude::*;
use crate::parser::ast::{Expression, FunctionCall, GelDocument, Grammar, MatchFieldList, MatchList, Statement};
use crate::parser::xml::{pad, push_pad};
use crate::text::{chars_to_string, decimal, decimal_int, i64_to_decimal, push_all, push_str, str_to_chars, trim_chars, trim_spec, u64_to_decimal};

verus! {

/// Characters that make a YAML scalar need quotes.
pub open spec fn yaml_special(c: char) -> bool {
    c == ':' || c == '-' || c == '#' || c == '{' || c == '}' || c == '[' || c == ']' || c == ','
}

/// Whether a scalar is written in double quotes: it holds a special character
/// or a line break, or has surrounding whitespace.
pub open spec fn needs_quotes(s: Seq<char>) -> bool {
    (exists|i: int| 0 <= i < s.len() && (yaml_special(#[trigger] s[i]) || s[i] == '\n')) || trim_spec(s) != s
}

/// Each `"` preceded by a backslash.
pub open spec fn escape_quotes(s: Seq<char>) -> Seq<char>
    decreases s.len(),
{
    if s.len() == 0 {
        Seq::empty()
    } else {
        escape_quotes(s.drop_last()) + if s.last() == '"' {
            seq!['\\', '"']
        } else {
            seq![s.last()]
        }
    }
}

/// A scalar as written in the YAML rendering.
pub open spec fn escape_scalar_spec(s: Seq<char>) -> Seq<char> {
    if needs_quotes(s) {
        seq!['"'] + escape_quotes(s) + seq!['"']
    } else {
        s
    }
}

/// Appends a scalar, quoted when it needs to be (see [`escape_scalar_spec`]).
pub fn push_scalar(out: &mut Vec<char>, s: &str)
    ensures
        final(out)@ == old(out)@ + escape_scalar_spec(s@),
{
    let c = str_to_chars(s);
    let mut special = false;
    let mut i: usize = 0;
    while i < c.len()
        invariant
            i <= c@.len(),
            c@ == s@,
            special == exists|k: int| 0 <= k < i && (yaml_special(#[trigger] c@[k]) || c@[k] == '\n'),
        decreases c@.len() - i,
    {
        let ch = c[i];
        if ch == ':' || ch == '-' || ch == '#' || ch == '{' || ch == '}' || ch == '[' || ch == ']' || ch == ',' || ch == '\n' {
            special = true;
        }
        i = i + 1;
    }
    let trimmed = trim_chars(c.as_slice());
    let same = trimmed.len() == c.len();
    proof {
        if !same {
            assert(trimmed@.len() != c@.len());
        } else {
            // trimming removes a prefix and a suffix; equal length means nothing
            assert(trimmed@ == trim_spec(c@));
            crate::text::lemma_trim_same_len(c@);
        }
    }
    if special || !same {
        out.push('"');
        let ghost start = out@;
        let mut j: usize = 0;
        while j < c.len()
            invariant
                j <= c@.len(),
                out@ == start + escape_quotes(c@.subrange(0, j as int)),
            decreases c@.len() - j,
        {
            let ghost before = out@;
            if c[j] == '"' {
                out.push('\\');
                out.push('"');
            } else {
                out.push(c[j]);
            }
            proof {
                assert(c@.subrange(0, j + 1).drop_last() =~= c@.subrange(0, j as int));
                assert(out@ =~= before + if c@[j as int] == '"' { seq!['\\', '"'] } else { seq![c@[j as int]] });
            }
            j = j + 1;
        }
        proof {
            assert(c@.subrange(0, c@.len() as int) =~= c@);
        }
        out.push('"');
    } else {
        crate::text::push_all(out, c.as_slice());
    }
}

/// An expression as an inline mapping body: its type and its value.
pub open spec fn yaml_inline(e: Expression) -> Seq<char> {
    match e {
        Expression::String(s) => "type: string, value: "@ + escape_scalar_spec(s@),
        Expression::Regex(r) => "type: regex, value: "@ + escape_scalar_spec(r@),
        Expression::Variable(v) => "type: variable, value: "@ + escape_scalar_spec(v@),
        Expression::Number(n) => "type: number, value: "@ + decimal_int(n as int),
        Expression::Capture(i) => "type: capture, index: "@ + decimal(i as nat),
        Expression::CaptureName(n) => "type: capture_name, name: "@ + escape_scalar_spec(n@),
    }
}

/// A list item `- { ... }` holding an expression, at depth `d`.
pub open spec fn yaml_expr_item(e: Expression, d: nat) -> Seq<char> {
    pad(d) + "- { "@ + yaml_inline(e) + " }"@ + seq!['\n']
}

/// Expressions as list items.
pub open spec fn yaml_expr_items(es: Seq<Expression>, d: nat) -> Seq<char>
    decreases es.len(),
{
    if es.len() == 0 {
        Seq::empty()
    } else {
        yaml_expr_items(es.drop_last(), d) + yaml_expr_item(es.last(), d)
    }
}

/// A call's `name:` line and its `args:` list (when it has arguments).
pub open spec fn yaml_call_body(c: FunctionCall, d: nat) -> Seq<char> {
    pad(d) + "name: "@ + escape_scalar_spec(c.name@) + seq!['\n'] + (if c.args@.len() == 0 {
        Seq::empty()
    } else {
        pad(d) + "args:"@ + seq!['\n'] + yaml_expr_items(c.args@, d + 1)
    })
}

/// Calls as `- call:` items.
pub open spec fn yaml_calls(cs: Seq<FunctionCall>, d: nat) -> Seq<char>
    decreases cs.len(),
{
    if cs.len() == 0 {
        Seq::empty()
    } else {
        yaml_calls(cs.drop_last(), d) + pad(d) + "- call:"@ + seq!['\n'] + yaml_call_body(cs.last(), d + 1)
    }
}

/// A statement's `actions:` list, when it has actions.
pub open spec fn yaml_actions(cs: Seq<FunctionCall>, d: nat) -> Seq<char> {
    if cs.len() == 0 {
        Seq::empty()
    } else {
        pad(d) + "actions:"@ + seq!['\n'] + yaml_calls(cs, d + 1)
    }
}

/// One alternative: its flags, then its `expressions:` list when not empty.
pub open spec fn yaml_alt(fl: MatchFieldList, d: nat) -> Seq<char> {
    pad(d) + "- flags: "@ + decimal(fl.flags as nat) + seq!['\n'] + (if fl.expressions@.len() == 0 {
        Seq::empty()
    } else {
        pad(d + 1) + "expressions:"@ + seq!['\n'] + yaml_expr_items(fl.expressions@, d + 2)
    })
}

/// Alternatives, one after the other.
pub open spec fn yaml_alts(alts: Seq<MatchFieldList>, d: nat) -> Seq<char>
    decreases alts.len(),
{
    if alts.len() == 0 {
        Seq::empty()
    } else {
        yaml_alts(alts.drop_last(), d) + yaml_alt(alts.last(), d)
    }
}

/// A match list's `patterns:` list, when it has alternatives.
pub open spec fn yaml_match_list(ml: MatchList, d: nat) -> Seq<char> {
    if ml.alternatives@.len() == 0 {
        Seq::empty()
    } else {
        pad(d) + "patterns:"@ + seq!['\n'] + yaml_alts(ml.alternatives@, d + 1)
    }
}

/// A statement as a list item `- type: ...` with its parts one level deeper.
pub open spec fn yaml_stmt(st: Statement, d: nat) -> Seq<char> {
    match st {
        Statement::Match(m) => pad(d) + "- type: match"@ + seq!['\n'] + pad(d + 1) + (if m.case_insensitive {
            "case_insensitive: true"@
        } else {
            "case_insensitive: false"@
        }) + seq!['\n'] + yaml_match_list(m.match_list, d + 1) + yaml_actions(m.actions@, d + 1),
        Statement::When(w) => pad(d) + "- type: when"@ + seq!['\n'] + yaml_match_list(w.match_list, d + 1)
            + yaml_actions(w.actions@, d + 1),
        Statement::Skip(k) => pad(d) + "- type: skip"@ + seq!['\n'] + pad(d + 1) + "pattern: { "@ + yaml_inline(
            k.pattern,
        ) + " }"@ + seq!['\n'],
        Statement::Action(c) => pad(d) + "- type: action"@ + seq!['\n'] + yaml_call_body(c, d + 1),
    }
}

/// Statements, one after the other.
pub open spec fn yaml_stmts(ss: Seq<Statement>, d: nat) -> Seq<char>
    decreases ss.len(),
{
    if ss.len() == 0 {
        Seq::empty()
    } else {
        yaml_stmts(ss.drop_last(), d) + yaml_stmt(ss.last(), d)
    }
}

/// A grammar's body: `inherit:` (when it has a parent) and `statements:`
/// (when it has statements).
pub open spec fn yaml_grammar(g: Grammar, d: nat) -> Seq<char> {
    (match g.inherit {
        Some(p) => pad(d) + "inherit: "@ + escape_scalar_spec(p@) + seq!['\n'],
        None => Seq::empty(),
    }) + (if g.statements@.len() == 0 {
        Seq::empty()
    } else {
        pad(d) + "statements:"@ + seq!['\n'] + yaml_stmts(g.statements@, d + 1)
    })
}

/// The definitions: `name: { type: ..., value: ... }`.
pub open spec fn yaml_defines(ds: Seq<(String, Expression)>) -> Seq<char>
    decreases ds.len(),
{
    if ds.len() == 0 {
        Seq::empty()
    } else {
        yaml_defines(ds.drop_last()) + "    "@ + escape_scalar_spec(ds.last().0@) + ": { "@ + yaml_inline(ds.last().1)
            + " }"@ + seq!['\n']
    }
}

/// The grammars: `name:` then the grammar's body.
pub open spec fn yaml_grammars(gs: Seq<(String, Grammar)>) -> Seq<char>
    decreases gs.len(),
{
    if gs.len() == 0 {
        Seq::empty()
    } else {
        yaml_grammars(gs.drop_last()) + "    "@ + escape_scalar_spec(gs.last().0@) + ":"@ + seq!['\n'] + yaml_grammar(
            gs.last().1,
            3,
        )
    }
}

/// A document as YAML: `gel_document:` with `defines` and `grammars`, each
/// only when not empty.
pub open spec fn yaml_document(doc: GelDocument) -> Seq<char> {
    "gel_document:"@ + seq!['\n'] + (if doc.defines.entries@.len() == 0 {
        Seq::empty()
    } else {
        "  defines:"@ + seq!['\n'] + yaml_defines(doc.defines.entries@)
    }) + (if doc.grammars.entries@.len() == 0 {
        Seq::empty()
    } else {
        "  grammars:"@ + seq!['\n'] + yaml_grammars(doc.grammars.entries@)
    })
}

/// Appends `pad(d)` and a literal.
fn push_at(out: &mut Vec<char>, d: usize, t: &str)
    ensures
        final(out)@ == old(out)@ + pad(d as nat) + t@,
{
    push_pad(out, d);
    push_str(out, t);
}

fn push_inline(out: &mut Vec<char>, e: &Expression)
    ensures
        final(out)@ == old(out)@ + yaml_inline(*e),
{
    match e {
        Expression::String(s) => {
            push_str(out, "type: string, value: ");
            push_scalar(out, s.as_str());
        },
        Expression::Regex(r) => {
            push_str(out, "type: regex, value: ");
            push_scalar(out, r.as_str());
        },
        Expression::Variable(v) => {
            push_str(out, "type: variable, value: ");
            push_scalar(out, v.as_str());
        },
        Expression::Number(n) => {
            push_str(out, "type: number, value: ");
            let dg = i64_to_decimal(*n);
            push_all(out, dg.as_slice());
        },
        Expression::Capture(i) => {
            push_str(out, "type: capture, index: ");
            let dg = u64_to_decimal(*i as u64);
            push_all(out, dg.as_slice());
        },
        Expression::CaptureName(n) => {
            push_str(out, "type: capture_name, name: ");
            push_scalar(out, n.as_str());
        },
    }
    assert(out@ =~= old(out)@ + yaml_inline(*e));
}

fn push_expr_item(out: &mut Vec<char>, e: &Expression, d: usize)
    ensures
        final(out)@ == old(out)@ + yaml_expr_item(*e, d as nat),
{
    push_at(out, d, "- { ");
    push_inline(out, e);
    push_str(out, " }");
    out.push('\n');
    assert(out@ =~= old(out)@ + yaml_expr_item(*e, d as nat));
}

fn push_expr_items(out: &mut Vec<char>, es: &[Expression], d: usize)
    ensures
        final(out)@ == old(out)@ + yaml_expr_items(es@, d as nat),
{
    let ghost start = out@;
    let mut i: usize = 0;
    while i < es.len()
        invariant
            i <= es@.len(),
            out@ == start + yaml_expr_items(es@.subrange(0, i as int), d as nat),
        decreases es@.len() - i,
    {
        push_expr_item(out, &es[i], d);
        proof {
            assert(es@.subrange(0, i + 1).drop_last() =~= es@.subrange(0, i as int));
        }
        i = i + 1;
        assert(out@ =~= start + yaml_expr_items(es@.subrange(0, i as int), d as nat));
    }
    assert(es@.subrange(0, es@.len() as int) =~= es@);
}

fn push_call_body(out: &mut Vec<char>, c: &FunctionCall, d: usize)
    requires
        d < 400,
    ensures
        final(out)@ == old(out)@ + yaml_call_body(*c, d as nat),
{
    push_at(out, d, "name: ");
    push_scalar(out, c.name.as_str());
    out.push('\n');
    if c.args.len() > 0 {
        push_at(out, d, "args:");
        out.push('\n');
        push_expr_items(out, c.args.as_slice(), d + 1);
    }
    assert(out@ =~= old(out)@ + yaml_call_body(*c, d as nat));
}

fn push_actions(out: &mut Vec<char>, cs: &[FunctionCall], d: usize)
    requires
        d < 300,
    ensures
        final(out)@ == old(out)@ + yaml_actions(cs@, d as nat),
{
    if cs.len() == 0 {
        return;
    }
    push_at(out, d, "actions:");
    out.push('\n');
    let ghost start = out@;
    let mut i: usize = 0;
    while i < cs.len()
        invariant
            i <= cs@.len(),
            d < 300,
            out@ == start + yaml_calls(cs@.subrange(0, i as int), (d + 1) as nat),
        decreases cs@.len() - i,
    {
        push_at(out, d + 1, "- call:");
        out.push('\n');
        push_call_body(out, &cs[i], d + 2);
        proof {
            assert(cs@.subrange(0, i + 1).drop_last() =~= cs@.subrange(0, i as int));
        }
        i = i + 1;
        assert(out@ =~= start + yaml_calls(cs@.subrange(0, i as int), (d + 1) as nat));
    }
    assert(cs@.subrange(0, cs@.len() as int) =~= cs@);
    assert(out@ =~= old(out)@ + yaml_actions(cs@, d as nat));
}

fn push_alt(out: &mut Vec<char>, fl: &MatchFieldList, d: usize)
    requires
        d < 400,
    ensures
        final(out)@ == old(out)@ + yaml_alt(*fl, d as nat),
{
    push_at(out, d, "- flags: ");
    let dg = u64_to_decimal(fl.flags as u64);
    push_all(out, dg.as_slice());
    out.push('\n');
    if fl.expressions.len() > 0 {
        push_at(out, d + 1, "expressions:");
        out.push('\n');
        push_expr_items(out, fl.expressions.as_slice(), d + 2);
    }
    assert(out@ =~= old(out)@ + yaml_alt(*fl, d as nat));
}

fn push_match_list(out: &mut Vec<char>, ml: &MatchList, d: usize)
    requires
        d < 300,
    ensures
        final(out)@ == old(out)@ + yaml_match_list(*ml, d as nat),
{
    if ml.alternatives.len() == 0 {
        return;
    }
    push_at(out, d, "patterns:");
    out.push('\n');
    let ghost start = out@;
    let mut i: usize = 0;
    while i < ml.alternatives.len()
        invariant
            i <= ml.alternatives@.len(),
            d < 300,
            out@ == start + yaml_alts(ml.alternatives@.subrange(0, i as int), (d + 1) as nat),
        decreases ml.alternatives@.len() - i,
    {
        push_alt(out, &ml.alternatives[i], d + 1);
        proof {
            assert(ml.alternatives@.subrange(0, i + 1).drop_last() =~= ml.alternatives@.subrange(0, i as int));
        }
        i = i + 1;
        assert(out@ =~= start + yaml_alts(ml.alternatives@.subrange(0, i as int), (d + 1) as nat));
    }
    assert(ml.alternatives@.subrange(0, ml.alternatives@.len() as int) =~= ml.alternatives@);
    assert(out@ =~= old(out)@ + yaml_match_list(*ml, d as nat));
}

fn push_match_stmt(out: &mut Vec<char>, m: &crate::parser::ast::MatchStatement, d: usize)
    requires
        d < 200,
    ensures
        final(out)@ == old(out)@ + yaml_stmt(Statement::Match(*m), d as nat),
{
    let ghost flag = if m.case_insensitive {
        "case_insensitive: true"@
    } else {
        "case_insensitive: false"@
    };
    push_at(out, d, "- type: match");
    out.push('\n');
    if m.case_insensitive {
        push_at(out, d + 1, "case_insensitive: true");
    } else {
        push_at(out, d + 1, "case_insensitive: false");
    }
    out.push('\n');
    let ghost head = out@;
    assert(head =~= old(out)@ + pad(d as nat) + "- type: match"@ + seq!['\n'] + pad((d + 1) as nat) + flag + seq!['\n']);
    push_match_list(out, &m.match_list, d + 1);
    let ghost mid = out@;
    push_actions(out, m.actions.as_slice(), d + 1);
    assert(out@ =~= head + yaml_match_list(m.match_list, (d + 1) as nat) + yaml_actions(m.actions@, (d + 1) as nat));
}

fn push_stmt(out: &mut Vec<char>, st: &Statement, d: usize)
    requires
        d < 200,
    ensures
        final(out)@ == old(out)@ + yaml_stmt(*st, d as nat),
{
    match st {
        Statement::Match(m) => push_match_stmt(out, m, d),
        Statement::When(w) => {
            push_at(out, d, "- type: when");
            out.push('\n');
            push_match_list(out, &w.match_list, d + 1);
            push_actions(out, w.actions.as_slice(), d + 1);
            assert(out@ =~= old(out)@ + yaml_stmt(*st, d as nat));
        },
        Statement::Skip(k) => {
            push_at(out, d, "- type: skip");
            out.push('\n');
            push_at(out, d + 1, "pattern: { ");
            push_inline(out, &k.pattern);
            push_str(out, " }");
            out.push('\n');
            assert(out@ =~= old(out)@ + yaml_stmt(*st, d as nat));
        },
        Statement::Action(c) => {
            push_at(out, d, "- type: action");
            out.push('\n');
            push_call_body(out, c, d + 1);
            assert(out@ =~= old(out)@ + yaml_stmt(*st, d as nat));
        },
    }
}

fn push_grammar(out: &mut Vec<char>, g: &Grammar, d: usize)
    requires
        d < 100,
    ensures
        final(out)@ == old(out)@ + yaml_grammar(*g, d as nat),
{
    match &g.inherit {
        Some(p) => {
            push_at(out, d, "inherit: ");
            push_scalar(out, p.as_str());
            out.push('\n');
        },
        None => {},
    }
    let ghost mid = out@;
    if g.statements.len() > 0 {
        push_at(out, d, "statements:");
        out.push('\n');
        let ghost start = out@;
        let mut i: usize = 0;
        while i < g.statements.len()
            invariant
                i <= g.statements@.len(),
                d < 100,
                out@ == start + yaml_stmts(g.statements@.subrange(0, i as int), (d + 1) as nat),
            decreases g.statements@.len() - i,
        {
            push_stmt(out, &g.statements[i], d + 1);
            proof {
                assert(g.statements@.subrange(0, i + 1).drop_last() =~= g.statements@.subrange(0, i as int));
            }
            i = i + 1;
            assert(out@ =~= start + yaml_stmts(g.statements@.subrange(0, i as int), (d + 1) as nat));
        }
        assert(g.statements@.subrange(0, g.statements@.len() as int) =~= g.statements@);
    }
    assert(out@ =~= old(out)@ + yaml_grammar(*g, d as nat));
}

/// YAML generator for Gel documents.
#[derive(Debug, Default)]
pub struct YamlGenerator;

impl YamlGenerator {
    pub fn new() -> (r: YamlGenerator) {
        YamlGenerator
    }

    /// The document as YAML (see [`yaml_document`]).
    pub fn generate_from_ast(document: &GelDocument) -> (r: String)
        ensures
            r@ == yaml_document(*document),
    {
        let mut out: Vec<char> = Vec::new();
        push_str(&mut out, "gel_document:");
        out.push('\n');
        if document.defines.entries.len() > 0 {
            push_str(&mut out, "  defines:");
            out.push('\n');
            let ghost start = out@;
            let ds = &document.defines.entries;
            let mut i: usize = 0;
            while i < ds.len()
                invariant
                    i <= ds@.len(),
                    out@ == start + yaml_defines(ds@.subrange(0, i as int)),
                decreases ds@.len() - i,
            {
                push_str(&mut out, "    ");
                push_scalar(&mut out, ds[i].0.as_str());
                push_str(&mut out, ": { ");
                push_inline(&mut out, &ds[i].1);
                push_str(&mut out, " }");
                out.push('\n');
                proof {
                    assert(ds@.subrange(0, i + 1).drop_last() =~= ds@.subrange(0, i as int));
                }
                i = i + 1;
                assert(out@ =~= start + yaml_defines(ds@.subrange(0, i as int)));
            }
            assert(ds@.subrange(0, ds@.len() as int) =~= ds@);
        }
        let ghost mid = out@;
        if document.grammars.entries.len() > 0 {
            push_str(&mut out, "  grammars:");
            out.push('\n');
            let ghost start = out@;
            let gs = &document.grammars.entries;
            let mut i: usize = 0;
            while i < gs.len()
                invariant
                    i <= gs@.len(),
                    out@ == start + yaml_grammars(gs@.subrange(0, i as int)),
                decreases gs@.len() - i,
            {
                push_str(&mut out, "    ");
                push_scalar(&mut out, gs[i].0.as_str());
                push_str(&mut out, ":");
                out.push('\n');
                push_grammar(&mut out, &gs[i].1, 3);
                proof {
                    assert(gs@.subrange(0, i + 1).drop_last() =~= gs@.subrange(0, i as int));
                }
                i = i + 1;
                assert(out@ =~= start + yaml_grammars(gs@.subrange(0, i as int)));
            }
            assert(gs@.subrange(0, gs@.len() as int) =~= gs@);
        }
        assert(out@ =~= yaml_document(*document));
        chars_to_string(out.as_slice())
    }
}

} // verus!
