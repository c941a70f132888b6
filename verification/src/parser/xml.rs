//! XML rendering of a document's syntax tree.

use vstd::prelude::*;
use crate::parser::ast::{Expression, FunctionCall, GelDocument, Grammar, MatchFieldList, MatchList, Statement};
use crate::text::{chars_to_string, decimal, decimal_int, i64_to_decimal, push_all, push_str, str_to_chars, u64_to_decimal};

verus! {

/// A character escaped for XML text or a double-quoted attribute.
pub open spec fn xml_escape_char(c: char) -> Seq<char> {
    if c == '&' {
        "&amp;"@
    } else if c == '<' {
        "&lt;"@
    } else if c == '>' {
        "&gt;"@
    } else if c == '"' {
        "&quot;"@
    } else if c == '\'' {
        "&#39;"@
    } else {
        seq![c]
    }
}

/// A text with `& < > " '` escaped.
pub open spec fn xml_escape_spec(s: Seq<char>) -> Seq<char>
    decreases s.len(),
{
    if s.len() == 0 {
        Seq::empty()
    } else {
        xml_escape_spec(s.drop_last()) + xml_escape_char(s.last())
    }
}

/// Appends the text with `& < > " '` escaped.
pub fn push_xml_escaped(out: &mut Vec<char>, s: &str)
    ensures
        final(out)@ == old(out)@ + xml_escape_spec(s@),
{
    let c = str_to_chars(s);
    let mut i: usize = 0;
    while i < c.len()
        invariant
            i <= c@.len(),
            c@ == s@,
            out@ == old(out)@ + xml_escape_spec(c@.subrange(0, i as int)),
        decreases c@.len() - i,
    {
        let ch = c[i];
        let ghost before = out@;
        if ch == '&' {
            push_str(out, "&amp;");
        } else if ch == '<' {
            push_str(out, "&lt;");
        } else if ch == '>' {
            push_str(out, "&gt;");
        } else if ch == '"' {
            push_str(out, "&quot;");
        } else if ch == '\'' {
            push_str(out, "&#39;");
        } else {
            out.push(ch);
        }
        proof {
            assert(c@.subrange(0, i + 1).drop_last() =~= c@.subrange(0, i as int));
            assert(out@ =~= before + xml_escape_char(ch));
        }
        i = i + 1;
    }
    proof {
        assert(c@.subrange(0, c@.len() as int) =~= c@);
    }
}

/// `2 * d` spaces: the indentation of depth `d`.
pub open spec fn pad(d: nat) -> Seq<char> {
    Seq::new(2 * d, |i: int| ' ')
}

/// A line at depth `d`.
pub open spec fn xline(d: nat, t: Seq<char>) -> Seq<char> {
    pad(d) + t + seq!['\n']
}

/// An expression as an element: `<string>`, `<regex>`, `<variable>`,
/// `<number>`, `<capture>` or `<capture-name>` around its (escaped) value.
pub open spec fn xml_expr_body(e: Expression) -> Seq<char> {
    match e {
        Expression::String(s) => "<string>"@ + xml_escape_spec(s@) + "</string>"@,
        Expression::Regex(r) => "<regex>"@ + xml_escape_spec(r@) + "</regex>"@,
        Expression::Variable(v) => "<variable>"@ + xml_escape_spec(v@) + "</variable>"@,
        Expression::Number(n) => "<number>"@ + decimal_int(n as int) + "</number>"@,
        Expression::Capture(i) => "<capture>"@ + decimal(i as nat) + "</capture>"@,
        Expression::CaptureName(n) => "<capture-name>"@ + xml_escape_spec(n@) + "</capture-name>"@,
    }
}

/// Expressions, one element a line.
pub open spec fn xml_exprs(es: Seq<Expression>, d: nat) -> Seq<char>
    decreases es.len(),
{
    if es.len() == 0 {
        Seq::empty()
    } else {
        xml_exprs(es.drop_last(), d) + xline(d, xml_expr_body(es.last()))
    }
}

/// Call arguments: an `<args>` element, when there are any.
pub open spec fn xml_args(args: Seq<Expression>, d: nat) -> Seq<char> {
    if args.len() == 0 {
        Seq::empty()
    } else {
        xline(d, "<args>"@) + xml_exprs(args, d + 1) + xline(d, "</args>"@)
    }
}

/// An action call: `<call name="...">` with its arguments.
pub open spec fn xml_call(c: FunctionCall, d: nat) -> Seq<char> {
    xline(d, "<call name=\""@ + xml_escape_spec(c.name@) + "\">"@) + xml_args(c.args@, d + 1) + xline(d, "</call>"@)
}

/// Action calls, one after the other.
pub open spec fn xml_calls(cs: Seq<FunctionCall>, d: nat) -> Seq<char>
    decreases cs.len(),
{
    if cs.len() == 0 {
        Seq::empty()
    } else {
        xml_calls(cs.drop_last(), d) + xml_call(cs.last(), d)
    }
}

/// A statement's actions: an `<actions>` element, when there are any.
pub open spec fn xml_actions(cs: Seq<FunctionCall>, d: nat) -> Seq<char> {
    if cs.len() == 0 {
        Seq::empty()
    } else {
        xline(d, "<actions>"@) + xml_calls(cs, d + 1) + xline(d, "</actions>"@)
    }
}

/// One alternative: `<alternative flags="...">` with its expressions.
pub open spec fn xml_alt(fl: MatchFieldList, d: nat) -> Seq<char> {
    xline(d, "<alternative flags=\""@ + decimal(fl.flags as nat) + "\">"@) + xml_exprs(fl.expressions@, d + 1) + xline(
        d,
        "</alternative>"@,
    )
}

/// Alternatives, one after the other.
pub open spec fn xml_alts(alts: Seq<MatchFieldList>, d: nat) -> Seq<char>
    decreases alts.len(),
{
    if alts.len() == 0 {
        Seq::empty()
    } else {
        xml_alts(alts.drop_last(), d) + xml_alt(alts.last(), d)
    }
}

/// A match list: a `<patterns>` element, when it has alternatives.
pub open spec fn xml_match_list(ml: MatchList, d: nat) -> Seq<char> {
    if ml.alternatives@.len() == 0 {
        Seq::empty()
    } else {
        xline(d, "<patterns>"@) + xml_alts(ml.alternatives@, d + 1) + xline(d, "</patterns>"@)
    }
}

/// A statement as an element: `<match>`, `<when>`, `<skip>` or `<action>`.
pub open spec fn xml_stmt(st: Statement, d: nat) -> Seq<char> {
    match st {
        Statement::Match(m) => xline(
            d,
            if m.case_insensitive {
                "<match case-insensitive=\"true\">"@
            } else {
                "<match case-insensitive=\"false\">"@
            },
        ) + xml_match_list(m.match_list, d + 1) + xml_actions(m.actions@, d + 1) + xline(d, "</match>"@),
        Statement::When(w) => xline(d, "<when>"@) + xml_match_list(w.match_list, d + 1) + xml_actions(w.actions@, d + 1)
            + xline(d, "</when>"@),
        Statement::Skip(k) => xline(d, "<skip>"@) + xline(d + 1, xml_expr_body(k.pattern)) + xline(d, "</skip>"@),
        Statement::Action(fc) => xline(d, "<action name=\""@ + xml_escape_spec(fc.name@) + "\">"@) + xml_args(
            fc.args@,
            d + 1,
        ) + xline(d, "</action>"@),
    }
}

/// Statements, one after the other.
pub open spec fn xml_stmts(ss: Seq<Statement>, d: nat) -> Seq<char>
    decreases ss.len(),
{
    if ss.len() == 0 {
        Seq::empty()
    } else {
        xml_stmts(ss.drop_last(), d) + xml_stmt(ss.last(), d)
    }
}

/// A grammar: `<grammar name=".." inherit="..">` with its statements.
pub open spec fn xml_grammar(name: Seq<char>, g: Grammar, d: nat) -> Seq<char> {
    xml_grammar_open(name, g.inherit, d) + xml_statements_block(g.statements@, d + 1) + xline(d, "</grammar>"@)
}

/// The grammars of a document.
pub open spec fn xml_grammars(gs: Seq<(String, Grammar)>, d: nat) -> Seq<char>
    decreases gs.len(),
{
    if gs.len() == 0 {
        Seq::empty()
    } else {
        xml_grammars(gs.drop_last(), d) + xml_grammar(gs.last().0@, gs.last().1, d)
    }
}

/// The definitions of a document: `<define name="..">` around each
/// expression.
pub open spec fn xml_defines(ds: Seq<(String, Expression)>, d: nat) -> Seq<char>
    decreases ds.len(),
{
    if ds.len() == 0 {
        Seq::empty()
    } else {
        xml_defines(ds.drop_last(), d) + xline(d, "<define name=\""@ + xml_escape_spec(ds.last().0@) + "\">"@) + xline(
            d + 1,
            xml_expr_body(ds.last().1),
        ) + xline(d, "</define>"@)
    }
}

/// A document as XML: the declaration, then `<gel-document>` with
/// `<defines>` and `<grammars>` (each only when not empty), two-space indent.
pub open spec fn xml_document(doc: GelDocument) -> Seq<char> {
    "<?xml version=\"1.0\" encoding=\"UTF-8\"?>"@ + seq!['\n'] + "<gel-document>"@ + seq!['\n'] + (if doc.defines.entries@.len()
        == 0 {
        Seq::empty()
    } else {
        xline(1, "<defines>"@) + xml_defines(doc.defines.entries@, 2) + xline(1, "</defines>"@)
    }) + (if doc.grammars.entries@.len() == 0 {
        Seq::empty()
    } else {
        xline(1, "<grammars>"@) + xml_grammars(doc.grammars.entries@, 2) + xline(1, "</grammars>"@)
    }) + "</gel-document>"@ + seq!['\n']
}

/// Appends [`pad`].
pub(crate) fn push_pad(out: &mut Vec<char>, d: usize)
    ensures
        final(out)@ == old(out)@ + pad(d as nat),
{
    let ghost start = out@;
    let mut k: usize = 0;
    while k < d
        invariant
            k <= d,
            out@ == start + pad(k as nat),
        decreases d - k,
    {
        out.push(' ');
        out.push(' ');
        k = k + 1;
        assert(out@ =~= start + pad(k as nat));
    }
}

/// Appends [`xline`] of a literal.
fn push_line(out: &mut Vec<char>, d: usize, t: &str)
    ensures
        final(out)@ == old(out)@ + xline(d as nat, t@),
{
    push_pad(out, d);
    push_str(out, t);
    out.push('\n');
    assert(out@ =~= old(out)@ + xline(d as nat, t@));
}

fn push_expr_body(out: &mut Vec<char>, e: &Expression)
    ensures
        final(out)@ == old(out)@ + xml_expr_body(*e),
{
    match e {
        Expression::String(s) => {
            push_str(out, "<string>");
            push_xml_escaped(out, s.as_str());
            push_str(out, "</string>");
        },
        Expression::Regex(r) => {
            push_str(out, "<regex>");
            push_xml_escaped(out, r.as_str());
            push_str(out, "</regex>");
        },
        Expression::Variable(v) => {
            push_str(out, "<variable>");
            push_xml_escaped(out, v.as_str());
            push_str(out, "</variable>");
        },
        Expression::Number(n) => {
            push_str(out, "<number>");
            let dg = i64_to_decimal(*n);
            push_all(out, dg.as_slice());
            push_str(out, "</number>");
        },
        Expression::Capture(i) => {
            push_str(out, "<capture>");
            let dg = u64_to_decimal(*i as u64);
            push_all(out, dg.as_slice());
            push_str(out, "</capture>");
        },
        Expression::CaptureName(n) => {
            push_str(out, "<capture-name>");
            push_xml_escaped(out, n.as_str());
            push_str(out, "</capture-name>");
        },
    }
    assert(out@ =~= old(out)@ + xml_expr_body(*e));
}

/// Appends an expression line at depth `d`.
fn push_expr_line(out: &mut Vec<char>, d: usize, e: &Expression)
    ensures
        final(out)@ == old(out)@ + xline(d as nat, xml_expr_body(*e)),
{
    push_pad(out, d);
    push_expr_body(out, e);
    out.push('\n');
    assert(out@ =~= old(out)@ + xline(d as nat, xml_expr_body(*e)));
}

fn push_exprs(out: &mut Vec<char>, es: &[Expression], d: usize)
    ensures
        final(out)@ == old(out)@ + xml_exprs(es@, d as nat),
{
    let ghost start = out@;
    let mut i: usize = 0;
    while i < es.len()
        invariant
            i <= es@.len(),
            out@ == start + xml_exprs(es@.subrange(0, i as int), d as nat),
        decreases es@.len() - i,
    {
        push_expr_line(out, d, &es[i]);
        proof {
            assert(es@.subrange(0, i + 1).drop_last() =~= es@.subrange(0, i as int));
        }
        i = i + 1;
        assert(out@ =~= start + xml_exprs(es@.subrange(0, i as int), d as nat));
    }
    assert(es@.subrange(0, es@.len() as int) =~= es@);
}

fn push_args(out: &mut Vec<char>, args: &[Expression], d: usize)
    requires
        d < usize::MAX,
    ensures
        final(out)@ == old(out)@ + xml_args(args@, d as nat),
{
    if args.len() > 0 {
        push_line(out, d, "<args>");
        push_exprs(out, args, d + 1);
        push_line(out, d, "</args>");
        assert(out@ =~= old(out)@ + xml_args(args@, d as nat));
    }
}

/// Appends a line `<tag name="...">` (name escaped).
fn push_named_open(out: &mut Vec<char>, d: usize, open: &str, name: &str)
    ensures
        final(out)@ == old(out)@ + xline(d as nat, open@ + xml_escape_spec(name@) + "\">"@),
{
    push_pad(out, d);
    push_str(out, open);
    push_xml_escaped(out, name);
    push_str(out, "\">");
    out.push('\n');
    assert(out@ =~= old(out)@ + xline(d as nat, open@ + xml_escape_spec(name@) + "\">"@));
}

fn push_call(out: &mut Vec<char>, c: &FunctionCall, d: usize)
    requires
        d < 400,
    ensures
        final(out)@ == old(out)@ + xml_call(*c, d as nat),
{
    push_named_open(out, d, "<call name=\"", c.name.as_str());
    push_args(out, c.args.as_slice(), d + 1);
    push_line(out, d, "</call>");
    assert(out@ =~= old(out)@ + xml_call(*c, d as nat));
}

fn push_actions(out: &mut Vec<char>, cs: &[FunctionCall], d: usize)
    requires
        d < 300,
    ensures
        final(out)@ == old(out)@ + xml_actions(cs@, d as nat),
{
    if cs.len() == 0 {
        return;
    }
    push_line(out, d, "<actions>");
    let ghost start = out@;
    let mut i: usize = 0;
    while i < cs.len()
        invariant
            i <= cs@.len(),
            d < 300,
            out@ == start + xml_calls(cs@.subrange(0, i as int), (d + 1) as nat),
        decreases cs@.len() - i,
    {
        push_call(out, &cs[i], d + 1);
        proof {
            assert(cs@.subrange(0, i + 1).drop_last() =~= cs@.subrange(0, i as int));
        }
        i = i + 1;
        assert(out@ =~= start + xml_calls(cs@.subrange(0, i as int), (d + 1) as nat));
    }
    assert(cs@.subrange(0, cs@.len() as int) =~= cs@);
    push_line(out, d, "</actions>");
    assert(out@ =~= old(out)@ + xml_actions(cs@, d as nat));
}

fn push_alt(out: &mut Vec<char>, fl: &MatchFieldList, d: usize)
    requires
        d < 400,
    ensures
        final(out)@ == old(out)@ + xml_alt(*fl, d as nat),
{
    push_pad(out, d);
    push_str(out, "<alternative flags=\"");
    let dg = u64_to_decimal(fl.flags as u64);
    push_all(out, dg.as_slice());
    push_str(out, "\">");
    out.push('\n');
    push_exprs(out, fl.expressions.as_slice(), d + 1);
    push_line(out, d, "</alternative>");
    assert(out@ =~= old(out)@ + xml_alt(*fl, d as nat));
}

fn push_match_list(out: &mut Vec<char>, ml: &MatchList, d: usize)
    requires
        d < 300,
    ensures
        final(out)@ == old(out)@ + xml_match_list(*ml, d as nat),
{
    if ml.alternatives.len() == 0 {
        return;
    }
    push_line(out, d, "<patterns>");
    let ghost start = out@;
    let mut i: usize = 0;
    while i < ml.alternatives.len()
        invariant
            i <= ml.alternatives@.len(),
            d < 300,
            out@ == start + xml_alts(ml.alternatives@.subrange(0, i as int), (d + 1) as nat),
        decreases ml.alternatives@.len() - i,
    {
        push_alt(out, &ml.alternatives[i], d + 1);
        proof {
            assert(ml.alternatives@.subrange(0, i + 1).drop_last() =~= ml.alternatives@.subrange(0, i as int));
        }
        i = i + 1;
        assert(out@ =~= start + xml_alts(ml.alternatives@.subrange(0, i as int), (d + 1) as nat));
    }
    assert(ml.alternatives@.subrange(0, ml.alternatives@.len() as int) =~= ml.alternatives@);
    push_line(out, d, "</patterns>");
    assert(out@ =~= old(out)@ + xml_match_list(*ml, d as nat));
}

fn push_match_stmt(out: &mut Vec<char>, m: &crate::parser::ast::MatchStatement, d: usize)
    requires
        d < 200,
    ensures
        final(out)@ == old(out)@ + xml_stmt(Statement::Match(*m), d as nat),
{
    if m.case_insensitive {
        push_line(out, d, "<match case-insensitive=\"true\">");
    } else {
        push_line(out, d, "<match case-insensitive=\"false\">");
    }
    push_match_list(out, &m.match_list, d + 1);
    push_actions(out, m.actions.as_slice(), d + 1);
    push_line(out, d, "</match>");
    assert(out@ =~= old(out)@ + xml_stmt(Statement::Match(*m), d as nat));
}

fn push_when_stmt(out: &mut Vec<char>, w: &crate::parser::ast::WhenStatement, d: usize)
    requires
        d < 200,
    ensures
        final(out)@ == old(out)@ + xml_stmt(Statement::When(*w), d as nat),
{
    push_line(out, d, "<when>");
    push_match_list(out, &w.match_list, d + 1);
    push_actions(out, w.actions.as_slice(), d + 1);
    push_line(out, d, "</when>");
    assert(out@ =~= old(out)@ + xml_stmt(Statement::When(*w), d as nat));
}

fn push_stmt(out: &mut Vec<char>, st: &Statement, d: usize)
    requires
        d < 200,
    ensures
        final(out)@ == old(out)@ + xml_stmt(*st, d as nat),
{
    match st {
        Statement::Match(m) => push_match_stmt(out, m, d),
        Statement::When(w) => push_when_stmt(out, w, d),
        Statement::Skip(k) => {
            push_line(out, d, "<skip>");
            push_expr_line(out, d + 1, &k.pattern);
            push_line(out, d, "</skip>");
            assert(out@ =~= old(out)@ + xml_stmt(*st, d as nat));
        },
        Statement::Action(fc) => {
            push_named_open(out, d, "<action name=\"", fc.name.as_str());
            push_args(out, fc.args.as_slice(), d + 1);
            push_line(out, d, "</action>");
            assert(out@ =~= old(out)@ + xml_stmt(*st, d as nat));
        },
    }
}

/// The statements block of a grammar at depth `d`.
pub open spec fn xml_statements_block(ss: Seq<Statement>, d: nat) -> Seq<char> {
    if ss.len() == 0 {
        Seq::empty()
    } else {
        xline(d, "<statements>"@) + xml_stmts(ss, d + 1) + xline(d, "</statements>"@)
    }
}

fn push_statements_block(out: &mut Vec<char>, ss: &Vec<Statement>, d: usize)
    requires
        d < 150,
    ensures
        final(out)@ == old(out)@ + xml_statements_block(ss@, d as nat),
{
    if ss.len() == 0 {
        return;
    }
    push_line(out, d, "<statements>");
    let ghost start = out@;
    let mut i: usize = 0;
    while i < ss.len()
        invariant
            i <= ss@.len(),
            d < 150,
            out@ == start + xml_stmts(ss@.subrange(0, i as int), (d + 1) as nat),
        decreases ss@.len() - i,
    {
        push_stmt(out, &ss[i], d + 1);
        proof {
            assert(ss@.subrange(0, i + 1).drop_last() =~= ss@.subrange(0, i as int));
        }
        i = i + 1;
        assert(out@ =~= start + xml_stmts(ss@.subrange(0, i as int), (d + 1) as nat));
    }
    assert(ss@.subrange(0, ss@.len() as int) =~= ss@);
    push_line(out, d, "</statements>");
    assert(out@ =~= old(out)@ + xml_statements_block(ss@, d as nat));
}

/// The opening line of a grammar element.
pub open spec fn xml_grammar_open(name: Seq<char>, inherit: Option<String>, d: nat) -> Seq<char> {
    xline(
        d,
        "<grammar name=\""@ + xml_escape_spec(name) + (match inherit {
            Some(p) => "\" inherit=\""@ + xml_escape_spec(p@),
            None => Seq::empty(),
        }) + "\">"@,
    )
}

fn push_grammar_open(out: &mut Vec<char>, name: &str, inherit: &Option<String>, d: usize)
    ensures
        final(out)@ == old(out)@ + xml_grammar_open(name@, *inherit, d as nat),
{
    push_pad(out, d);
    push_str(out, "<grammar name=\"");
    push_xml_escaped(out, name);
    match inherit {
        Some(p) => {
            push_str(out, "\" inherit=\"");
            push_xml_escaped(out, p.as_str());
        },
        None => {},
    }
    push_str(out, "\">");
    out.push('\n');
    assert(out@ =~= old(out)@ + xml_grammar_open(name@, *inherit, d as nat));
}

fn push_grammar(out: &mut Vec<char>, name: &str, g: &Grammar, d: usize)
    requires
        d < 100,
    ensures
        final(out)@ == old(out)@ + xml_grammar(name@, *g, d as nat),
{
    push_grammar_open(out, name, &g.inherit, d);
    push_statements_block(out, &g.statements, d + 1);
    push_line(out, d, "</grammar>");
    assert(out@ =~= old(out)@ + xml_grammar(name@, *g, d as nat));
}

/// XML generator for Gel documents.
#[derive(Debug, Default)]
pub struct XmlGenerator {
    indent_level: usize,
}

impl XmlGenerator {
    /// The current indentation level.
    pub closed spec fn depth(&self) -> nat {
        self.indent_level as nat
    }

    pub fn new() -> (r: XmlGenerator)
        ensures
            r.depth() == 0,
    {
        XmlGenerator { indent_level: 0 }
    }

    /// The document as an XML tree (see [`xml_document`]).
    pub fn generate_from_ast(document: &GelDocument) -> (r: String)
        ensures
            r@ == xml_document(*document),
    {
        let mut out: Vec<char> = Vec::new();
        push_str(&mut out, "<?xml version=\"1.0\" encoding=\"UTF-8\"?>");
        out.push('\n');
        push_str(&mut out, "<gel-document>");
        out.push('\n');
        let ghost head = out@;
        if document.defines.entries.len() > 0 {
            push_line(&mut out, 1, "<defines>");
            let ghost start = out@;
            let ds = &document.defines.entries;
            let mut i: usize = 0;
            while i < ds.len()
                invariant
                    i <= ds@.len(),
                    out@ == start + xml_defines(ds@.subrange(0, i as int), 2),
                decreases ds@.len() - i,
            {
                push_named_open(&mut out, 2, "<define name=\"", ds[i].0.as_str());
                push_expr_line(&mut out, 3, &ds[i].1);
                push_line(&mut out, 2, "</define>");
                proof {
                    assert(ds@.subrange(0, i + 1).drop_last() =~= ds@.subrange(0, i as int));
                }
                i = i + 1;
                assert(out@ =~= start + xml_defines(ds@.subrange(0, i as int), 2));
            }
            assert(ds@.subrange(0, ds@.len() as int) =~= ds@);
            push_line(&mut out, 1, "</defines>");
        }
        let ghost mid = out@;
        if document.grammars.entries.len() > 0 {
            push_line(&mut out, 1, "<grammars>");
            let ghost start = out@;
            let gs = &document.grammars.entries;
            let mut i: usize = 0;
            while i < gs.len()
                invariant
                    i <= gs@.len(),
                    out@ == start + xml_grammars(gs@.subrange(0, i as int), 2),
                decreases gs@.len() - i,
            {
                push_grammar(&mut out, gs[i].0.as_str(), &gs[i].1, 2);
                proof {
                    assert(gs@.subrange(0, i + 1).drop_last() =~= gs@.subrange(0, i as int));
                }
                i = i + 1;
                assert(out@ =~= start + xml_grammars(gs@.subrange(0, i as int), 2));
            }
            assert(gs@.subrange(0, gs@.len() as int) =~= gs@);
            push_line(&mut out, 1, "</grammars>");
        }
        push_str(&mut out, "</gel-document>");
        out.push('\n');
        assert(out@ =~= xml_document(*document));
        chars_to_string(out.as_slice())
    }
}

} // verus!
