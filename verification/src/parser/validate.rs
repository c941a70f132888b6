//! Semantic validation, run after parsing and before execution: undefined
//! grammar references and variables (warnings), invalid regexes and undefined
//! parent grammars (errors).

use vstd::prelude::*;
use crate::errors::{Diagnostic, Severity};
use crate::parser::ast::{Expression, ExprV, FunctionCall, GelDocument, Grammar, MatchFieldList, NameMap, Statement};
use crate::parser::compile::anchored_variant;
use crate::pattern::{compile_regex, regex_compiles, regex_error_text};
use crate::text::str_to_chars;

verus! {

/// Whether a text starts with a prefix.
pub open spec fn has_prefix(s: Seq<char>, p: Seq<char>) -> bool {
    p.len() <= s.len() && s.subrange(0, p.len() as int) == p
}

fn starts_with(s: &str, p: &str) -> (r: bool)
    ensures
        r == has_prefix(s@, p@),
{
    let a = str_to_chars(s);
    let b = str_to_chars(p);
    if b.len() > a.len() {
        return false;
    }
    let mut i: usize = 0;
    while i < b.len()
        invariant
            b@.len() <= a@.len(),
            a@ == s@,
            b@ == p@,
            i <= b@.len(),
            forall|k: int| 0 <= k < i ==> a@[k] == b@[k],
        decreases b@.len() - i,
    {
        if a[i] != b[i] {
            proof {
                assert(a@.subrange(0, b@.len() as int)[i as int] != b@[i as int]);
            }
            return false;
        }
        i = i + 1;
    }
    proof {
        assert(a@.subrange(0, b@.len() as int) =~= b@);
    }
    true
}

/// `a + b + c + d + e` as one string.
fn concat5(a: &str, b: &str, c: &str, d: &str, e: &str) -> (r: String)
    ensures
        r@ == a@ + b@ + c@ + d@ + e@,
{
    let mut s = a.to_string();
    s.append(b);
    s.append(c);
    s.append(d);
    s.append(e);
    s
}

/// The texts of a list of strings.
pub open spec fn texts(v: Seq<String>) -> Seq<Seq<char>> {
    v.map_values(|x: String| x@)
}

/// A diagnostic by its severity and message.
pub open spec fn diag_view(d: Diagnostic) -> (Severity, Seq<char>) {
    (d.severity, d.message@)
}

/// A list of diagnostics by severity and message.
pub open spec fn diags_view(ds: Seq<Diagnostic>) -> Seq<(Severity, Seq<char>)> {
    ds.map_values(|d: Diagnostic| diag_view(d))
}

/// The calls of a statement: the actions of a `match` / `when`, or the bare
/// action itself.
pub open spec fn stmt_calls(s: Statement) -> Seq<FunctionCall> {
    match s {
        Statement::Match(m) => m.actions@,
        Statement::When(w) => w.actions@,
        Statement::Skip(_) => seq![],
        Statement::Action(a) => seq![a],
    }
}

/// The expressions of alternatives, one list after the other.
pub open spec fn alts_exprs(alts: Seq<MatchFieldList>) -> Seq<Expression>
    decreases alts.len(),
{
    if alts.len() == 0 {
        seq![]
    } else {
        alts_exprs(alts.drop_last()) + alts.last().expressions@
    }
}

/// The arguments of calls, one list after the other.
pub open spec fn calls_args(cs: Seq<FunctionCall>) -> Seq<Expression>
    decreases cs.len(),
{
    if cs.len() == 0 {
        seq![]
    } else {
        calls_args(cs.drop_last()) + cs.last().args@
    }
}

/// The expressions of a statement in the order they are checked: match list,
/// then action arguments; a skip pattern; a bare action's arguments.
pub open spec fn stmt_exprs(s: Statement) -> Seq<Expression> {
    match s {
        Statement::Match(m) => alts_exprs(m.match_list.alternatives@) + calls_args(m.actions@),
        Statement::When(w) => alts_exprs(w.match_list.alternatives@) + calls_args(w.actions@),
        Statement::Skip(k) => seq![k.pattern],
        Statement::Action(a) => a.args@,
    }
}

/// The warning for a call without arguments that names no grammar and no
/// `do.` / `out.` action.
pub open spec fn call_diag(doc: GelDocument, gname: Seq<char>, fc: FunctionCall) -> Seq<(Severity, Seq<char>)> {
    if fc.args@.len() == 0 && !has_prefix(fc.name@, "do."@) && !has_prefix(fc.name@, "out."@)
        && doc.grammars.spec_get(fc.name@) is None {
        seq![(Severity::Warning, "undefined grammar reference '"@ + fc.name@ + "' in grammar '"@ + gname + "'"@)]
    } else {
        seq![]
    }
}

/// The warning for a variable no `define` names.
pub open spec fn var_diag(doc: GelDocument, gname: Seq<char>, e: Expression) -> Seq<(Severity, Seq<char>)> {
    match e {
        Expression::Variable(v) => if doc.defines.spec_get(v@) is None {
            seq![(Severity::Warning, "undefined variable '"@ + v@ + "' in grammar '"@ + gname + "'"@)]
        } else {
            seq![]
        },
        _ => seq![],
    }
}

/// The call warnings of calls, in order.
pub open spec fn calls_diags(doc: GelDocument, gname: Seq<char>, cs: Seq<FunctionCall>) -> Seq<(Severity, Seq<char>)>
    decreases cs.len(),
{
    if cs.len() == 0 {
        seq![]
    } else {
        calls_diags(doc, gname, cs.drop_last()) + call_diag(doc, gname, cs.last())
    }
}

/// The variable warnings of expressions, in order.
pub open spec fn vars_diags(doc: GelDocument, gname: Seq<char>, es: Seq<Expression>) -> Seq<(Severity, Seq<char>)>
    decreases es.len(),
{
    if es.len() == 0 {
        seq![]
    } else {
        vars_diags(doc, gname, es.drop_last()) + var_diag(doc, gname, es.last())
    }
}

/// The call warnings of statements, in order.
pub open spec fn stmts_call_diags(doc: GelDocument, gname: Seq<char>, ss: Seq<Statement>) -> Seq<(Severity, Seq<char>)>
    decreases ss.len(),
{
    if ss.len() == 0 {
        seq![]
    } else {
        stmts_call_diags(doc, gname, ss.drop_last()) + calls_diags(doc, gname, stmt_calls(ss.last()))
    }
}

/// The variable warnings of statements, in order.
pub open spec fn stmts_var_diags(doc: GelDocument, gname: Seq<char>, ss: Seq<Statement>) -> Seq<(Severity, Seq<char>)>
    decreases ss.len(),
{
    if ss.len() == 0 {
        seq![]
    } else {
        stmts_var_diags(doc, gname, ss.drop_last()) + vars_diags(doc, gname, stmt_exprs(ss.last()))
    }
}

/// The call warnings of grammars, grammar by grammar.
pub open spec fn call_warnings(doc: GelDocument, gs: Seq<(String, Grammar)>) -> Seq<(Severity, Seq<char>)>
    decreases gs.len(),
{
    if gs.len() == 0 {
        seq![]
    } else {
        call_warnings(doc, gs.drop_last()) + stmts_call_diags(doc, gs.last().1.name@, gs.last().1.statements@)
    }
}

/// The variable warnings of grammars, grammar by grammar.
pub open spec fn var_warnings(doc: GelDocument, gs: Seq<(String, Grammar)>) -> Seq<(Severity, Seq<char>)>
    decreases gs.len(),
{
    if gs.len() == 0 {
        seq![]
    } else {
        var_warnings(doc, gs.drop_last()) + stmts_var_diags(doc, gs.last().1.name@, gs.last().1.statements@)
    }
}

/// The expressions of statements, in order.
pub open spec fn stmts_exprs(ss: Seq<Statement>) -> Seq<Expression>
    decreases ss.len(),
{
    if ss.len() == 0 {
        seq![]
    } else {
        stmts_exprs(ss.drop_last()) + stmt_exprs(ss.last())
    }
}

/// The expressions of grammars, grammar by grammar.
pub open spec fn grammars_exprs(gs: Seq<(String, Grammar)>) -> Seq<Expression>
    decreases gs.len(),
{
    if gs.len() == 0 {
        seq![]
    } else {
        grammars_exprs(gs.drop_last()) + stmts_exprs(gs.last().1.statements@)
    }
}

/// The expressions whose regexes are checked: the definitions', then the
/// grammars'.
pub open spec fn checked_exprs(doc: GelDocument) -> Seq<Expression> {
    doc.defines.entries@.map_values(|p: (String, Expression)| p.1) + grammars_exprs(doc.grammars.entries@)
}

/// Checking one expression's regex against the patterns checked so far: the
/// error it adds (when its anchored form `^(?:p)` does not compile) and the
/// patterns checked after it.  A pattern is checked once.
pub open spec fn regex_step(checked: Seq<Seq<char>>, e: Expression) -> (Seq<(Severity, Seq<char>)>, Seq<Seq<char>>) {
    match e {
        Expression::Regex(raw) => if checked.contains(raw@) {
            (seq![], checked)
        } else {
            let p = anchored_variant(raw@, false);
            (
                if regex_compiles(p) {
                    seq![]
                } else {
                    seq![(Severity::Error, "invalid regex '"@ + raw@ + "': "@ + regex_error_text(p))]
                },
                checked.push(raw@),
            )
        },
        _ => (seq![], checked),
    }
}

/// The regex errors of expressions, each pattern checked once (at its first
/// occurrence), with the patterns checked so far.
pub open spec fn regex_check(es: Seq<Expression>) -> (Seq<(Severity, Seq<char>)>, Seq<Seq<char>>)
    decreases es.len(),
{
    if es.len() == 0 {
        (seq![], seq![])
    } else {
        let prev = regex_check(es.drop_last());
        let step = regex_step(prev.1, es.last());
        (prev.0 + step.0, step.1)
    }
}

/// The errors for grammars whose parent the document does not hold.
pub open spec fn inherit_errors(doc: GelDocument, gs: Seq<(String, Grammar)>) -> Seq<(Severity, Seq<char>)>
    decreases gs.len(),
{
    if gs.len() == 0 {
        seq![]
    } else {
        inherit_errors(doc, gs.drop_last()) + match gs.last().1.inherit {
            Some(p) => if doc.grammars.spec_get(p@) is None {
                seq![
                    (
                        Severity::Error,
                        "grammar '"@ + gs.last().1.name@ + "' inherits from undefined grammar '"@ + p@ + "'"@,
                    ),
                ]
            } else {
                seq![]
            },
            None => seq![],
        }
    }
}

/// Every diagnostic of a document, in order: call warnings, variable
/// warnings, regex errors, inheritance errors.
pub open spec fn validation(doc: GelDocument) -> Seq<(Severity, Seq<char>)> {
    call_warnings(doc, doc.grammars.entries@) + var_warnings(doc, doc.grammars.entries@) + regex_check(
        checked_exprs(doc),
    ).0 + inherit_errors(doc, doc.grammars.entries@)
}

/// Warns about a bare call without arguments that names no grammar and no
/// `do.`/`out.` action.
fn check_call(doc: &GelDocument, gname: &str, fc: &FunctionCall, diags: &mut Vec<Diagnostic>)
    ensures
        forall|k: int| 0 <= k < old(diags)@.len() ==> #[trigger] final(diags)@[k] == old(diags)@[k],
        forall|k: int| old(diags)@.len() <= k < final(diags)@.len() ==> (#[trigger] final(diags)@[k]).severity == Severity::Warning && final(diags)@[k].span is None,
        old(diags)@.len() <= final(diags)@.len(),
        diags_view(final(diags)@) == diags_view(old(diags)@) + call_diag(*doc, gname@, *fc),
{
    if fc.args.len() == 0 && !starts_with(fc.name.as_str(), "do.") && !starts_with(fc.name.as_str(), "out.")
        && !doc.grammars.contains_key(fc.name.as_str()) {
        let msg = concat5("undefined grammar reference '", fc.name.as_str(), "' in grammar '", gname, "'");
        diags.push(Diagnostic::warning(msg.as_str(), None));
        proof {
            assert(diags_view(diags@) =~= diags_view(old(diags)@) + call_diag(*doc, gname@, *fc));
        }
    } else {
        proof {
            assert(diags_view(diags@) =~= diags_view(old(diags)@) + call_diag(*doc, gname@, *fc));
        }
    }
}

/// Warns about a variable that no `define` names.
fn check_variable(doc: &GelDocument, gname: &str, e: &Expression, diags: &mut Vec<Diagnostic>)
    ensures
        forall|k: int| 0 <= k < old(diags)@.len() ==> #[trigger] final(diags)@[k] == old(diags)@[k],
        forall|k: int| old(diags)@.len() <= k < final(diags)@.len() ==> (#[trigger] final(diags)@[k]).severity == Severity::Warning && final(diags)@[k].span is None,
        old(diags)@.len() <= final(diags)@.len(),
        diags_view(final(diags)@) == diags_view(old(diags)@) + var_diag(*doc, gname@, *e),
{
    match e {
        Expression::Variable(v) => {
            if !doc.defines.contains_key(v.as_str()) {
                let msg = concat5("undefined variable '", v.as_str(), "' in grammar '", gname, "'");
                diags.push(Diagnostic::warning(msg.as_str(), None));
            }
        },
        _ => {},
    }
    proof {
        assert(diags_view(diags@) =~= diags_view(old(diags)@) + var_diag(*doc, gname@, *e));
    }
}

/// Reports, once per pattern, a regex literal whose anchored form `^(?:p)` does
/// not compile.
fn check_regex(e: &Expression, checked: &mut Vec<String>, diags: &mut Vec<Diagnostic>)
    ensures
        forall|k: int| 0 <= k < old(diags)@.len() ==> #[trigger] final(diags)@[k] == old(diags)@[k],
        forall|k: int| old(diags)@.len() <= k < final(diags)@.len() ==> (#[trigger] final(diags)@[k]).severity == Severity::Error && final(diags)@[k].span is None,
        old(diags)@.len() <= final(diags)@.len(),
        diags_view(final(diags)@) == diags_view(old(diags)@) + regex_step(texts(old(checked)@), *e).0,
        texts(final(checked)@) == regex_step(texts(old(checked)@), *e).1,
{
    match e {
        Expression::Regex(raw) => {
            let mut j: usize = 0;
            while j < checked.len()
                invariant
                    j <= checked@.len(),
                    forall|t: int| 0 <= t < j ==> (#[trigger] checked@[t])@ != raw@,
                    checked@ == old(checked)@,
                    diags@ == old(diags)@,
                    *e == Expression::Regex(*raw),
                decreases checked@.len() - j,
            {
                if crate::text::str_eq(checked[j].as_str(), raw.as_str()) {
                    proof {
                        assert(texts(checked@)[j as int] == raw@);
                        assert(texts(checked@).contains(raw@));
                        assert(diags_view(diags@) =~= diags_view(old(diags)@) + Seq::<(Severity, Seq<char>)>::empty());
                    }
                    return;
                }
                j = j + 1;
            }
            proof {
                assert(!texts(checked@).contains(raw@)) by {
                    if texts(checked@).contains(raw@) {
                        let t = choose|t: int| 0 <= t < texts(checked@).len() && texts(checked@)[t] == raw@;
                        assert(checked@[t]@ != raw@);
                    }
                }
            }
            let ghost c0 = checked@;
            checked.push(raw.clone());
            proof {
                assert(texts(checked@) =~= texts(c0).push(raw@));
            }
            let mut anchored = "^(?:".to_string();
            anchored.append(raw.as_str());
            anchored.append(")");
            proof {
                assert(anchored@ == anchored_variant(raw@, false));
            }
            match compile_regex(anchored.as_str()) {
                Ok(_) => {
                    proof {
                        assert(diags_view(diags@) =~= diags_view(old(diags)@) + Seq::<(Severity, Seq<char>)>::empty());
                    }
                },
                Err(err) => {
                    let msg = concat5("invalid regex '", raw.as_str(), "': ", err.as_str(), "");
                    diags.push(Diagnostic::error(msg.as_str(), None));
                    proof {
                        assert(diags@[diags@.len() - 1].severity == Severity::Error);
                        reveal_strlit("");
                        assert(msg@ =~= "invalid regex '"@ + raw@ + "': "@ + regex_error_text(anchored_variant(raw@, false)));
                        assert(diags_view(diags@) =~= diags_view(old(diags)@) + regex_step(texts(old(checked)@), *e).0);
                    }
                },
            }
        },
        _ => {
            proof {
                assert(diags_view(diags@) =~= diags_view(old(diags)@) + Seq::<(Severity, Seq<char>)>::empty());
            }
        },
    }
}

/// The expressions of a statement, in the order they are checked (see
/// [`stmt_exprs`]).
fn expressions_of(stmt: &Statement) -> (r: Vec<&Expression>)
    ensures
        r@.map_values(|x: &Expression| *x) == stmt_exprs(*stmt),
{
    let mut out: Vec<&Expression> = Vec::new();
    match stmt {
        Statement::Match(m) => {
            push_list(m.match_list.alternatives.as_slice(), &mut out);
            push_calls(m.actions.as_slice(), &mut out);
        },
        Statement::When(w) => {
            push_list(w.match_list.alternatives.as_slice(), &mut out);
            push_calls(w.actions.as_slice(), &mut out);
        },
        Statement::Skip(s) => out.push(&s.pattern),
        Statement::Action(a) => push_exprs(a.args.as_slice(), &mut out),
    }
    proof {
        assert(out@.map_values(|x: &Expression| *x) =~= stmt_exprs(*stmt));
    }
    out
}

fn push_exprs<'a>(es: &'a [Expression], out: &mut Vec<&'a Expression>)
    ensures
        final(out)@.map_values(|x: &Expression| *x) == old(out)@.map_values(|x: &Expression| *x) + es@,
{
    let mut i: usize = 0;
    while i < es.len()
        invariant
            i <= es@.len(),
            out@.map_values(|x: &Expression| *x) =~= old(out)@.map_values(|x: &Expression| *x) + es@.subrange(0, i as int),
        decreases es@.len() - i,
    {
        let ghost prev = out@;
        out.push(&es[i]);
        proof {
            assert(out@.map_values(|x: &Expression| *x) =~= prev.map_values(|x: &Expression| *x).push(es@[i as int]));
            assert(es@.subrange(0, i + 1) =~= es@.subrange(0, i as int).push(es@[i as int]));
        }
        i = i + 1;
    }
    proof {
        assert(es@.subrange(0, i as int) =~= es@);
    }
}

fn push_calls<'a>(acts: &'a [FunctionCall], out: &mut Vec<&'a Expression>)
    ensures
        final(out)@.map_values(|x: &Expression| *x) == old(out)@.map_values(|x: &Expression| *x) + calls_args(acts@),
{
    let mut i: usize = 0;
    while i < acts.len()
        invariant
            i <= acts@.len(),
            out@.map_values(|x: &Expression| *x) =~= old(out)@.map_values(|x: &Expression| *x) + calls_args(acts@.subrange(0, i as int)),
        decreases acts@.len() - i,
    {
        push_exprs(acts[i].args.as_slice(), out);
        proof {
            assert(acts@.subrange(0, i + 1).drop_last() =~= acts@.subrange(0, i as int));
        }
        i = i + 1;
    }
    proof {
        assert(acts@.subrange(0, i as int) =~= acts@);
    }
}

fn push_list<'a>(alts: &'a [MatchFieldList], out: &mut Vec<&'a Expression>)
    ensures
        final(out)@.map_values(|x: &Expression| *x) == old(out)@.map_values(|x: &Expression| *x) + alts_exprs(alts@),
{
    let mut i: usize = 0;
    while i < alts.len()
        invariant
            i <= alts@.len(),
            out@.map_values(|x: &Expression| *x) =~= old(out)@.map_values(|x: &Expression| *x) + alts_exprs(alts@.subrange(0, i as int)),
        decreases alts@.len() - i,
    {
        push_exprs(alts[i].expressions.as_slice(), out);
        proof {
            assert(alts@.subrange(0, i + 1).drop_last() =~= alts@.subrange(0, i as int));
        }
        i = i + 1;
    }
    proof {
        assert(alts@.subrange(0, i as int) =~= alts@);
    }
}

/// The calls of a statement (see [`stmt_calls`]).
fn calls_of(stmt: &Statement) -> (r: Vec<&FunctionCall>)
    ensures
        r@.map_values(|x: &FunctionCall| *x) == stmt_calls(*stmt),
{
    let mut out: Vec<&FunctionCall> = Vec::new();
    match stmt {
        Statement::Match(m) => {
            let mut i: usize = 0;
            while i < m.actions.len()
                invariant
                    i <= m.actions@.len(),
                    out@.map_values(|x: &FunctionCall| *x) =~= m.actions@.subrange(0, i as int),
                decreases m.actions@.len() - i,
            {
                let ghost prev = out@;
                out.push(&m.actions[i]);
                proof {
                    assert(out@.map_values(|x: &FunctionCall| *x) =~= prev.map_values(|x: &FunctionCall| *x).push(m.actions@[i as int]));
                    assert(m.actions@.subrange(0, i + 1) =~= m.actions@.subrange(0, i as int).push(m.actions@[i as int]));
                }
                i = i + 1;
            }
            proof {
                assert(m.actions@.subrange(0, i as int) =~= m.actions@);
            }
        },
        Statement::When(w) => {
            let mut i: usize = 0;
            while i < w.actions.len()
                invariant
                    i <= w.actions@.len(),
                    out@.map_values(|x: &FunctionCall| *x) =~= w.actions@.subrange(0, i as int),
                decreases w.actions@.len() - i,
            {
                let ghost prev = out@;
                out.push(&w.actions[i]);
                proof {
                    assert(out@.map_values(|x: &FunctionCall| *x) =~= prev.map_values(|x: &FunctionCall| *x).push(w.actions@[i as int]));
                    assert(w.actions@.subrange(0, i + 1) =~= w.actions@.subrange(0, i as int).push(w.actions@[i as int]));
                }
                i = i + 1;
            }
            proof {
                assert(w.actions@.subrange(0, i as int) =~= w.actions@);
            }
        },
        Statement::Skip(_) => {},
        Statement::Action(a) => out.push(a),
    }
    proof {
        assert(out@.map_values(|x: &FunctionCall| *x) =~= stmt_calls(*stmt));
    }
    out
}

/// Runs all semantic checks (see [`validation`]).  Errors (invalid regexes,
/// undefined parents) make execution fail; warnings are advisory.  No
/// diagnostic carries a span.
pub fn validate(doc: &GelDocument) -> (diags: Vec<Diagnostic>)
    ensures
        diags_view(diags@) == validation(*doc),
        forall|k: int| 0 <= k < diags@.len() ==> (#[trigger] diags@[k]).span is None,
        forall|g: int| 0 <= g < doc.grammars.entries@.len() ==> (#[trigger] doc.grammars.entries@[g]).1.inherit matches Some(p)
            && doc.grammars.spec_get(p@) is None ==> exists|k: int| 0 <= k < diags@.len() && (#[trigger] diags@[k]).severity == Severity::Error,
{
    let mut diags: Vec<Diagnostic> = Vec::new();
    let grammars = &doc.grammars.entries;
    let ghost gs = grammars@;
    // undefined grammar references
    let mut gi: usize = 0;
    proof {
        assert(diags_view(diags@) =~= call_warnings(*doc, gs.subrange(0, 0)));
    }
    while gi < grammars.len()
        invariant
            gi <= grammars@.len(),
            gs == grammars@,
            grammars == &doc.grammars.entries,
            forall|k: int| 0 <= k < diags@.len() ==> (#[trigger] diags@[k]).span is None,
            diags_view(diags@) == call_warnings(*doc, gs.subrange(0, gi as int)),
        decreases grammars@.len() - gi,
    {
        let g = &grammars[gi].1;
        let ghost base = diags_view(diags@);
        let mut si: usize = 0;
        proof {
            assert(diags_view(diags@) =~= base + stmts_call_diags(*doc, g.name@, g.statements@.subrange(0, 0)));
        }
        while si < g.statements.len()
            invariant
                si <= g.statements@.len(),
                forall|k: int| 0 <= k < diags@.len() ==> (#[trigger] diags@[k]).span is None,
                diags_view(diags@) == base + stmts_call_diags(*doc, g.name@, g.statements@.subrange(0, si as int)),
            decreases g.statements@.len() - si,
        {
            let calls = calls_of(&g.statements[si]);
            let ghost cv = calls@.map_values(|x: &FunctionCall| *x);
            let ghost b2 = diags_view(diags@);
            let mut ci: usize = 0;
            proof {
                assert(diags_view(diags@) =~= b2 + calls_diags(*doc, g.name@, cv.subrange(0, 0)));
            }
            while ci < calls.len()
                invariant
                    ci <= calls@.len(),
                    cv == calls@.map_values(|x: &FunctionCall| *x),
                    forall|k: int| 0 <= k < diags@.len() ==> (#[trigger] diags@[k]).span is None,
                    diags_view(diags@) == b2 + calls_diags(*doc, g.name@, cv.subrange(0, ci as int)),
                decreases calls@.len() - ci,
            {
                check_call(doc, g.name.as_str(), calls[ci], &mut diags);
                proof {
                    assert(cv.subrange(0, ci + 1).drop_last() =~= cv.subrange(0, ci as int));
                    assert(diags_view(diags@) =~= b2 + calls_diags(*doc, g.name@, cv.subrange(0, ci + 1)));
                }
                ci = ci + 1;
            }
            proof {
                assert(cv.subrange(0, ci as int) =~= cv);
                assert(g.statements@.subrange(0, si + 1).drop_last() =~= g.statements@.subrange(0, si as int));
                assert(diags_view(diags@) =~= base + stmts_call_diags(*doc, g.name@, g.statements@.subrange(0, si + 1)));
            }
            si = si + 1;
        }
        proof {
            assert(g.statements@.subrange(0, si as int) =~= g.statements@);
            assert(gs.subrange(0, gi + 1).drop_last() =~= gs.subrange(0, gi as int));
            assert(diags_view(diags@) =~= call_warnings(*doc, gs.subrange(0, gi + 1)));
        }
        gi = gi + 1;
    }
    proof {
        assert(gs.subrange(0, gi as int) =~= gs);
    }
    let ghost p1 = diags_view(diags@);
    // undefined variables
    let mut gi: usize = 0;
    proof {
        assert(diags_view(diags@) =~= p1 + var_warnings(*doc, gs.subrange(0, 0)));
    }
    while gi < grammars.len()
        invariant
            gi <= grammars@.len(),
            gs == grammars@,
            grammars == &doc.grammars.entries,
            forall|k: int| 0 <= k < diags@.len() ==> (#[trigger] diags@[k]).span is None,
            diags_view(diags@) == p1 + var_warnings(*doc, gs.subrange(0, gi as int)),
        decreases grammars@.len() - gi,
    {
        let g = &grammars[gi].1;
        let ghost base = diags_view(diags@);
        let mut si: usize = 0;
        proof {
            assert(diags_view(diags@) =~= base + stmts_var_diags(*doc, g.name@, g.statements@.subrange(0, 0)));
        }
        while si < g.statements.len()
            invariant
                si <= g.statements@.len(),
                forall|k: int| 0 <= k < diags@.len() ==> (#[trigger] diags@[k]).span is None,
                diags_view(diags@) == base + stmts_var_diags(*doc, g.name@, g.statements@.subrange(0, si as int)),
            decreases g.statements@.len() - si,
        {
            let es = expressions_of(&g.statements[si]);
            let ghost ev = es@.map_values(|x: &Expression| *x);
            let ghost b2 = diags_view(diags@);
            let mut ei: usize = 0;
            proof {
                assert(diags_view(diags@) =~= b2 + vars_diags(*doc, g.name@, ev.subrange(0, 0)));
            }
            while ei < es.len()
                invariant
                    ei <= es@.len(),
                    ev == es@.map_values(|x: &Expression| *x),
                    forall|k: int| 0 <= k < diags@.len() ==> (#[trigger] diags@[k]).span is None,
                    diags_view(diags@) == b2 + vars_diags(*doc, g.name@, ev.subrange(0, ei as int)),
                decreases es@.len() - ei,
            {
                check_variable(doc, g.name.as_str(), es[ei], &mut diags);
                proof {
                    assert(ev.subrange(0, ei + 1).drop_last() =~= ev.subrange(0, ei as int));
                    assert(diags_view(diags@) =~= b2 + vars_diags(*doc, g.name@, ev.subrange(0, ei + 1)));
                }
                ei = ei + 1;
            }
            proof {
                assert(ev.subrange(0, ei as int) =~= ev);
                assert(g.statements@.subrange(0, si + 1).drop_last() =~= g.statements@.subrange(0, si as int));
                assert(diags_view(diags@) =~= base + stmts_var_diags(*doc, g.name@, g.statements@.subrange(0, si + 1)));
            }
            si = si + 1;
        }
        proof {
            assert(g.statements@.subrange(0, si as int) =~= g.statements@);
            assert(gs.subrange(0, gi + 1).drop_last() =~= gs.subrange(0, gi as int));
            assert(diags_view(diags@) =~= p1 + var_warnings(*doc, gs.subrange(0, gi + 1)));
        }
        gi = gi + 1;
    }
    proof {
        assert(gs.subrange(0, gi as int) =~= gs);
    }
    let ghost p2 = diags_view(diags@);
    // regex syntax
    let ghost dv = doc.defines.entries@.map_values(|p: (String, Expression)| p.1);
    let mut checked: Vec<String> = Vec::new();
    let mut di: usize = 0;
    proof {
        assert(dv.subrange(0, 0) =~= Seq::<Expression>::empty());
        assert(texts(checked@) =~= regex_check(dv.subrange(0, 0)).1);
        assert(diags_view(diags@) =~= p2 + regex_check(dv.subrange(0, 0)).0);
    }
    while di < doc.defines.entries.len()
        invariant
            di <= doc.defines.entries@.len(),
            dv == doc.defines.entries@.map_values(|p: (String, Expression)| p.1),
            forall|k: int| 0 <= k < diags@.len() ==> (#[trigger] diags@[k]).span is None,
            texts(checked@) == regex_check(dv.subrange(0, di as int)).1,
            diags_view(diags@) == p2 + regex_check(dv.subrange(0, di as int)).0,
        decreases doc.defines.entries@.len() - di,
    {
        check_regex(&doc.defines.entries[di].1, &mut checked, &mut diags);
        proof {
            assert(dv.subrange(0, di + 1).drop_last() =~= dv.subrange(0, di as int));
            assert(dv.subrange(0, di + 1).last() == doc.defines.entries@[di as int].1);
            assert(diags_view(diags@) =~= p2 + regex_check(dv.subrange(0, di + 1)).0);
        }
        di = di + 1;
    }
    proof {
        assert(dv.subrange(0, di as int) =~= dv);
        assert(dv + grammars_exprs(gs.subrange(0, 0)) =~= dv);
    }
    let mut gi: usize = 0;
    while gi < grammars.len()
        invariant
            gi <= grammars@.len(),
            gs == grammars@,
            grammars == &doc.grammars.entries,
            dv == doc.defines.entries@.map_values(|p: (String, Expression)| p.1),
            forall|k: int| 0 <= k < diags@.len() ==> (#[trigger] diags@[k]).span is None,
            texts(checked@) == regex_check(dv + grammars_exprs(gs.subrange(0, gi as int))).1,
            diags_view(diags@) == p2 + regex_check(dv + grammars_exprs(gs.subrange(0, gi as int))).0,
        decreases grammars@.len() - gi,
    {
        let g = &grammars[gi].1;
        let ghost pre = dv + grammars_exprs(gs.subrange(0, gi as int));
        let mut si: usize = 0;
        proof {
            assert(pre + stmts_exprs(g.statements@.subrange(0, 0)) =~= pre);
        }
        while si < g.statements.len()
            invariant
                si <= g.statements@.len(),
                forall|k: int| 0 <= k < diags@.len() ==> (#[trigger] diags@[k]).span is None,
                texts(checked@) == regex_check(pre + stmts_exprs(g.statements@.subrange(0, si as int))).1,
                diags_view(diags@) == p2 + regex_check(pre + stmts_exprs(g.statements@.subrange(0, si as int))).0,
            decreases g.statements@.len() - si,
        {
            let es = expressions_of(&g.statements[si]);
            let ghost ev = es@.map_values(|x: &Expression| *x);
            let ghost pre2 = pre + stmts_exprs(g.statements@.subrange(0, si as int));
            let mut ei: usize = 0;
            proof {
                assert(pre2 + ev.subrange(0, 0) =~= pre2);
            }
            while ei < es.len()
                invariant
                    ei <= es@.len(),
                    ev == es@.map_values(|x: &Expression| *x),
                    forall|k: int| 0 <= k < diags@.len() ==> (#[trigger] diags@[k]).span is None,
                    texts(checked@) == regex_check(pre2 + ev.subrange(0, ei as int)).1,
                    diags_view(diags@) == p2 + regex_check(pre2 + ev.subrange(0, ei as int)).0,
                decreases es@.len() - ei,
            {
                check_regex(es[ei], &mut checked, &mut diags);
                proof {
                    assert((pre2 + ev.subrange(0, ei + 1)).drop_last() =~= pre2 + ev.subrange(0, ei as int));
                    assert((pre2 + ev.subrange(0, ei + 1)).last() == ev[ei as int]);
                    assert(diags_view(diags@) =~= p2 + regex_check(pre2 + ev.subrange(0, ei + 1)).0);
                }
                ei = ei + 1;
            }
            proof {
                assert(ev.subrange(0, ei as int) =~= ev);
                assert(g.statements@.subrange(0, si + 1).drop_last() =~= g.statements@.subrange(0, si as int));
                assert(pre2 + ev =~= pre + stmts_exprs(g.statements@.subrange(0, si + 1)));
            }
            si = si + 1;
        }
        proof {
            assert(g.statements@.subrange(0, si as int) =~= g.statements@);
            assert(gs.subrange(0, gi + 1).drop_last() =~= gs.subrange(0, gi as int));
            assert(pre + stmts_exprs(g.statements@) =~= dv + grammars_exprs(gs.subrange(0, gi + 1)));
        }
        gi = gi + 1;
    }
    proof {
        assert(gs.subrange(0, gi as int) =~= gs);
        assert(dv + grammars_exprs(gs) == checked_exprs(*doc));
    }
    let ghost p3 = diags_view(diags@);
    // inheritance targets
    let mut gi: usize = 0;
    proof {
        assert(diags_view(diags@) =~= p3 + inherit_errors(*doc, gs.subrange(0, 0)));
    }
    while gi < grammars.len()
        invariant
            gi <= grammars@.len(),
            gs == grammars@,
            grammars == &doc.grammars.entries,
            forall|k: int| 0 <= k < diags@.len() ==> (#[trigger] diags@[k]).span is None,
            forall|g: int| 0 <= g < gi ==> (#[trigger] grammars@[g]).1.inherit matches Some(p)
                && doc.grammars.spec_get(p@) is None ==> exists|k: int| 0 <= k < diags@.len() && (#[trigger] diags@[k]).severity == Severity::Error,
            diags_view(diags@) == p3 + inherit_errors(*doc, gs.subrange(0, gi as int)),
        decreases grammars@.len() - gi,
    {
        let g = &grammars[gi].1;
        let ghost before = diags@;
        proof {
            assert(gs.subrange(0, gi + 1).last() == gs[gi as int]);
        }
        match &g.inherit {
            Some(parent) => {
                if !doc.grammars.contains_key(parent.as_str()) {
                    let msg = concat5("grammar '", g.name.as_str(), "' inherits from undefined grammar '", parent.as_str(), "'");
                    diags.push(Diagnostic::error(msg.as_str(), None));
                    proof {
                        let k = diags@.len() - 1;
                        assert(diags@[k].severity == Severity::Error);
                        assert(diags_view(diags@) =~= diags_view(before).push((Severity::Error, msg@)));
                    }
                } else {
                    proof {
                        assert(diags_view(diags@) =~= diags_view(before) + Seq::<(Severity, Seq<char>)>::empty());
                    }
                }
            },
            None => {
                proof {
                    assert(diags_view(diags@) =~= diags_view(before) + Seq::<(Severity, Seq<char>)>::empty());
                }
            },
        }
        proof {
            assert(gs.subrange(0, gi + 1).drop_last() =~= gs.subrange(0, gi as int));
            assert(diags_view(diags@) =~= p3 + inherit_errors(*doc, gs.subrange(0, gi + 1)));
            assert forall|g: int| 0 <= g < gi + 1 && ((#[trigger] grammars@[g]).1.inherit matches Some(p)
                && doc.grammars.spec_get(p@) is None) implies exists|k: int| 0 <= k < diags@.len() && (#[trigger] diags@[k]).severity == Severity::Error by {
                if g < gi && (grammars@[g].1.inherit matches Some(p) && doc.grammars.spec_get(p@) is None) {
                    let k = choose|k: int| 0 <= k < diags@.len() && #[trigger] diags@[k].severity == Severity::Error;
                    assert(0 <= k < diags@.len());
                }
            }
        }
        gi = gi + 1;
    }
    proof {
        assert(gs.subrange(0, gi as int) =~= gs);
        assert(diags_view(diags@) =~= validation(*doc));
    }
    diags
}

} // verus!

verus! {

/// Whether `s` starts with `p`.
pub fn starts_with_str(s: &str, p: &str) -> (r: bool)
    ensures
        r == has_prefix(s@, p@),
{
    starts_with(s, p)
}

} // verus!
