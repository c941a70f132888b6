//! Deep copies of a parsed document, for the engines that own theirs.

use vstd::prelude::*;
use crate::parser::ast::{
    alt_view, alts_view, calls_view, defines_view, exprs_view, grammar_view, grammars_view, stmt_view, stmts_view,
    Expression, FastPathKind, FunctionCall, GelDocument, Grammar, MatchFieldList, MatchList, MatchStatement, NameMap,
    SkipStatement, Statement, WhenStatement, find_key, lemma_find_key, lemma_same_key_views,
};
use crate::pattern::{CompiledRegex, clone_regex};

verus! {

/// What the runner reads of an alternative beyond its view: the combined
/// regex it was compiled to and its literal prefix, by their texts.
pub open spec fn alt_matcher(a: MatchFieldList) -> (Option<Seq<char>>, Option<Seq<char>>) {
    (
        match a.compiled_regex {
            Some(rx) => Some(rx@),
            None => None,
        },
        match a.literal_prefix {
            Some(p) => Some(p@),
            None => None,
        },
    )
}

/// The matchers of a statement's alternatives (none for `skip` and actions).
pub open spec fn statement_matchers(s: Statement) -> Seq<(Option<Seq<char>>, Option<Seq<char>>)> {
    match s {
        Statement::Match(m) => m.match_list.alternatives@.map_values(|a: MatchFieldList| alt_matcher(a)),
        Statement::When(w) => w.match_list.alternatives@.map_values(|a: MatchFieldList| alt_matcher(a)),
        _ => seq![],
    }
}

/// The matchers of every statement of every grammar of a document.
pub open spec fn document_matchers(d: GelDocument) -> Seq<Seq<Seq<(Option<Seq<char>>, Option<Seq<char>>)>>> {
    d.grammars.entries@.map_values(
        |p: (String, Grammar)| p.1.statements@.map_values(|s: Statement| statement_matchers(s)),
    )
}


fn copy_exprs(v: &Vec<Expression>) -> (r: Vec<Expression>)
    ensures
        r@.len() == v@.len(),
        forall|i: int| 0 <= i < v@.len() ==> (#[trigger] r@[i])@ == v@[i]@,
{
    let mut out: Vec<Expression> = Vec::new();
    let mut i: usize = 0;
    while i < v.len()
        invariant
            i <= v@.len(),
            out@.len() == i,
            forall|k: int| 0 <= k < i ==> (#[trigger] out@[k])@ == v@[k]@,
        decreases v@.len() - i,
    {
        out.push(v[i].copy());
        i = i + 1;
    }
    out
}

fn copy_calls(v: &Vec<FunctionCall>) -> (r: Vec<FunctionCall>)
    ensures
        r@.len() == v@.len(),
        forall|i: int| 0 <= i < v@.len() ==> (#[trigger] r@[i])@ == v@[i]@,
        calls_view(r@) == calls_view(v@),
{
    let mut out: Vec<FunctionCall> = Vec::new();
    let mut i: usize = 0;
    while i < v.len()
        invariant
            i <= v@.len(),
            out@.len() == i,
            forall|k: int| 0 <= k < i ==> (#[trigger] out@[k])@ == v@[k]@,
        decreases v@.len() - i,
    {
        out.push(v[i].copy());
        i = i + 1;
    }
    proof {
        assert(calls_view(out@) =~= calls_view(v@));
    }
    out
}

fn copy_opt_string(s: &Option<String>) -> (r: Option<String>)
    ensures
        r is Some <==> s is Some,
        r matches Some(x) ==> x@ == s->0@,
{
    match s {
        Some(x) => Some(x.clone()),
        None => None,
    }
}

fn copy_opt_regex(rx: &Option<CompiledRegex>) -> (r: Option<CompiledRegex>)
    ensures
        r is Some <==> rx is Some,
        r matches Some(x) ==> x@ == rx->0@,
{
    match rx {
        Some(x) => Some(clone_regex(x)),
        None => None,
    }
}

fn copy_match_list(m: &MatchList) -> (r: MatchList)
    ensures
        r.alternatives@.len() == m.alternatives@.len(),
        alts_view(r.alternatives@) == alts_view(m.alternatives@),
        r.alternatives@.map_values(|a: MatchFieldList| alt_matcher(a)) == m.alternatives@.map_values(
            |a: MatchFieldList| alt_matcher(a),
        ),
{
    let mut alts: Vec<MatchFieldList> = Vec::new();
    let mut i: usize = 0;
    while i < m.alternatives.len()
        invariant
            i <= m.alternatives@.len(),
            alts@.len() == i,
            forall|k: int| 0 <= k < i ==> alt_view(#[trigger] alts@[k]) == alt_view(m.alternatives@[k]),
            forall|k: int| 0 <= k < i ==> alt_matcher(#[trigger] alts@[k]) == alt_matcher(m.alternatives@[k]),
        decreases m.alternatives@.len() - i,
    {
        let a = &m.alternatives[i];
        alts.push(
            MatchFieldList {
                expressions: copy_exprs(&a.expressions),
                flags: a.flags,
                compiled_regex: copy_opt_regex(&a.compiled_regex),
                literal_prefix: copy_opt_string(&a.literal_prefix),
            },
        );
        proof {
            let a = m.alternatives@[i as int];
            let c = alts@[i as int];
            assert(exprs_view(c.expressions@) =~= exprs_view(a.expressions@));
        }
        i = i + 1;
    }
    proof {
        assert(alts_view(alts@) =~= alts_view(m.alternatives@));
        assert(alts@.map_values(|a: MatchFieldList| alt_matcher(a)) =~= m.alternatives@.map_values(
            |a: MatchFieldList| alt_matcher(a),
        ));
    }
    MatchList { alternatives: alts }
}

/// A copy of a statement.
pub(crate) fn copy_statement(s: &Statement) -> (r: Statement)
    ensures
        stmt_view(r) == stmt_view(*s),
        statement_matchers(r) == statement_matchers(*s),
{
    match s {
        Statement::Match(m) => Statement::Match(
            MatchStatement {
                match_list: copy_match_list(&m.match_list),
                actions: copy_calls(&m.actions),
                case_insensitive: m.case_insensitive,
            },
        ),
        Statement::When(w) => Statement::When(
            WhenStatement { match_list: copy_match_list(&w.match_list), actions: copy_calls(&w.actions) },
        ),
        Statement::Skip(k) => Statement::Skip(SkipStatement { pattern: k.pattern.copy() }),
        Statement::Action(a) => Statement::Action(a.copy()),
    }
}

fn copy_grammar(g: &Grammar) -> (r: Grammar)
    ensures
        r.name@ == g.name@,
        r.inherit is Some <==> g.inherit is Some,
        r.inherit matches Some(x) ==> x@ == g.inherit->0@,
        r.statements@.len() == g.statements@.len(),
        grammar_view(r) == grammar_view(*g),
        r.statements@.map_values(|s: Statement| statement_matchers(s)) == g.statements@.map_values(
            |s: Statement| statement_matchers(s),
        ),
{
    let mut stmts: Vec<Statement> = Vec::new();
    let mut i: usize = 0;
    while i < g.statements.len()
        invariant
            i <= g.statements@.len(),
            stmts@.len() == i,
            forall|k: int| 0 <= k < i ==> stmt_view(#[trigger] stmts@[k]) == stmt_view(g.statements@[k]),
            forall|k: int| 0 <= k < i ==> statement_matchers(#[trigger] stmts@[k]) == statement_matchers(g.statements@[k]),
        decreases g.statements@.len() - i,
    {
        stmts.push(copy_statement(&g.statements[i]));
        i = i + 1;
    }
    proof {
        assert(stmts_view(stmts@) =~= stmts_view(g.statements@));
        assert(stmts@.map_values(|s: Statement| statement_matchers(s)) =~= g.statements@.map_values(
            |s: Statement| statement_matchers(s),
        ));
    }
    Grammar { name: g.name.clone(), inherit: copy_opt_string(&g.inherit), statements: stmts }
}

fn copy_defines(m: &NameMap<Expression>) -> (r: NameMap<Expression>)
    ensures
        r.entries@.len() == m.entries@.len(),
        forall|i: int|
            0 <= i < m.entries@.len() ==> (#[trigger] r.entries@[i]).0@ == m.entries@[i].0@ && r.entries@[i].1@
                == m.entries@[i].1@,
{
    let mut out: Vec<(String, Expression)> = Vec::new();
    let mut i: usize = 0;
    while i < m.entries.len()
        invariant
            i <= m.entries@.len(),
            out@.len() == i,
            forall|k: int|
                0 <= k < i ==> (#[trigger] out@[k]).0@ == m.entries@[k].0@ && out@[k].1@ == m.entries@[k].1@,
        decreases m.entries@.len() - i,
    {
        out.push((m.entries[i].0.clone(), m.entries[i].1.copy()));
        i = i + 1;
    }
    NameMap { entries: out }
}

fn copy_grammars(m: &NameMap<Grammar>) -> (r: NameMap<Grammar>)
    ensures
        r.entries@.len() == m.entries@.len(),
        forall|i: int|
            0 <= i < m.entries@.len() ==> (#[trigger] r.entries@[i]).0@ == m.entries@[i].0@
                && r.entries@[i].1.statements@.len() == m.entries@[i].1.statements@.len()
                && grammar_view(r.entries@[i].1) == grammar_view(m.entries@[i].1)
                && r.entries@[i].1.statements@.map_values(|s: Statement| statement_matchers(s))
                == m.entries@[i].1.statements@.map_values(|s: Statement| statement_matchers(s)),
{
    let mut out: Vec<(String, Grammar)> = Vec::new();
    let mut i: usize = 0;
    while i < m.entries.len()
        invariant
            i <= m.entries@.len(),
            out@.len() == i,
            forall|k: int|
                0 <= k < i ==> (#[trigger] out@[k]).0@ == m.entries@[k].0@ && out@[k].1.statements@.len()
                    == m.entries@[k].1.statements@.len() && grammar_view(out@[k].1) == grammar_view(m.entries@[k].1)
                    && out@[k].1.statements@.map_values(|s: Statement| statement_matchers(s))
                    == m.entries@[k].1.statements@.map_values(|s: Statement| statement_matchers(s)),
        decreases m.entries@.len() - i,
    {
        out.push((m.entries[i].0.clone(), copy_grammar(&m.entries[i].1)));
        i = i + 1;
    }
    NameMap { entries: out }
}

fn copy_indices(m: &NameMap<usize>) -> (r: NameMap<usize>)
    ensures
        r.entries@.len() == m.entries@.len(),
        forall|i: int|
            0 <= i < m.entries@.len() ==> (#[trigger] r.entries@[i]).0@ == m.entries@[i].0@ && r.entries@[i].1
                == m.entries@[i].1,
{
    let mut out: Vec<(String, usize)> = Vec::new();
    let mut i: usize = 0;
    while i < m.entries.len()
        invariant
            i <= m.entries@.len(),
            out@.len() == i,
            forall|k: int|
                0 <= k < i ==> (#[trigger] out@[k]).0@ == m.entries@[k].0@ && out@[k].1 == m.entries@[k].1,
        decreases m.entries@.len() - i,
    {
        out.push((m.entries[i].0.clone(), m.entries[i].1));
        i = i + 1;
    }
    NameMap { entries: out }
}

/// A deep copy of a well-formed document: the same definitions, grammars
/// (names and statement counts), pattern tables and compiled regexes.
pub fn copy_document(doc: &GelDocument) -> (r: GelDocument)
    requires
        doc.wf(),
    ensures
        r.wf(),
        r.grammars.entries@.len() == doc.grammars.entries@.len(),
        forall|i: int|
            0 <= i < doc.grammars.entries@.len() ==> (#[trigger] r.grammars.entries@[i]).0@
                == doc.grammars.entries@[i].0@ && r.grammars.entries@[i].1.statements@.len()
                == doc.grammars.entries@[i].1.statements@.len(),
        defines_view(r) == defines_view(*doc),
        grammars_view(r) == grammars_view(*doc),
        document_matchers(r) == document_matchers(*doc),
        r.regex_patterns@.len() == doc.regex_patterns@.len(),
        forall|i: int| 0 <= i < doc.regex_patterns@.len() ==> (#[trigger] r.regex_patterns@[i])@ == doc.regex_patterns@[i]@,
        forall|k: Seq<char>| #[trigger] r.pattern_indices.spec_get(k) == doc.pattern_indices.spec_get(k),
        r.regex_cache@.len() == doc.regex_cache@.len(),
        forall|i: int|
            0 <= i < doc.regex_cache@.len() ==> ((#[trigger] r.regex_cache@[i]) is Some <==> doc.regex_cache@[i] is Some)
                && (r.regex_cache@[i] matches Some(x) ==> x@ == doc.regex_cache@[i]->0@),
        r.fast_path_kinds@ == doc.fast_path_kinds@,
{
    let defines = copy_defines(&doc.defines);
    let grammars = copy_grammars(&doc.grammars);
    let pattern_indices = copy_indices(&doc.pattern_indices);
    let mut patterns: Vec<String> = Vec::new();
    let mut i: usize = 0;
    while i < doc.regex_patterns.len()
        invariant
            i <= doc.regex_patterns@.len(),
            patterns@.len() == i,
            forall|k: int| 0 <= k < i ==> (#[trigger] patterns@[k])@ == doc.regex_patterns@[k]@,
        decreases doc.regex_patterns@.len() - i,
    {
        patterns.push(doc.regex_patterns[i].clone());
        i = i + 1;
    }
    let mut cache: Vec<Option<CompiledRegex>> = Vec::new();
    let mut i: usize = 0;
    while i < doc.regex_cache.len()
        invariant
            i <= doc.regex_cache@.len(),
            cache@.len() == i,
            forall|k: int|
                0 <= k < i ==> ((#[trigger] cache@[k]) is Some <==> doc.regex_cache@[k] is Some) && (cache@[k] matches Some(
                    x,
                ) ==> x@ == doc.regex_cache@[k]->0@),
        decreases doc.regex_cache@.len() - i,
    {
        cache.push(copy_opt_regex(&doc.regex_cache[i]));
        i = i + 1;
    }
    let mut kinds: Vec<FastPathKind> = Vec::new();
    let mut i: usize = 0;
    while i < doc.fast_path_kinds.len()
        invariant
            i <= doc.fast_path_kinds@.len(),
            kinds@.len() == i,
            forall|k: int| 0 <= k < i ==> kinds@[k] == doc.fast_path_kinds@[k],
        decreases doc.fast_path_kinds@.len() - i,
    {
        kinds.push(doc.fast_path_kinds[i]);
        i = i + 1;
    }
    proof {
        assert(kinds@ =~= doc.fast_path_kinds@);
    }
    let r = GelDocument {
        defines,
        grammars,
        regex_patterns: patterns,
        pattern_indices,
        regex_cache: cache,
        fast_path_kinds: kinds,
    };
    proof {
        assert(defines_view(r) =~= defines_view(*doc));
        assert(grammars_view(r) =~= grammars_view(*doc));
        assert(document_matchers(r) =~= document_matchers(*doc));
        assert forall|k: Seq<char>| #[trigger] r.pattern_indices.spec_get(k) == doc.pattern_indices.spec_get(k) by {
            lemma_same_key_views(r.pattern_indices.entries@, doc.pattern_indices.entries@, k);
            lemma_find_key(doc.pattern_indices.entries@, k);
            let fk = find_key(doc.pattern_indices.entries@, k);
            if fk is Some {
                let j = fk->0;
                assert(r.pattern_indices.entries@[j].1 == doc.pattern_indices.entries@[j].1);
            }
        }
        assert forall|k: Seq<char>| (#[trigger] r.pattern_indices.spec_get(k)) is Some implies {
            let ix = r.pattern_indices.spec_get(k)->0;
            ix < r.regex_patterns@.len() && r.regex_patterns@[ix as int]@ == k
        } by {
            assert(r.pattern_indices.spec_get(k) == doc.pattern_indices.spec_get(k));
            let ix = r.pattern_indices.spec_get(k)->0;
            assert(doc.pattern_indices.spec_get(k) matches Some(x) ==> x < doc.regex_patterns@.len()
                && doc.regex_patterns@[x as int]@ == k);
            assert(r.regex_patterns@[ix as int]@ == doc.regex_patterns@[ix as int]@);
        }
        assert forall|i: int| 0 <= i < r.regex_patterns@.len() implies (#[trigger] r.regex_cache@[2 * i] matches Some(
            rx,
        ) ==> rx@ == "^(?:"@ + r.regex_patterns@[i]@ + ")"@) by {
            assert(doc.regex_cache@[2 * i] is Some ==> doc.regex_cache@[2 * i]->0@ == "^(?:"@ + doc.regex_patterns@[i]@
                + ")"@);
        }
        assert forall|i: int| 0 <= i < r.regex_patterns@.len() implies (#[trigger] r.regex_cache@[2 * i + 1] matches Some(
            rx,
        ) ==> rx@ == "(?i)^(?:"@ + r.regex_patterns@[i]@ + ")"@) by {
            assert(doc.regex_cache@[2 * i + 1] is Some ==> doc.regex_cache@[2 * i + 1]->0@ == "(?i)^(?:"@
                + doc.regex_patterns@[i]@ + ")"@);
        }
    }
    r
}

} // verus!
