//! Compilation of a document's regular expressions: the per-pattern cache, the
//! combined regex of each match field list, and inlining of `define`s.

use vstd::prelude::*;
use crate::parser::ast::{
    alt_view, alts_view, calls_view, defines_view, exprs_view, grammars_view, stmt_view, stmts_view, AltV, CallV,
    GrammarV, StmtV,
    Expression, ExprV, FastPathKind, GelDocument, Grammar, MatchFieldList, NameMap, Statement, classify_fast_path,
    find_key,
};
use crate::pattern::{CompiledRegex, compile_regex, escape_literal, regex_compiles, regex_error_text, regex_escaped};
use crate::parser::copy::{alt_matcher, statement_matchers};
use crate::text::{i64_to_string, decimal_int};

verus! {

/// The value a variable stands for: its definition, followed through definitions
/// that are themselves variables, at most `fuel` steps.
pub open spec fn resolve_var(defs: Seq<(String, Expression)>, name: Seq<char>, fuel: nat) -> Option<ExprV>
    decreases fuel,
{
    if fuel == 0 {
        None
    } else {
        match find_key(defs, name) {
            None => None,
            Some(i) => match defs[i].1@ {
                ExprV::Variable(next) => resolve_var(defs, next, (fuel - 1) as nat),
                e => Some(e),
            },
        }
    }
}

/// Enough steps to follow any chain of distinct definitions.
pub open spec fn chain_fuel(defs: Seq<(String, Expression)>) -> nat {
    if defs.len() < usize::MAX {
        defs.len() + 1
    } else {
        defs.len()
    }
}

/// Follows `name` through the definitions (see [`resolve_var`]); a chain that
/// runs into a cycle or an undefined name resolves to nothing.
pub fn resolve_variable<'a>(defines: &'a NameMap<Expression>, name: &str) -> (r: Option<&'a Expression>)
    ensures
        match r {
            Some(e) => resolve_var(defines.entries@, name@, chain_fuel(defines.entries@)) == Some(e@)
                && !(e@ is Variable),
            None => resolve_var(defines.entries@, name@, chain_fuel(defines.entries@)) is None,
        },
{
    let n = defines.len();
    let fuel = if n < usize::MAX { n + 1 } else { n };
    resolve_steps(defines, name, fuel)
}

fn resolve_steps<'a>(defines: &'a NameMap<Expression>, name: &str, fuel: usize) -> (r: Option<&'a Expression>)
    requires
        fuel == chain_fuel(defines.entries@) || (fuel < chain_fuel(defines.entries@)),
    ensures
        match r {
            Some(e) => resolve_var(defines.entries@, name@, fuel as nat) == Some(e@) && !(e@ is Variable),
            None => resolve_var(defines.entries@, name@, fuel as nat) is None,
        },
    decreases fuel,
{
    if fuel == 0 {
        return None;
    }
    match defines.index_of(name) {
        None => None,
        Some(i) => {
            let e = &defines.entries[i].1;
            match e {
                Expression::Variable(next) => resolve_steps(defines, next.as_str(), fuel - 1),
                _ => Some(e),
            }
        },
    }
}

} // verus!

verus! {

/// The regex pattern a non-variable expression stands for; back-references have
/// none (they depend on the run).
pub open spec fn base_pattern(e: ExprV) -> Option<Seq<char>> {
    match e {
        ExprV::String(s) => Some(regex_escaped(s)),
        ExprV::Regex(r) => Some(r),
        ExprV::Number(n) => Some(decimal_int(n as int)),
        _ => None,
    }
}

/// The regex pattern an expression stands for, variables resolved.
pub open spec fn expr_pattern(e: ExprV, defs: Seq<(String, Expression)>) -> Option<Seq<char>> {
    match e {
        ExprV::Variable(v) => match resolve_var(defs, v, chain_fuel(defs)) {
            Some(r) => base_pattern(r),
            None => None,
        },
        _ => base_pattern(e),
    }
}

/// `(p1)(p2)...` for the patterns of the expressions, if each has one.
pub open spec fn combined_pattern(es: Seq<ExprV>, defs: Seq<(String, Expression)>) -> Option<Seq<char>>
    decreases es.len(),
{
    if es.len() == 0 {
        Some(Seq::empty())
    } else {
        match (combined_pattern(es.drop_last(), defs), expr_pattern(es.last(), defs)) {
            (Some(a), Some(p)) => Some(a + "("@ + p + ")"@),
            _ => None,
        }
    }
}

/// The literal text a field list must start with: its first expression when
/// that is (or resolves to) a non-empty string.
pub open spec fn literal_prefix_spec(es: Seq<ExprV>, defs: Seq<(String, Expression)>) -> Option<Seq<char>> {
    if es.len() == 0 {
        None
    } else {
        match es[0] {
            ExprV::String(s) => if s.len() > 0 {
                Some(s)
            } else {
                None
            },
            ExprV::Variable(v) => match resolve_var(defs, v, chain_fuel(defs)) {
                Some(ExprV::String(s)) => if s.len() > 0 {
                    Some(s)
                } else {
                    None
                },
                _ => None,
            },
            _ => None,
        }
    }
}

fn base_to_pattern(e: &Expression) -> (r: Option<String>)
    ensures
        match r {
            Some(p) => base_pattern(e@) == Some(p@),
            None => base_pattern(e@) is None,
        },
{
    match e {
        Expression::String(s) => Some(escape_literal(s.as_str())),
        Expression::Regex(r) => Some(r.clone()),
        Expression::Number(n) => Some(i64_to_string(*n)),
        _ => None,
    }
}

/// The regex pattern of an expression (see [`expr_pattern`]).
pub fn expr_to_regex_pattern(e: &Expression, defines: &NameMap<Expression>) -> (r: Option<String>)
    ensures
        match r {
            Some(p) => expr_pattern(e@, defines.entries@) == Some(p@),
            None => expr_pattern(e@, defines.entries@) is None,
        },
{
    match e {
        Expression::Variable(v) => match resolve_variable(defines, v.as_str()) {
            Some(resolved) => base_to_pattern(resolved),
            None => None,
        },
        _ => base_to_pattern(e),
    }
}

/// `(p1)(p2)...` (see [`combined_pattern`]).
pub fn build_combined_pattern(es: &[Expression], defines: &NameMap<Expression>) -> (r: Option<String>)
    ensures
        match r {
            Some(p) => combined_pattern(es@.map_values(|e: Expression| e@), defines.entries@) == Some(p@),
            None => combined_pattern(es@.map_values(|e: Expression| e@), defines.entries@) is None,
        },
{
    let ghost ev = es@.map_values(|e: Expression| e@);
    let mut out = String::new();
    let mut i: usize = 0;
    proof {
        assert(ev.subrange(0, 0) =~= Seq::<ExprV>::empty());
    }
    while i < es.len()
        invariant
            i <= es@.len(),
            ev == es@.map_values(|e: Expression| e@),
            combined_pattern(ev.subrange(0, i as int), defines.entries@) == Some(out@),
        decreases es@.len() - i,
    {
        proof {
            assert(ev.subrange(0, i + 1).drop_last() =~= ev.subrange(0, i as int));
        }
        match expr_to_regex_pattern(&es[i], defines) {
            Some(p) => {
                out.append("(");
                out.append(p.as_str());
                out.append(")");
            },
            None => {
                proof {
                    lemma_combined_none(ev, defines.entries@, i as int + 1);
                }
                return None;
            },
        }
        i = i + 1;
    }
    proof {
        assert(ev.subrange(0, es@.len() as int) =~= ev);
    }
    Some(out)
}

proof fn lemma_combined_none(ev: Seq<ExprV>, defs: Seq<(String, Expression)>, k: int)
    requires
        0 <= k <= ev.len(),
        combined_pattern(ev.subrange(0, k), defs) is None,
    ensures
        combined_pattern(ev, defs) is None,
    decreases ev.len() - k,
{
    if k < ev.len() {
        assert(ev.subrange(0, k + 1).drop_last() =~= ev.subrange(0, k));
        lemma_combined_none(ev, defs, k + 1);
    } else {
        assert(ev.subrange(0, k) =~= ev);
    }
}

/// The literal prefix of a field list (see [`literal_prefix_spec`]).
pub fn extract_literal_prefix(es: &[Expression], defines: &NameMap<Expression>) -> (r: Option<String>)
    ensures
        match r {
            Some(p) => literal_prefix_spec(es@.map_values(|e: Expression| e@), defines.entries@) == Some(p@),
            None => literal_prefix_spec(es@.map_values(|e: Expression| e@), defines.entries@) is None,
        },
{
    if es.len() == 0 {
        return None;
    }
    match &es[0] {
        Expression::String(s) => if s.unicode_len() > 0 {
            Some(s.clone())
        } else {
            None
        },
        Expression::Variable(v) => match resolve_variable(defines, v.as_str()) {
            Some(Expression::String(s)) => if s.unicode_len() > 0 {
                Some(s.clone())
            } else {
                None
            },
            _ => None,
        },
        _ => None,
    }
}

/// The expression with a variable replaced by what it resolves to (left as it is
/// when it does not resolve).
pub open spec fn inline_spec(e: ExprV, defs: Seq<(String, Expression)>) -> ExprV {
    match e {
        ExprV::Variable(v) => match resolve_var(defs, v, chain_fuel(defs)) {
            Some(r) => r,
            None => e,
        },
        _ => e,
    }
}

/// The anchored text of a field list's combined regex.
pub open spec fn anchored(flags: u32, p: Seq<char>) -> Seq<char> {
    (if flags & 1 != 0 {
        "(?i)^"@
    } else {
        "^"@
    }) + p
}

/// What preparing a field list gives it, by text: (combined regex, literal
/// prefix).  Each is computed only when the list has none yet: the combined
/// regex when every expression has a pattern and the anchored pattern
/// compiles, the literal prefix from its first expression.
pub open spec fn prepared_matcher(a: MatchFieldList, defs: Seq<(String, Expression)>) -> (Option<Seq<char>>, Option<Seq<char>>) {
    let es = exprs_view(a.expressions@);
    (
        match a.compiled_regex {
            Some(rx) => Some(rx@),
            None => match combined_pattern(es, defs) {
                Some(p) => if regex_compiles(anchored(a.flags, p)) {
                    Some(anchored(a.flags, p))
                } else {
                    None
                },
                None => None,
            },
        },
        match a.literal_prefix {
            Some(p) => Some(p@),
            None => literal_prefix_spec(es, defs),
        },
    )
}

/// The prepared matchers of a statement's alternatives (none for `skip` and
/// actions).
pub open spec fn prepared_matchers(s: Statement, defs: Seq<(String, Expression)>) -> Seq<(Option<Seq<char>>, Option<Seq<char>>)> {
    match s {
        Statement::Match(m) => m.match_list.alternatives@.map_values(|a: MatchFieldList| prepared_matcher(a, defs)),
        Statement::When(w) => w.match_list.alternatives@.map_values(|a: MatchFieldList| prepared_matcher(a, defs)),
        _ => seq![],
    }
}

/// A grammar after its field lists were prepared: the same name, parent and
/// statements, each with its prepared matchers.
pub open spec fn grammar_prepared(new: Grammar, old: Grammar, defs: Seq<(String, Expression)>) -> bool {
    &&& new.name == old.name
    &&& new.inherit == old.inherit
    &&& new.statements@.len() == old.statements@.len()
    &&& forall|s: int|
        0 <= s < old.statements@.len() ==> stmt_view(#[trigger] new.statements@[s]) == stmt_view(old.statements@[s])
            && statement_matchers(new.statements@[s]) == prepared_matchers(old.statements@[s], defs)
}

/// A grammar after its variables were inlined: the same name, parent,
/// statements (see [`inline_stmt`]) and matchers.
pub open spec fn grammar_inlined(new: Grammar, old: Grammar, defs: Seq<(String, Expression)>) -> bool {
    &&& new.name == old.name
    &&& new.inherit == old.inherit
    &&& new.statements@.len() == old.statements@.len()
    &&& forall|s: int|
        0 <= s < old.statements@.len() ==> stmt_view(#[trigger] new.statements@[s]) == inline_stmt(
            stmt_view(old.statements@[s]),
            defs,
        ) && statement_matchers(new.statements@[s]) == statement_matchers(old.statements@[s])
}

/// A grammar after compilation: its field lists prepared, then its variables
/// inlined (see [`grammar_prepared`], [`grammar_inlined`]).
pub open spec fn grammar_compiled(new: Grammar, old: Grammar, defs: Seq<(String, Expression)>) -> bool {
    &&& new.name == old.name
    &&& new.inherit == old.inherit
    &&& new.statements@.len() == old.statements@.len()
    &&& forall|s: int|
        0 <= s < old.statements@.len() ==> stmt_view(#[trigger] new.statements@[s]) == inline_stmt(
            stmt_view(old.statements@[s]),
            defs,
        ) && statement_matchers(new.statements@[s]) == prepared_matchers(old.statements@[s], defs)
}

/// Expressions with their variables inlined.
pub open spec fn inline_all(es: Seq<ExprV>, defs: Seq<(String, Expression)>) -> Seq<ExprV> {
    es.map_values(|e: ExprV| inline_spec(e, defs))
}

/// A statement with the variables of its match lists, its skip pattern or its
/// bare action's arguments inlined; the actions of `match` / `when` keep theirs.
pub open spec fn inline_stmt(s: StmtV, defs: Seq<(String, Expression)>) -> StmtV {
    match s {
        StmtV::Match(alts, acts, ci) => StmtV::Match(
            alts.map_values(|a: AltV| (inline_all(a.0, defs), a.1)),
            acts,
            ci,
        ),
        StmtV::When(alts, acts) => StmtV::When(alts.map_values(|a: AltV| (inline_all(a.0, defs), a.1)), acts),
        StmtV::Skip(e) => StmtV::Skip(inline_spec(e, defs)),
        StmtV::Action(c) => StmtV::Action((c.0, inline_all(c.1, defs))),
    }
}

/// Replaces a variable by what it resolves to.
fn inline_expr(e: &mut Expression, defines: &NameMap<Expression>)
    ensures
        final(e)@ == inline_spec(old(e)@, defines.entries@),
{
    let replacement = match e {
        Expression::Variable(v) => match resolve_variable(defines, v.as_str()) {
            Some(r) => Some(r.copy()),
            None => None,
        },
        _ => None,
    };
    match replacement {
        Some(r) => { *e = r; },
        None => {},
    }
}

/// Prepares one field list: its literal prefix and, when every expression has a
/// pattern, its combined anchored regex (`(?i)^` for case-insensitive lists).
fn prepare_field_list(fl: &mut MatchFieldList, defines: &NameMap<Expression>)
    ensures
        final(fl).expressions@ == old(fl).expressions@,
        final(fl).flags == old(fl).flags,
        old(fl).literal_prefix is None ==> match final(fl).literal_prefix {
            Some(p) => literal_prefix_spec(old(fl).expressions@.map_values(|e: Expression| e@), defines.entries@) == Some(p@),
            None => literal_prefix_spec(old(fl).expressions@.map_values(|e: Expression| e@), defines.entries@) is None,
        },
        old(fl).literal_prefix is Some ==> final(fl).literal_prefix == old(fl).literal_prefix,
        old(fl).compiled_regex is None ==> (final(fl).compiled_regex matches Some(rx) ==> combined_pattern(
            old(fl).expressions@.map_values(|e: Expression| e@),
            defines.entries@,
        ) matches Some(p) && rx@ == (if old(fl).flags & 1 != 0 { "(?i)^"@ } else { "^"@ }) + p),
        alt_matcher(*final(fl)) == prepared_matcher(*old(fl), defines.entries@),
{
    if fl.literal_prefix.is_none() {
        fl.literal_prefix = extract_literal_prefix(fl.expressions.as_slice(), defines);
    }
    if fl.compiled_regex.is_none() {
        match build_combined_pattern(fl.expressions.as_slice(), defines) {
            Some(combined) => {
                let mut anch = if fl.flags & 1 != 0 { "(?i)^".to_string() } else { "^".to_string() };
                anch.append(combined.as_str());
                proof {
                    assert(anch@ == anchored(fl.flags, combined@));
                }
                match compile_regex(anch.as_str()) {
                    Ok(rx) => { fl.compiled_regex = Some(rx); },
                    Err(_) => {},
                }
            },
            None => {},
        }
    }
}

} // verus!

verus! {

/// Prepares each field list of a match list (see [`prepare_field_list`]).
fn prepare_list(alts: &mut Vec<MatchFieldList>, defines: &NameMap<Expression>)
    ensures
        final(alts)@.len() == old(alts)@.len(),
        alts_view(final(alts)@) == alts_view(old(alts)@),
        final(alts)@.map_values(|a: MatchFieldList| alt_matcher(a)) == old(alts)@.map_values(
            |a: MatchFieldList| prepared_matcher(a, defines.entries@),
        ),
{
    let n = alts.len();
    let mut ai: usize = 0;
    while ai < n
        invariant
            ai <= n == alts@.len() == old(alts)@.len(),
            forall|k: int| 0 <= k < ai ==> alt_view(#[trigger] alts@[k]) == alt_view(old(alts)@[k]),
            forall|k: int| 0 <= k < ai ==> alt_matcher(#[trigger] alts@[k]) == prepared_matcher(old(alts)@[k], defines.entries@),
            forall|k: int| ai <= k < n ==> #[trigger] alts@[k] == old(alts)@[k],
        decreases n - ai,
    {
        prepare_field_list(&mut alts[ai], defines);
        proof {
            assert(alt_view(alts@[ai as int]) == alt_view(old(alts)@[ai as int])) by {
                assert(alts@[ai as int].expressions@ == old(alts)@[ai as int].expressions@);
            }
        }
        ai = ai + 1;
    }
    proof {
        assert(alts_view(alts@) =~= alts_view(old(alts)@));
        assert(alts@.map_values(|a: MatchFieldList| alt_matcher(a)) =~= old(alts)@.map_values(
            |a: MatchFieldList| prepared_matcher(a, defines.entries@),
        ));
    }
}

fn prepare_statement(stmt: &mut Statement, defines: &NameMap<Expression>)
    ensures
        stmt_view(*final(stmt)) == stmt_view(*old(stmt)),
        statement_matchers(*final(stmt)) == prepared_matchers(*old(stmt), defines.entries@),
{
    match stmt {
        Statement::Match(m) => prepare_list(&mut m.match_list.alternatives, defines),
        Statement::When(w) => prepare_list(&mut w.match_list.alternatives, defines),
        _ => {},
    }
}

impl GelDocument {
    /// Prepares every match field list of every grammar: literal prefixes and
    /// combined anchored regexes (see [`prepare_field_list`]).
    pub fn compile_field_list_regexes(&mut self)
        requires
            old(self).wf(),
        ensures
            final(self).wf(),
            final(self).defines == old(self).defines,
            final(self).regex_patterns@ == old(self).regex_patterns@,
            final(self).pattern_indices == old(self).pattern_indices,
            final(self).grammars.entries@.len() == old(self).grammars.entries@.len(),
            forall|k: int| 0 <= k < old(self).grammars.entries@.len() ==> (#[trigger] final(self).grammars.entries@[k]).0 == old(self).grammars.entries@[k].0,
            forall|k: int|
                0 <= k < old(self).grammars.entries@.len() ==> grammar_prepared(
                    (#[trigger] final(self).grammars.entries@[k]).1,
                    old(self).grammars.entries@[k].1,
                    old(self).defines.entries@,
                ),
    {
        let n = self.grammars.entries.len();
        let mut gi: usize = 0;
        while gi < n
            invariant
                gi <= n,
                self.wf(),
                self.defines == old(self).defines,
                self.regex_patterns@ == old(self).regex_patterns@,
                self.pattern_indices == old(self).pattern_indices,
                n == self.grammars.entries@.len(),
                forall|k: int| 0 <= k < n ==> (#[trigger] self.grammars.entries@[k]).0 == old(self).grammars.entries@[k].0,
                forall|k: int| 0 <= k < gi ==> grammar_prepared(
                    (#[trigger] self.grammars.entries@[k]).1,
                    old(self).grammars.entries@[k].1,
                    old(self).defines.entries@,
                ),
                forall|k: int| gi <= k < n ==> (#[trigger] self.grammars.entries@[k]).1 == old(self).grammars.entries@[k].1,
            decreases n - gi,
        {
            let ns = self.grammars.entries[gi].1.statements.len();
            let mut si: usize = 0;
            while si < ns
                invariant
                    si <= ns,
                    gi < n,
                    self.wf(),
                    self.defines == old(self).defines,
                    self.regex_patterns@ == old(self).regex_patterns@,
                    self.pattern_indices == old(self).pattern_indices,
                    n == self.grammars.entries@.len(),
                    ns == self.grammars.entries@[gi as int].1.statements@.len(),
                    forall|k: int| 0 <= k < n ==> (#[trigger] self.grammars.entries@[k]).0 == old(self).grammars.entries@[k].0,
                    forall|k: int| 0 <= k < gi ==> grammar_prepared(
                        (#[trigger] self.grammars.entries@[k]).1,
                        old(self).grammars.entries@[k].1,
                        old(self).defines.entries@,
                    ),
                    forall|k: int| gi < k < n ==> (#[trigger] self.grammars.entries@[k]).1 == old(self).grammars.entries@[k].1,
                    self.grammars.entries@[gi as int].1.name == old(self).grammars.entries@[gi as int].1.name,
                    self.grammars.entries@[gi as int].1.inherit == old(self).grammars.entries@[gi as int].1.inherit,
                    ns == old(self).grammars.entries@[gi as int].1.statements@.len(),
                    forall|t: int| 0 <= t < si ==> stmt_view(#[trigger] self.grammars.entries@[gi as int].1.statements@[t])
                        == stmt_view(old(self).grammars.entries@[gi as int].1.statements@[t])
                        && statement_matchers(self.grammars.entries@[gi as int].1.statements@[t]) == prepared_matchers(
                            old(self).grammars.entries@[gi as int].1.statements@[t],
                            old(self).defines.entries@,
                        ),
                    forall|t: int| si <= t < ns ==> #[trigger] self.grammars.entries@[gi as int].1.statements@[t]
                        == old(self).grammars.entries@[gi as int].1.statements@[t],
                decreases ns - si,
            {
                prepare_statement(&mut self.grammars.entries[gi].1.statements[si], &self.defines);
                si = si + 1;
            }
            gi = gi + 1;
        }
    }
}

} // verus!

verus! {

/// The anchored pattern a raw pattern is compiled to: `^(?:p)`, or
/// `(?i)^(?:p)` for the case-insensitive variant.
pub open spec fn anchored_variant(raw: Seq<char>, ci: bool) -> Seq<char> {
    (if ci {
        "(?i)^(?:"@
    } else {
        "^(?:"@
    }) + raw + ")"@
}

/// `prefix` + `raw` + `)`.
fn wrap_pattern(prefix: &str, raw: &str) -> (r: String)
    ensures
        r@ == prefix@ + raw@ + ")"@,
{
    let mut s = prefix.to_string();
    s.append(raw);
    s.append(")");
    s
}

/// The compiled regex for a pattern, or `None` when it does not compile.
fn compile_opt(pattern: &str) -> (r: Option<CompiledRegex>)
    ensures
        r is Some <==> regex_compiles(pattern@),
        r matches Some(rx) ==> rx@ == pattern@,
{
    match compile_regex(pattern) {
        Ok(rx) => Some(rx),
        Err(_) => None,
    }
}

impl GelDocument {
    /// Registers a raw pattern (if new) and compiles both anchored variants:
    /// `^(?:p)` and `(?i)^(?:p)`.  Returns its index.
    fn register_pattern(&mut self, raw: &str) -> (idx: usize)
        requires
            old(self).wf(),
        ensures
            final(self).wf(),
            final(self).defines == old(self).defines,
            final(self).grammars == old(self).grammars,
            final(self).pattern_indices.spec_get(raw@) == Some(idx),
            old(self).regex_patterns@.is_prefix_of(final(self).regex_patterns@),
            forall|x: Seq<char>| (#[trigger] old(self).pattern_indices.spec_get(x)) is Some ==> final(self).pattern_indices.spec_get(x)
                == old(self).pattern_indices.spec_get(x),
    {
        match self.pattern_indices.get(raw) {
            Some(i) => {
                proof {
                    assert(self.regex_patterns@ =~= self.regex_patterns@.subrange(0, self.regex_patterns@.len() as int));
                }
                *i
            },
            None => {
                let idx = self.regex_patterns.len();
                let ghost old_pats = self.regex_patterns@;
                let ghost old_cache = self.regex_cache@;
                self.regex_patterns.push(raw.to_string());
                self.pattern_indices.insert(raw.to_string(), idx);
                self.fast_path_kinds.push(classify_fast_path(raw));
                let plain = compile_opt(wrap_pattern("^(?:", raw).as_str());
                let folded = compile_opt(wrap_pattern("(?i)^(?:", raw).as_str());
                self.regex_cache.push(plain);
                self.regex_cache.push(folded);
                proof {
                    assert(old_pats =~= self.regex_patterns@.subrange(0, old_pats.len() as int));
                    assert forall|k: Seq<char>| #[trigger] self.pattern_indices.spec_get(k) is Some implies self.pattern_indices.spec_get(k)->0 < self.regex_patterns@.len()
                        && self.regex_patterns@[self.pattern_indices.spec_get(k)->0 as int]@ == k by {
                        if k != raw@ {
                            assert(old(self).pattern_indices.spec_get(k) == self.pattern_indices.spec_get(k));
                        }
                    }
                    assert forall|i: int| 0 <= i < self.regex_patterns@.len() implies (#[trigger] self.regex_cache@[2 * i] matches Some(rx) ==> rx@
                        == "^(?:"@ + self.regex_patterns@[i]@ + ")"@) by {
                        if i < old_pats.len() {
                            assert(self.regex_cache@[2 * i] == old_cache[2 * i]);
                        }
                    }
                    assert forall|i: int| 0 <= i < self.regex_patterns@.len() implies (#[trigger] self.regex_cache@[2 * i + 1] matches Some(rx) ==> rx@
                        == "(?i)^(?:"@ + self.regex_patterns@[i]@ + ")"@) by {
                        if i < old_pats.len() {
                            assert(self.regex_cache@[2 * i + 1] == old_cache[2 * i + 1]);
                        }
                    }
                }
                idx
            },
        }
    }

    /// Makes sure one variant (`case_insensitive` or not) of a raw pattern is
    /// registered and compiled; reports why it does not compile.
    pub fn ensure_compiled(&mut self, raw: &str, case_insensitive: bool) -> (r: Result<(), String>)
        requires
            old(self).wf(),
        ensures
            final(self).wf(),
            final(self).defines == old(self).defines,
            final(self).grammars == old(self).grammars,
            final(self).pattern_indices.spec_get(raw@) is Some,
            r is Ok ==> {
                let i = final(self).pattern_indices.spec_get(raw@)->0 as int;
                final(self).regex_cache@[2 * i + if case_insensitive { 1int } else { 0int }] is Some
            },
            regex_compiles(anchored_variant(raw@, case_insensitive)) ==> r is Ok,
            r matches Err(m) ==> !regex_compiles(anchored_variant(raw@, case_insensitive)) && m@ == "Invalid regex '"@
                + raw@ + "': "@ + regex_error_text(anchored_variant(raw@, case_insensitive)),
    {
        let idx = self.register_pattern(raw);
        let clen = self.regex_cache.len();
        assert(idx * 2 + 1 < clen);
        let slot = if case_insensitive { idx * 2 + 1 } else { idx * 2 };
        if self.regex_cache[slot].is_some() {
            return Ok(());
        }
        let pattern = if case_insensitive { wrap_pattern("(?i)^(?:", raw) } else { wrap_pattern("^(?:", raw) };
        match compile_regex(pattern.as_str()) {
            Ok(rx) => {
                let ghost old_cache = self.regex_cache@;
                self.regex_cache.set(slot, Some(rx));
                proof {
                    assert forall|i: int| 0 <= i < self.regex_patterns@.len() implies (#[trigger] self.regex_cache@[2 * i] matches Some(x) ==> x@
                        == "^(?:"@ + self.regex_patterns@[i]@ + ")"@) by {
                        if 2 * i != slot {
                            assert(self.regex_cache@[2 * i] == old_cache[2 * i]);
                        }
                    }
                    assert forall|i: int| 0 <= i < self.regex_patterns@.len() implies (#[trigger] self.regex_cache@[2 * i + 1] matches Some(x) ==> x@
                        == "(?i)^(?:"@ + self.regex_patterns@[i]@ + ")"@) by {
                        if 2 * i + 1 != slot {
                            assert(self.regex_cache@[2 * i + 1] == old_cache[2 * i + 1]);
                        }
                    }
                }
                Ok(())
            },
            Err(e) => {
                let mut msg = "Invalid regex '".to_string();
                msg.append(raw);
                msg.append("': ");
                msg.append(e.as_str());
                Err(msg)
            },
        }
    }
}

} // verus!

verus! {

/// The texts of a list of strings.
pub open spec fn texts(v: Seq<String>) -> Seq<Seq<char>> {
    v.map_values(|x: String| x@)
}

/// The pattern of a regex literal, as a list of at most one.
pub open spec fn regex_one(e: ExprV) -> Seq<Seq<char>> {
    match e {
        ExprV::Regex(r) => seq![r],
        _ => seq![],
    }
}

/// The regex literals among expressions, in order.
pub open spec fn regexes_of(es: Seq<ExprV>) -> Seq<Seq<char>>
    decreases es.len(),
{
    if es.len() == 0 {
        seq![]
    } else {
        regexes_of(es.drop_last()) + regex_one(es.last())
    }
}

/// The regex literals among the arguments of calls, in order.
pub open spec fn call_regexes(cs: Seq<CallV>) -> Seq<Seq<char>>
    decreases cs.len(),
{
    if cs.len() == 0 {
        seq![]
    } else {
        call_regexes(cs.drop_last()) + regexes_of(cs.last().1)
    }
}

/// The regex literals of alternatives, in order.
pub open spec fn alt_regexes(alts: Seq<AltV>) -> Seq<Seq<char>>
    decreases alts.len(),
{
    if alts.len() == 0 {
        seq![]
    } else {
        alt_regexes(alts.drop_last()) + regexes_of(alts.last().0)
    }
}

/// The regex literals of a statement: match list, then actions; skip pattern;
/// action arguments.
pub open spec fn stmt_regexes(s: StmtV) -> Seq<Seq<char>> {
    match s {
        StmtV::Match(alts, acts, _) => alt_regexes(alts) + call_regexes(acts),
        StmtV::When(alts, acts) => alt_regexes(alts) + call_regexes(acts),
        StmtV::Skip(e) => regex_one(e),
        StmtV::Action(c) => regexes_of(c.1),
    }
}

/// The regex literals of a list of statements, in order.
pub open spec fn stmts_regexes(ss: Seq<StmtV>) -> Seq<Seq<char>>
    decreases ss.len(),
{
    if ss.len() == 0 {
        seq![]
    } else {
        stmts_regexes(ss.drop_last()) + stmt_regexes(ss.last())
    }
}

/// The regex literals of the grammars of a document, grammar by grammar.
pub open spec fn grammars_regexes(gs: Seq<(Seq<char>, GrammarV)>) -> Seq<Seq<char>>
    decreases gs.len(),
{
    if gs.len() == 0 {
        seq![]
    } else {
        grammars_regexes(gs.drop_last()) + stmts_regexes(gs.last().1.2)
    }
}

/// Every regex literal of a document: definitions first, then grammars.
pub open spec fn document_regexes(d: GelDocument) -> Seq<Seq<char>> {
    regexes_of(defines_view(d).map_values(|p: (Seq<char>, ExprV)| p.1)) + grammars_regexes(grammars_view(d))
}

proof fn lemma_prefix_step<T>(s: Seq<T>, i: int)
    requires
        0 <= i < s.len(),
    ensures
        s.subrange(0, i + 1).drop_last() == s.subrange(0, i),
        s.subrange(0, i + 1).last() == s[i],
{
    assert(s.subrange(0, i + 1).drop_last() =~= s.subrange(0, i));
}

fn push_if_regex(e: &Expression, out: &mut Vec<String>)
    ensures
        match e@ {
            ExprV::Regex(r) => final(out)@.len() == old(out)@.len() + 1 && final(out)@.last()@ == r,
            _ => final(out)@ == old(out)@,
        },
        old(out)@.is_prefix_of(final(out)@),
        texts(final(out)@) == texts(old(out)@) + regex_one(e@),
{
    match e {
        Expression::Regex(r) => {
            out.push(r.clone());
            proof {
                assert(old(out)@ =~= out@.subrange(0, old(out)@.len() as int));
                assert(texts(out@) =~= texts(old(out)@) + seq![r@]);
            }
        },
        _ => {
            proof {
                assert(old(out)@ =~= out@.subrange(0, old(out)@.len() as int));
                assert(texts(out@) =~= texts(old(out)@) + Seq::<Seq<char>>::empty());
            }
        },
    }
}

fn push_regexes(es: &[Expression], out: &mut Vec<String>)
    ensures
        texts(final(out)@) == texts(old(out)@) + regexes_of(exprs_view(es@)),
{
    let ghost ev = exprs_view(es@);
    let mut i: usize = 0;
    proof {
        assert(ev.subrange(0, 0) =~= Seq::<ExprV>::empty());
        assert(texts(out@) =~= texts(old(out)@) + Seq::<Seq<char>>::empty());
    }
    while i < es.len()
        invariant
            i <= es@.len(),
            ev == exprs_view(es@),
            texts(out@) == texts(old(out)@) + regexes_of(ev.subrange(0, i as int)),
        decreases es@.len() - i,
    {
        push_if_regex(&es[i], out);
        proof {
            lemma_prefix_step(ev, i as int);
            assert(texts(out@) =~= texts(old(out)@) + regexes_of(ev.subrange(0, i + 1)));
        }
        i = i + 1;
    }
    proof {
        assert(ev.subrange(0, i as int) =~= ev);
    }
}

fn push_action_regexes(acts: &[crate::parser::ast::FunctionCall], out: &mut Vec<String>)
    ensures
        texts(final(out)@) == texts(old(out)@) + call_regexes(calls_view(acts@)),
{
    let ghost cv = calls_view(acts@);
    let mut i: usize = 0;
    proof {
        assert(cv.subrange(0, 0) =~= Seq::<CallV>::empty());
        assert(texts(out@) =~= texts(old(out)@) + Seq::<Seq<char>>::empty());
    }
    while i < acts.len()
        invariant
            i <= acts@.len(),
            cv == calls_view(acts@),
            texts(out@) == texts(old(out)@) + call_regexes(cv.subrange(0, i as int)),
        decreases acts@.len() - i,
    {
        push_regexes(acts[i].args.as_slice(), out);
        proof {
            lemma_prefix_step(cv, i as int);
            assert(texts(out@) =~= texts(old(out)@) + call_regexes(cv.subrange(0, i + 1)));
        }
        i = i + 1;
    }
    proof {
        assert(cv.subrange(0, i as int) =~= cv);
    }
}

fn push_list_regexes(alts: &[MatchFieldList], out: &mut Vec<String>)
    ensures
        texts(final(out)@) == texts(old(out)@) + alt_regexes(alts_view(alts@)),
{
    let ghost av = alts_view(alts@);
    let mut i: usize = 0;
    proof {
        assert(av.subrange(0, 0) =~= Seq::<AltV>::empty());
        assert(texts(out@) =~= texts(old(out)@) + Seq::<Seq<char>>::empty());
    }
    while i < alts.len()
        invariant
            i <= alts@.len(),
            av == alts_view(alts@),
            texts(out@) == texts(old(out)@) + alt_regexes(av.subrange(0, i as int)),
        decreases alts@.len() - i,
    {
        push_regexes(alts[i].expressions.as_slice(), out);
        proof {
            lemma_prefix_step(av, i as int);
            assert(texts(out@) =~= texts(old(out)@) + alt_regexes(av.subrange(0, i + 1)));
        }
        i = i + 1;
    }
    proof {
        assert(av.subrange(0, i as int) =~= av);
    }
}

/// Every regex literal of a statement: match lists, skip pattern, action arguments.
fn statement_regexes(stmt: &Statement, out: &mut Vec<String>)
    ensures
        texts(final(out)@) == texts(old(out)@) + stmt_regexes(stmt_view(*stmt)),
{
    match stmt {
        Statement::Match(m) => {
            let ghost o0 = texts(out@);
            push_list_regexes(m.match_list.alternatives.as_slice(), out);
            push_action_regexes(m.actions.as_slice(), out);
            proof {
                assert(texts(out@) =~= o0 + stmt_regexes(stmt_view(*stmt)));
            }
        },
        Statement::When(w) => {
            let ghost o0 = texts(out@);
            push_list_regexes(w.match_list.alternatives.as_slice(), out);
            push_action_regexes(w.actions.as_slice(), out);
            proof {
                assert(texts(out@) =~= o0 + stmt_regexes(stmt_view(*stmt)));
            }
        },
        Statement::Skip(s) => push_if_regex(&s.pattern, out),
        Statement::Action(a) => push_regexes(a.args.as_slice(), out),
    }
}

fn inline_exprs(es: &mut Vec<Expression>, defines: &NameMap<Expression>)
    ensures
        final(es)@.len() == old(es)@.len(),
        forall|k: int| 0 <= k < old(es)@.len() ==> #[trigger] final(es)@[k]@ == inline_spec(old(es)@[k]@, defines.entries@),
        exprs_view(final(es)@) == inline_all(exprs_view(old(es)@), defines.entries@),
{
    let n = es.len();
    let mut i: usize = 0;
    while i < n
        invariant
            i <= n == es@.len() == old(es)@.len(),
            forall|k: int| 0 <= k < i ==> #[trigger] es@[k]@ == inline_spec(old(es)@[k]@, defines.entries@),
            forall|k: int| i <= k < n ==> #[trigger] es@[k] == old(es)@[k],
        decreases n - i,
    {
        inline_expr(&mut es[i], defines);
        i = i + 1;
    }
    proof {
        assert(exprs_view(es@) =~= inline_all(exprs_view(old(es)@), defines.entries@));
    }
}

/// Inlines the variables of each field list of a match list.
fn inline_list(alts: &mut Vec<MatchFieldList>, defines: &NameMap<Expression>)
    ensures
        final(alts)@.len() == old(alts)@.len(),
        alts_view(final(alts)@) == alts_view(old(alts)@).map_values(|a: AltV| (inline_all(a.0, defines.entries@), a.1)),
        final(alts)@.map_values(|a: MatchFieldList| alt_matcher(a)) == old(alts)@.map_values(
            |a: MatchFieldList| alt_matcher(a),
        ),
{
    let n = alts.len();
    let mut ai: usize = 0;
    while ai < n
        invariant
            ai <= n == alts@.len() == old(alts)@.len(),
            forall|k: int| 0 <= k < ai ==> exprs_view((#[trigger] alts@[k]).expressions@) == inline_all(
                exprs_view(old(alts)@[k].expressions@),
                defines.entries@,
            ) && alts@[k].flags == old(alts)@[k].flags && alt_matcher(alts@[k]) == alt_matcher(old(alts)@[k]),
            forall|k: int| ai <= k < n ==> #[trigger] alts@[k] == old(alts)@[k],
        decreases n - ai,
    {
        inline_exprs(&mut alts[ai].expressions, defines);
        ai = ai + 1;
    }
    proof {
        assert(alts_view(alts@) =~= alts_view(old(alts)@).map_values(|a: AltV| (inline_all(a.0, defines.entries@), a.1)));
        assert(alts@.map_values(|a: MatchFieldList| alt_matcher(a)) =~= old(alts)@.map_values(
            |a: MatchFieldList| alt_matcher(a),
        ));
    }
}

fn inline_statement(stmt: &mut Statement, defines: &NameMap<Expression>)
    ensures
        stmt_view(*final(stmt)) == inline_stmt(stmt_view(*old(stmt)), defines.entries@),
        statement_matchers(*final(stmt)) == statement_matchers(*old(stmt)),
{
    match stmt {
        Statement::Match(m) => inline_list(&mut m.match_list.alternatives, defines),
        Statement::When(w) => inline_list(&mut w.match_list.alternatives, defines),
        Statement::Skip(s) => inline_expr(&mut s.pattern, defines),
        Statement::Action(a) => inline_exprs(&mut a.args, defines),
    }
}

impl GelDocument {
    /// Replaces every variable of the match lists, skip patterns and bare
    /// actions by what it resolves to (see [`inline_spec`]); actions of
    /// `match`/`when` statements keep theirs.
    pub fn resolve_defines_inline(&mut self)
        requires
            old(self).wf(),
        ensures
            final(self).wf(),
            final(self).defines == old(self).defines,
            final(self).regex_patterns@ == old(self).regex_patterns@,
            final(self).pattern_indices == old(self).pattern_indices,
            final(self).grammars.entries@.len() == old(self).grammars.entries@.len(),
            forall|k: int| 0 <= k < old(self).grammars.entries@.len() ==> (#[trigger] final(self).grammars.entries@[k]).0 == old(self).grammars.entries@[k].0,
            forall|k: int|
                0 <= k < old(self).grammars.entries@.len() ==> grammar_inlined(
                    (#[trigger] final(self).grammars.entries@[k]).1,
                    old(self).grammars.entries@[k].1,
                    old(self).defines.entries@,
                ),
    {
        let n = self.grammars.entries.len();
        let mut gi: usize = 0;
        while gi < n
            invariant
                gi <= n,
                self.wf(),
                self.defines == old(self).defines,
                self.regex_patterns@ == old(self).regex_patterns@,
                self.pattern_indices == old(self).pattern_indices,
                n == self.grammars.entries@.len(),
                forall|k: int| 0 <= k < n ==> (#[trigger] self.grammars.entries@[k]).0 == old(self).grammars.entries@[k].0,
                forall|k: int| 0 <= k < gi ==> grammar_inlined(
                    (#[trigger] self.grammars.entries@[k]).1,
                    old(self).grammars.entries@[k].1,
                    old(self).defines.entries@,
                ),
                forall|k: int| gi <= k < n ==> (#[trigger] self.grammars.entries@[k]).1 == old(self).grammars.entries@[k].1,
            decreases n - gi,
        {
            let ns = self.grammars.entries[gi].1.statements.len();
            let mut si: usize = 0;
            while si < ns
                invariant
                    si <= ns,
                    gi < n,
                    self.wf(),
                    self.defines == old(self).defines,
                    self.regex_patterns@ == old(self).regex_patterns@,
                    self.pattern_indices == old(self).pattern_indices,
                    n == self.grammars.entries@.len(),
                    ns == self.grammars.entries@[gi as int].1.statements@.len(),
                    forall|k: int| 0 <= k < n ==> (#[trigger] self.grammars.entries@[k]).0 == old(self).grammars.entries@[k].0,
                    forall|k: int| 0 <= k < gi ==> grammar_inlined(
                        (#[trigger] self.grammars.entries@[k]).1,
                        old(self).grammars.entries@[k].1,
                        old(self).defines.entries@,
                    ),
                    forall|k: int| gi < k < n ==> (#[trigger] self.grammars.entries@[k]).1 == old(self).grammars.entries@[k].1,
                    self.grammars.entries@[gi as int].1.name == old(self).grammars.entries@[gi as int].1.name,
                    self.grammars.entries@[gi as int].1.inherit == old(self).grammars.entries@[gi as int].1.inherit,
                    ns == old(self).grammars.entries@[gi as int].1.statements@.len(),
                    forall|t: int| 0 <= t < si ==> stmt_view(#[trigger] self.grammars.entries@[gi as int].1.statements@[t])
                        == inline_stmt(stmt_view(old(self).grammars.entries@[gi as int].1.statements@[t]), old(self).defines.entries@)
                        && statement_matchers(self.grammars.entries@[gi as int].1.statements@[t]) == statement_matchers(
                            old(self).grammars.entries@[gi as int].1.statements@[t],
                        ),
                    forall|t: int| si <= t < ns ==> #[trigger] self.grammars.entries@[gi as int].1.statements@[t]
                        == old(self).grammars.entries@[gi as int].1.statements@[t],
                decreases ns - si,
            {
                inline_statement(&mut self.grammars.entries[gi].1.statements[si], &self.defines);
                si = si + 1;
            }
            gi = gi + 1;
        }
    }

    /// Registers and compiles every regex literal of the document (both case
    /// variants), then prepares the field lists and inlines the defines.
    pub fn compile_regexes(&mut self)
        requires
            old(self).wf(),
        ensures
            final(self).wf(),
            final(self).defines == old(self).defines,
            final(self).grammars.entries@.len() == old(self).grammars.entries@.len(),
            forall|k: int| 0 <= k < old(self).grammars.entries@.len() ==> (#[trigger] final(self).grammars.entries@[k]).0 == old(self).grammars.entries@[k].0,
            forall|k: int|
                0 <= k < old(self).grammars.entries@.len() ==> grammar_compiled(
                    (#[trigger] final(self).grammars.entries@[k]).1,
                    old(self).grammars.entries@[k].1,
                    old(self).defines.entries@,
                ),
            forall|i: int|
                0 <= i < document_regexes(*old(self)).len() ==> final(self).pattern_indices.spec_get(
                    #[trigger] document_regexes(*old(self))[i],
                ) is Some,
            forall|x: Seq<char>| (#[trigger] old(self).pattern_indices.spec_get(x)) is Some ==> final(self).pattern_indices.spec_get(x)
                == old(self).pattern_indices.spec_get(x),
    {
        let ghost dv = defines_view(*self).map_values(|p: (Seq<char>, ExprV)| p.1);
        let ghost gv = grammars_view(*self);
        let mut found: Vec<String> = Vec::new();
        let mut di: usize = 0;
        proof {
            assert(dv.subrange(0, 0) =~= Seq::<ExprV>::empty());
            assert(texts(found@) =~= Seq::<Seq<char>>::empty());
        }
        while di < self.defines.entries.len()
            invariant
                di <= self.defines.entries@.len(),
                *self == *old(self),
                dv == defines_view(*self).map_values(|p: (Seq<char>, ExprV)| p.1),
                texts(found@) == regexes_of(dv.subrange(0, di as int)),
            decreases self.defines.entries@.len() - di,
        {
            push_if_regex(&self.defines.entries[di].1, &mut found);
            proof {
                lemma_prefix_step(dv, di as int);
                assert(dv[di as int] == self.defines.entries@[di as int].1@);
            }
            di = di + 1;
        }
        let ghost rd = texts(found@);
        proof {
            assert(dv.subrange(0, di as int) =~= dv);
            assert(gv.subrange(0, 0) =~= Seq::<(Seq<char>, GrammarV)>::empty());
            assert(texts(found@) =~= rd + Seq::<Seq<char>>::empty());
        }
        let mut gi: usize = 0;
        while gi < self.grammars.entries.len()
            invariant
                gi <= self.grammars.entries@.len(),
                *self == *old(self),
                gv == grammars_view(*self),
                texts(found@) == rd + grammars_regexes(gv.subrange(0, gi as int)),
            decreases self.grammars.entries@.len() - gi,
        {
            let stmts = &self.grammars.entries[gi].1.statements;
            let ghost sv = stmts_view(stmts@);
            let ghost before = texts(found@);
            let mut si: usize = 0;
            proof {
                assert(sv.subrange(0, 0) =~= Seq::<StmtV>::empty());
                assert(texts(found@) =~= before + Seq::<Seq<char>>::empty());
            }
            while si < stmts.len()
                invariant
                    si <= stmts@.len(),
                    sv == stmts_view(stmts@),
                    texts(found@) == before + stmts_regexes(sv.subrange(0, si as int)),
                decreases stmts@.len() - si,
            {
                statement_regexes(&stmts[si], &mut found);
                proof {
                    lemma_prefix_step(sv, si as int);
                    assert(texts(found@) =~= before + stmts_regexes(sv.subrange(0, si + 1)));
                }
                si = si + 1;
            }
            proof {
                assert(sv.subrange(0, si as int) =~= sv);
                lemma_prefix_step(gv, gi as int);
                assert(gv[gi as int].1.2 == sv);
                assert(texts(found@) =~= rd + grammars_regexes(gv.subrange(0, gi + 1)));
            }
            gi = gi + 1;
        }
        proof {
            assert(gv.subrange(0, gi as int) =~= gv);
            assert(texts(found@) =~= document_regexes(*old(self)));
        }
        let ghost all = texts(found@);
        let mut k: usize = 0;
        while k < found.len()
            invariant
                k <= found@.len(),
                all == texts(found@),
                self.wf(),
                self.defines == old(self).defines,
                self.grammars == old(self).grammars,
                forall|j: int| 0 <= j < k ==> self.pattern_indices.spec_get(#[trigger] all[j]) is Some,
                forall|x: Seq<char>| (#[trigger] old(self).pattern_indices.spec_get(x)) is Some ==> self.pattern_indices.spec_get(x)
                    == old(self).pattern_indices.spec_get(x),
            decreases found@.len() - k,
        {
            let ghost before = self.pattern_indices;
            self.register_pattern(found[k].as_str());
            proof {
                assert forall|j: int| 0 <= j < k + 1 implies self.pattern_indices.spec_get(#[trigger] all[j]) is Some by {
                    if j < k {
                        assert(before.spec_get(all[j]) is Some);
                    } else {
                        assert(all[j] == found@[j]@);
                    }
                }
            }
            k = k + 1;
        }
        let ghost mid = self.grammars;
        let ghost mid_doc = *self;
        self.compile_field_list_regexes();
        let ghost prepared = *self;
        self.resolve_defines_inline();
        proof {
            assert forall|k: int| 0 <= k < old(self).grammars.entries@.len() implies (#[trigger] self.grammars.entries@[k]).0 == old(self).grammars.entries@[k].0 by {
                assert(mid.entries@[k].0 == old(self).grammars.entries@[k].0);
            }
            assert forall|k: int| 0 <= k < old(self).grammars.entries@.len() implies grammar_compiled(
                (#[trigger] self.grammars.entries@[k]).1,
                old(self).grammars.entries@[k].1,
                old(self).defines.entries@,
            ) by {
                assert(grammar_prepared(prepared.grammars.entries@[k].1, mid_doc.grammars.entries@[k].1, old(self).defines.entries@));
                assert(grammar_inlined(self.grammars.entries@[k].1, prepared.grammars.entries@[k].1, old(self).defines.entries@));
                assert(mid_doc.grammars.entries@[k].1 == old(self).grammars.entries@[k].1);
            }
        }
    }
}

} // verus!
