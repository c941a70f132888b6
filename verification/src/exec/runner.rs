//! The runtime: runs a grammar of a compiled document against an input text,
//! building the output tree.

use vstd::prelude::*;
use vstd::string::*;
use crate::bytes::{starts_with_bytes, starts_with_nocase};
use crate::errors::{is_grammar_not_found, Diagnostic, GelError, Severity};
use crate::exec::out::{
    ActionExecutor, FlatTree, OutputTree, PathSegment, RuntimeAction, attribute_added, parse_path, parse_path_spec, path_added,
    path_created, path_replaced, percent_decode_spec, percent_encode, scope_pushed, segs_of,
};
use crate::exec::skip::try_fast_skip_kind;
use crate::exec::streaming::{fired, fires};
use crate::exec::matching::{
    expr_text, literal_text, substituted_arg, substituted_call, capture_ref, interpolated, is_ref_char, ref_end, alts_at, skip_at, field_list_at, seq_at, base_at, expr_at_input, first_named, names_view, text_at, texts_view,
    found_caps, found_groups, groups_view, opt_text, range_text, regex_at, GroupV, REGEX_WINDOW,
};
use crate::parser::ast::{
    calls_view, find_key, CallV, exprs_view,
    Expression, ExprV, FastPathKind, FunctionCall, GelDocument, MatchFieldList, MatchStatement, SkipStatement,
    Statement, WhenStatement,
};
use crate::parser::compile::resolve_variable;
use crate::parser::lexer::is_ascii_digit_c;
use crate::parser::syntax::parse_int_spec;
use crate::pattern::{CompiledRegex, compile_regex, regex_compiles, regex_captures, regex_captures_len, regex_capture_names, regex_group_names};
use crate::text::{utf8_lossy, bytes_to_string, i64_to_string, str_eq, str_to_bytes, str_to_chars, usize_to_string, chars_to_string};

verus! {

/// Deepest nesting of grammar calls; a deeper call matches nothing.
pub const MAX_GRAMMAR_DEPTH: usize = 1000;


/// Result of executing a grammar against runtime input.
#[derive(Debug)]
pub struct ExecutionResult {
    pub consumed: usize,
    pub actions: Vec<FunctionCall>,
    pub traces: Vec<String>,
    pub diagnostics: Vec<Diagnostic>,
    pub capture_history: Vec<Vec<String>>,
    pub capture_names_history: Vec<Vec<Option<String>>>,
    pub output: OutputTree,
    /// The compacted, flattened output tree, built once the run is over.
    pub flat: Option<FlatTree>,
    pub error: Option<String>,
}

impl ExecutionResult {
    fn with_capacity_hint(input_bytes: usize) -> (r: ExecutionResult)
        ensures
            r.output.wf(),
            r.output.spec_node_count() == 1,
            r.output.spec_stack() == seq![0u32],
            r.output.spec_name(0) == "."@,
            r.output.spec_text(0) is None,
            r.output.spec_children(0).len() == 0,
            r.consumed == 0,
            r.actions@.len() == 0,
            r.traces@.len() == 0,
            r.diagnostics@.len() == 0,
            r.capture_history@.len() == 0,
            r.capture_names_history@.len() == 0,
            r.flat is None,
            r.error is None,
    {
        ExecutionResult {
            consumed: 0,
            actions: Vec::new(),
            traces: Vec::new(),
            diagnostics: Vec::new(),
            capture_history: Vec::new(),
            capture_names_history: Vec::new(),
            output: OutputTree::with_capacity_hint(input_bytes),
            flat: None,
            error: None,
        }
    }

    /// Records a trace line and the diagnostic of the same text.
    fn trace(&mut self, severity: Severity, msg: String)
        ensures
            final(self).traces@ == old(self).traces@.push(msg),
            final(self).diagnostics@.len() == old(self).diagnostics@.len() + 1,
            final(self).diagnostics@.last().severity == severity,
            final(self).diagnostics@.last().message@ == msg@,
            final(self).diagnostics@.last().span is None,
            forall|k: int| 0 <= k < old(self).diagnostics@.len() ==> #[trigger] final(self).diagnostics@[k] == old(self).diagnostics@[k],
            final(self).output == old(self).output,
            final(self).consumed == old(self).consumed,
            final(self).error == old(self).error,
            diags_in_traces(old(self)) ==> diags_in_traces(final(self)),
    {
        let ghost d0 = self.diagnostics@.map_values(|d: Diagnostic| d.message@);
        let ghost t0 = self.traces@.map_values(|t: String| t@);
        let m2 = msg.clone();
        self.traces.push(msg);
        self.diagnostics.push(Diagnostic { severity, message: m2, span: None });
        proof {
            let d1 = self.diagnostics@.map_values(|d: Diagnostic| d.message@);
            let t1 = self.traces@.map_values(|t: String| t@);
            assert(d1 =~= d0.push(m2@));
            assert(t1 =~= t0.push(m2@));
            assert(d1.drop_last() =~= d0);
            assert(t1.drop_last() =~= t0);
        }
    }
}

/// Mutable execution context: the document, the input bytes and the position.
pub struct Context<'a> {
    pub doc: &'a GelDocument,
    pub input: Vec<u8>,
    pub pos: usize,
    pub captures: Vec<String>,
}

impl<'a> Context<'a> {
    pub fn new(doc: &'a GelDocument, input: &str) -> (r: Context<'a>)
        ensures
            r.doc == doc,
            r.input@ == input.spec_bytes(),
            r.pos == 0,
    {
        Context { doc, input: str_to_bytes(input), pos: 0, captures: Vec::new() }
    }
}

/// An enqueued trigger: the path to add to and the optional value.
pub struct TriggerAction {
    pub path: String,
    pub value: Option<String>,
}

/// When a trigger list fires.
#[derive(Clone, Copy, PartialEq, Eq, Structural)]
pub enum TriggerKind {
    Before,
    After,
    OnAdd,
    OnLeave,
}

/// The slot of a trigger list: single-shot lists first, then the persistent ones.
pub open spec fn slot_of(kind: TriggerKind, persist: bool) -> int {
    (match kind {
        TriggerKind::Before => 0int,
        TriggerKind::After => 1int,
        TriggerKind::OnAdd => 2int,
        TriggerKind::OnLeave => 3int,
    }) + if persist { 4int } else { 0int }
}

fn slot(kind: TriggerKind, persist: bool) -> (r: usize)
    ensures
        r == slot_of(kind, persist),
        r < 8,
{
    let base: usize = match kind {
        TriggerKind::Before => 0,
        TriggerKind::After => 1,
        TriggerKind::OnAdd => 2,
        TriggerKind::OnLeave => 3,
    };
    if persist { base + 4 } else { base }
}

/// Statement-level execution engine.
pub struct Runner<'a> {
    ctx: Context<'a>,
    /// Trigger lists, by [`slot_of`].
    triggers: Vec<Vec<(CompiledRegex, TriggerAction)>>,
    last_match_text: Vec<u8>,
    last_captures: Vec<String>,
    last_capture_names: Vec<Option<String>>,
    /// For each grammar, its statements and those it inherits, as
    /// (grammar index, statement index), ancestors' first.
    chains: Vec<Vec<(usize, usize)>>,
}

/// The grammar a grammar names as its parent, when the document holds it.
pub open spec fn parent_index(doc: GelDocument, g: int) -> Option<int> {
    match doc.grammars.entries@[g].1.inherit {
        Some(p) => find_key(doc.grammars.entries@, p@),
        None => None,
    }
}

/// The chain of grammars from `up` on, following parents at most `steps`
/// more times, up to a missing or repeated parent.
pub open spec fn chain_up(doc: GelDocument, up: Seq<usize>, steps: nat) -> Seq<usize>
    decreases steps,
{
    if steps == 0 {
        up
    } else {
        match parent_index(doc, up.last() as int) {
            None => up,
            Some(p) => if up.contains(p as usize) {
                up
            } else {
                chain_up(doc, up.push(p as usize), (steps - 1) as nat)
            },
        }
    }
}

/// The grammars a grammar inherits from, farthest first, the grammar itself
/// last.
pub open spec fn inherited(doc: GelDocument, gi: int) -> Seq<usize> {
    chain_up(doc, seq![gi as usize], doc.grammars.entries@.len()).reverse()
}

/// The statements of a list of grammars as (grammar, statement) pairs, in order.
pub open spec fn chain_statements(doc: GelDocument, gs: Seq<usize>) -> Seq<(usize, usize)>
    decreases gs.len(),
{
    if gs.len() == 0 {
        seq![]
    } else {
        chain_statements(doc, gs.drop_last()) + Seq::new(
            doc.grammars.entries@[gs.last() as int].1.statements@.len(),
            |s: int| (gs.last(), s as usize),
        )
    }
}

/// The grammars a grammar inherits from, nearest last: the parent chain followed
/// until a parent is missing or repeats, then reversed.
pub fn collect_inherited_grammars(doc: &GelDocument, gi: usize) -> (r: Vec<usize>)
    requires
        gi < doc.grammars.entries@.len(),
    ensures
        r@.len() >= 1,
        r@.last() == gi,
        forall|k: int| 0 <= k < r@.len() ==> #[trigger] r@[k] < doc.grammars.entries@.len(),
        r@ == inherited(*doc, gi as int),
{
    let n = doc.grammars.len();
    let mut up: Vec<usize> = Vec::new();
    up.push(gi);
    let mut cur = gi;
    let mut steps: usize = 0;
    proof {
        assert(up@ =~= seq![gi]);
    }
    while steps < n
        invariant
            n == doc.grammars.entries@.len(),
            cur < n,
            up@.len() >= 1,
            up@[0] == gi,
            cur == up@.last(),
            steps <= n,
            forall|k: int| 0 <= k < up@.len() ==> #[trigger] up@[k] < n,
            chain_up(*doc, seq![gi], n as nat) == chain_up(*doc, up@, (n - steps) as nat),
        ensures
            up@.len() >= 1,
            up@[0] == gi,
            forall|k: int| 0 <= k < up@.len() ==> #[trigger] up@[k] < n,
            chain_up(*doc, seq![gi], n as nat) == up@,
        decreases n - steps,
    {
        let parent = match &doc.grammars.entries[cur].1.inherit {
            Some(p) => doc.grammars.index_of(p.as_str()),
            None => None,
        };
        proof {
            assert(parent matches Some(pi) ==> parent_index(*doc, cur as int) == Some(pi as int));
            assert(parent is None ==> parent_index(*doc, cur as int) is None);
        }
        match parent {
            None => { break; },
            Some(p) => {
                let mut seen = false;
                let mut k: usize = 0;
                while k < up.len()
                    invariant
                        k <= up@.len(),
                        seen == up@.subrange(0, k as int).contains(p),
                    decreases up@.len() - k,
                {
                    proof {
                        let a = up@.subrange(0, k as int);
                        let b = up@.subrange(0, k + 1);
                        assert(b =~= a.push(up@[k as int]));
                        if a.contains(p) {
                            let w = choose|w: int| 0 <= w < a.len() && a[w] == p;
                            assert(b[w] == p);
                        }
                        if b.contains(p) && up@[k as int] != p {
                            let w = choose|w: int| 0 <= w < b.len() && b[w] == p;
                            assert(a[w] == p);
                        }
                        if up@[k as int] == p {
                            assert(b[k as int] == p);
                        }
                    }
                    if up[k] == p {
                        seen = true;
                    }
                    k = k + 1;
                }
                proof {
                    assert(up@.subrange(0, up@.len() as int) =~= up@);
                }
                if seen {
                    break;
                }
                up.push(p);
                cur = p;
            },
        }
        steps = steps + 1;
    }
    let mut r: Vec<usize> = Vec::new();
    let mut k = up.len();
    proof {
        assert(up@.subrange(k as int, up@.len() as int).reverse() =~= r@);
    }
    while k > 0
        invariant
            k <= up@.len(),
            up@.len() >= 1,
            up@[0] == gi,
            r@ =~= up@.subrange(k as int, up@.len() as int).reverse(),
            forall|j: int| 0 <= j < up@.len() ==> #[trigger] up@[j] < n,
            n == doc.grammars.entries@.len(),
        decreases k,
    {
        k = k - 1;
        let ghost prev = r@;
        r.push(up[k]);
        proof {
            assert(up@.subrange(k as int, up@.len() as int).reverse() =~= prev.push(up@[k as int]));
        }
    }
    proof {
        assert(up@.subrange(0, up@.len() as int) =~= up@);
        assert(r@.last() == up@[0]);
        assert forall|j: int| 0 <= j < r@.len() implies #[trigger] r@[j] < n by {
            assert(r@[j] == up@[up@.len() - 1 - j]);
        }
    }
    r
}

/// The statements of a grammar and of those it inherits, ancestors' first.
pub(crate) fn statement_chain(doc: &GelDocument, gi: usize) -> (r: Vec<(usize, usize)>)
    requires
        gi < doc.grammars.entries@.len(),
    ensures
        forall|k: int| 0 <= k < r@.len() ==> (#[trigger] r@[k]).0 < doc.grammars.entries@.len()
            && r@[k].1 < doc.grammars.entries@[r@[k].0 as int].1.statements@.len(),
        r@ == chain_statements(*doc, inherited(*doc, gi as int)),
{
    let gs = collect_inherited_grammars(doc, gi);
    let mut out: Vec<(usize, usize)> = Vec::new();
    let mut i: usize = 0;
    proof {
        assert(gs@.subrange(0, 0) =~= Seq::<usize>::empty());
    }
    while i < gs.len()
        invariant
            i <= gs@.len(),
            forall|k: int| 0 <= k < gs@.len() ==> #[trigger] gs@[k] < doc.grammars.entries@.len(),
            forall|k: int| 0 <= k < out@.len() ==> (#[trigger] out@[k]).0 < doc.grammars.entries@.len()
                && out@[k].1 < doc.grammars.entries@[out@[k].0 as int].1.statements@.len(),
            out@ == chain_statements(*doc, gs@.subrange(0, i as int)),
        decreases gs@.len() - i,
    {
        let g = gs[i];
        let ns = doc.grammars.entries[g].1.statements.len();
        let ghost base = out@;
        let mut s: usize = 0;
        while s < ns
            invariant
                s <= ns == doc.grammars.entries@[g as int].1.statements@.len(),
                g < doc.grammars.entries@.len(),
                forall|k: int| 0 <= k < out@.len() ==> (#[trigger] out@[k]).0 < doc.grammars.entries@.len()
                    && out@[k].1 < doc.grammars.entries@[out@[k].0 as int].1.statements@.len(),
                out@ =~= base + Seq::new(s as nat, |t: int| (g, t as usize)),
            decreases ns - s,
        {
            out.push((g, s));
            s = s + 1;
        }
        proof {
            assert(gs@.subrange(0, i + 1).drop_last() =~= gs@.subrange(0, i as int));
            assert(gs@.subrange(0, i + 1).last() == g);
        }
        i = i + 1;
    }
    proof {
        assert(gs@.subrange(0, gs@.len() as int) =~= gs@);
    }
    out
}

} // verus!

verus! {

/// A capture group's text, or the empty string for a group that took no part.
pub(crate) fn group_text(text: &[u8], g: Option<(usize, usize)>) -> (r: String)
    requires
        g matches Some(x) ==> x.0 <= x.1 <= text@.len(),
    ensures
        r@ == range_text(text@, g),
{
    match g {
        Some((s, e)) => bytes_to_string(vstd::slice::slice_subrange(text, s, e)),
        None => String::new(),
    }
}

/// The window of at most [`REGEX_WINDOW`] bytes a regex is matched against.
fn window(rem: &[u8]) -> (w: &[u8])
    ensures
        w@ == rem@.subrange(0, if rem@.len() < REGEX_WINDOW { rem@.len() as int } else { REGEX_WINDOW as int }),
{
    let n = if rem.len() < REGEX_WINDOW { rem.len() } else { REGEX_WINDOW };
    vstd::slice::slice_subrange(rem, 0, n)
}

/// Groups matched by an expression: (text, group name).
pub type Groups = Vec<(String, Option<String>)>;

impl<'a> Runner<'a> {
    /// The runner's invariant: the position lies in the input and the tables
    /// it built agree with the document.
    pub closed spec fn inv(&self) -> bool {
        &&& self.ctx.pos <= self.ctx.input@.len()
        &&& self.ctx.doc.wf()
        &&& self.triggers@.len() == 8
        &&& self.chains@.len() == self.ctx.doc.grammars.entries@.len()
        &&& forall|g: int, k: int|
            0 <= g < self.chains@.len() && 0 <= k < self.chains@[g]@.len() ==> (#[trigger] self.chains@[g]@[k]).0
                < self.ctx.doc.grammars.entries@.len() && self.chains@[g]@[k].1
                < self.ctx.doc.grammars.entries@[self.chains@[g]@[k].0 as int].1.statements@.len()
        &&& forall|g: int| 0 <= g < self.chains@.len() ==> #[trigger] self.chains@[g]@ == chain_statements(*self.ctx.doc, inherited(*self.ctx.doc, g))
    }

    /// The position in the input.
    pub closed spec fn spec_pos(&self) -> nat {
        self.ctx.pos as nat
    }

    /// The input from the current position on.
    pub closed spec fn spec_rest(&self) -> Seq<u8> {
        self.ctx.input@.subrange(self.ctx.pos as int, self.ctx.input@.len() as int)
    }

    /// The input length.
    pub closed spec fn spec_len(&self) -> nat {
        self.ctx.input@.len()
    }

    /// The input text's bytes.
    pub closed spec fn spec_input(&self) -> Seq<u8> {
        self.ctx.input@
    }

    /// The document.
    pub closed spec fn spec_doc(&self) -> &'a GelDocument {
        self.ctx.doc
    }

    pub fn new(doc: &'a GelDocument, input: &str) -> (r: Runner<'a>)
        requires
            doc.wf(),
        ensures
            r.inv(),
            r.spec_pos() == 0,
            r.spec_doc() == doc,
            r.spec_len() == input.spec_bytes().len(),
            r.spec_input() == input.spec_bytes(),
    {
        let mut chains: Vec<Vec<(usize, usize)>> = Vec::new();
        let n = doc.grammars.len();
        let mut gi: usize = 0;
        while gi < n
            invariant
                gi <= n == doc.grammars.entries@.len(),
                chains@.len() == gi,
                forall|g: int, k: int|
                    0 <= g < chains@.len() && 0 <= k < chains@[g]@.len() ==> (#[trigger] chains@[g]@[k]).0
                        < doc.grammars.entries@.len() && chains@[g]@[k].1
                        < doc.grammars.entries@[chains@[g]@[k].0 as int].1.statements@.len(),
                forall|g: int| 0 <= g < chains@.len() ==> #[trigger] chains@[g]@ == chain_statements(*doc, inherited(*doc, g)),
            decreases n - gi,
        {
            chains.push(statement_chain(doc, gi));
            gi = gi + 1;
        }
        let mut triggers: Vec<Vec<(CompiledRegex, TriggerAction)>> = Vec::new();
        let mut t: usize = 0;
        while t < 8
            invariant
                t <= 8,
                triggers@.len() == t,
            decreases 8 - t,
        {
            triggers.push(Vec::new());
            t = t + 1;
        }
        Runner {
            ctx: Context::new(doc, input),
            triggers,
            last_match_text: Vec::new(),
            last_captures: Vec::new(),
            last_capture_names: Vec::new(),
            chains,
        }
    }

    /// The input from the current position on.
    fn remaining(&self) -> (r: &[u8])
        requires
            self.inv(),
        ensures
            r@ == self.ctx.input@.subrange(self.ctx.pos as int, self.ctx.input@.len() as int),
    {
        vstd::slice::slice_subrange(self.ctx.input.as_slice(), self.ctx.pos, self.ctx.input.len())
    }

    /// Matches a regex literal at the start of `rem`: the length matched and the
    /// groups (group 0 first, then each inner group with its name).
    fn eval_regex(&self, r: &String, rem: &[u8], ci: bool) -> (res: Option<(usize, Groups)>)
        requires
            self.inv(),
        ensures
            res matches Some(x) ==> x.0 <= rem@.len(),
            found_groups(res) == regex_at(*self.ctx.doc, r@, rem@, ci),
    {
        let idx = match self.ctx.doc.pattern_indices.get(r.as_str()) {
            Some(i) => *i,
            None => { return None; },
        };
        let clen = self.ctx.doc.regex_cache.len();
        if idx >= clen / 2 {
            return None;
        }
        let slot = if ci { idx * 2 + 1 } else { idx * 2 };
        let compiled = match &self.ctx.doc.regex_cache[slot] {
            Some(rx) => rx,
            None => { return None; },
        };
        let w = window(rem);
        match regex_captures(compiled, w) {
            None => None,
            Some(groups) => {
                let g0 = groups[0];
                match g0 {
                    Some((s, e)) => {
                        if s != 0 {
                            return None;
                        }
                        let ghost gs = groups@;
                        let ghost first: GroupV = (utf8_lossy(w@.subrange(0, e as int)), None);
                        let mut out: Groups = Vec::new();
                        out.push((bytes_to_string(vstd::slice::slice_subrange(w, 0, e)), None));
                        proof {
                            assert(groups_view(out@) =~= seq![first]);
                        }
                        let n = regex_captures_len(compiled);
                        if n > 1 {
                            let names = regex_capture_names(compiled);
                            let mut gi: usize = 1;
                            while gi < groups.len()
                                invariant
                                    1 <= gi <= groups@.len(),
                                    gs == groups@,
                                    names@.len() == groups@.len(),
                                    forall|i: int| 0 <= i < groups@.len() ==> (#[trigger] groups@[i] matches Some(g) ==> g.0 <= g.1 <= w@.len()),
                                    forall|i: int| 0 <= i < names@.len() ==> opt_text(#[trigger] names@[i]) == regex_group_names(compiled@)[i],
                                    groups_view(out@) =~= seq![first] + Seq::new(
                                        (gi - 1) as nat,
                                        |k: int| (range_text(w@, gs[k + 1]), regex_group_names(compiled@)[k + 1]),
                                    ),
                                decreases groups@.len() - gi,
                            {
                                let text = group_text(w, groups[gi]);
                                let name = match &names[gi] {
                                    Some(nm) => Some(nm.clone()),
                                    None => None,
                                };
                                let ghost prev = out@;
                                out.push((text, name));
                                proof {
                                    assert(opt_text(name) == opt_text(names@[gi as int]));
                                    assert(groups_view(out@) =~= groups_view(prev).push((text@, opt_text(name))));
                                }
                                gi = gi + 1;
                            }
                        } else {
                            proof {
                                assert(seq![first] + Seq::<GroupV>::empty() =~= seq![first]);
                            }
                        }
                        Some((e, out))
                    },
                    None => None,
                }
            },
        }
    }

    /// Matches an expression at the start of `rem`, with the captures matched so
    /// far for back-references; returns the length matched and its groups.
    fn eval_expression_with_groups(
        &self,
        expr: &Expression,
        rem: &[u8],
        ci: bool,
        caps: &[String],
        names: &[Option<String>],
    ) -> (res: Option<(usize, Groups)>)
        requires
            self.inv(),
        ensures
            res matches Some(x) ==> x.0 <= rem@.len(),
            found_groups(res) == expr_at_input(*self.ctx.doc, expr@, rem@, ci, texts_view(caps@), names_view(names@)),
    {
        match expr {
            Expression::Variable(v) => match resolve_variable(&self.ctx.doc.defines, v.as_str()) {
                Some(resolved) => self.eval_base(resolved, rem, ci, caps, names),
                None => None,
            },
            _ => self.eval_base(expr, rem, ci, caps, names),
        }
    }

    /// As [`Runner::eval_expression_with_groups`], for an expression that is
    /// not a variable.
    fn eval_base(&self, expr: &Expression, rem: &[u8], ci: bool, caps: &[String], names: &[Option<String>]) -> (res: Option<(usize, Groups)>)
        requires
            self.inv(),
        ensures
            res matches Some(x) ==> x.0 <= rem@.len(),
            found_groups(res) == base_at(*self.ctx.doc, expr@, rem@, ci, texts_view(caps@), names_view(names@)),
    {
        match expr {
            Expression::Regex(r) => self.eval_regex(r, rem, ci),
            Expression::String(s) => Self::match_capture(s, rem, ci),
            Expression::Number(n) => {
                let s = i64_to_string(*n);
                Self::match_capture(&s, rem, false)
            },
            Expression::Capture(idx) => {
                if *idx < caps.len() {
                    Self::match_capture(&caps[*idx], rem, ci)
                } else {
                    None
                }
            },
            Expression::CaptureName(name) => {
                let ghost nv = names_view(names@);
                let mut i: usize = 0;
                while i < names.len()
                    invariant
                        i <= names@.len(),
                        nv == names_view(names@),
                        expr@ == ExprV::CaptureName(name@),
                        first_named(nv, name@, 0) == first_named(nv, name@, i as int),
                    decreases names@.len() - i,
                {
                    match &names[i] {
                        Some(n) => {
                            if str_eq(n.as_str(), name.as_str()) {
                                proof {
                                    assert(nv[i as int] == Some(name@));
                                    assert(first_named(nv, name@, i as int) == Some(i as int));
                                    if i < caps@.len() {
                                        assert(texts_view(caps@)[i as int] == caps@[i as int]@);
                                    }
                                }
                                if i < caps.len() {
                                    return Self::match_capture(&caps[i], rem, ci);
                                }
                                return None;
                            }
                        },
                        None => {},
                    }
                    i = i + 1;
                }
                None
            },
            Expression::Variable(_) => None,
        }
    }

    /// Matches a text again at the start of `rem`.
    fn match_capture(val: &String, rem: &[u8], ci: bool) -> (res: Option<(usize, Groups)>)
        ensures
            res matches Some(x) ==> x.0 <= rem@.len(),
            found_groups(res) == text_at(val@, rem@, ci),
    {
        let vb = val.as_str().as_bytes();
        let ok = if ci { starts_with_nocase(rem, vb) } else { starts_with_bytes(rem, vb) };
        if ok {
            let mut g: Groups = Vec::new();
            g.push((val.clone(), None));
            proof {
                assert(groups_view(g@) =~= seq![(val@, None::<Seq<char>>)]);
            }
            Some((vb.len(), g))
        } else {
            None
        }
    }

    /// Matches a field list at the current position: literal-prefix rejection,
    /// then the combined regex when there is one, else the expressions one
    /// after the other.  Returns the length matched and the captures.
    fn eval_field_list(&self, list: &MatchFieldList, ci: bool) -> (res: Option<(usize, Vec<String>, Vec<Option<String>>)>)
        requires
            self.inv(),
        ensures
            res matches Some(x) ==> self.ctx.pos + x.0 <= self.ctx.input@.len() && x.1@.len() == x.2@.len(),
            found_caps(res) == field_list_at(*self.ctx.doc, *list, self.spec_rest(), ci),
    {
        let rem = self.remaining();
        match &list.literal_prefix {
            Some(prefix) => {
                let pb = prefix.as_str().as_bytes();
                let ok = if ci { starts_with_nocase(rem, pb) } else { starts_with_bytes(rem, pb) };
                if !ok {
                    return None;
                }
            },
            None => {},
        }
        match &list.compiled_regex {
            Some(combined) => {
                let w = window(rem);
                match regex_captures(combined, w) {
                    None => None,
                    Some(groups) => match groups[0] {
                        Some((s, e)) => {
                            if s != 0 {
                                return None;
                            }
                            let ghost gs = groups@;
                            let mut caps: Vec<String> = Vec::new();
                            let mut names: Vec<Option<String>> = Vec::new();
                            if groups.len() > 1 {
                                let mut gi: usize = 1;
                                while gi < groups.len()
                                    invariant
                                        1 <= gi <= groups@.len(),
                                        gs == groups@,
                                        caps@.len() == names@.len(),
                                        forall|i: int| 0 <= i < groups@.len() ==> (#[trigger] groups@[i] matches Some(g) ==> g.0 <= g.1 <= w@.len()),
                                        texts_view(caps@) =~= Seq::new((gi - 1) as nat, |k: int| range_text(w@, gs[k + 1])),
                                        names_view(names@) =~= Seq::new((gi - 1) as nat, |k: int| None::<Seq<char>>),
                                    decreases groups@.len() - gi,
                                {
                                    let ghost pc = caps@;
                                    let ghost pn = names@;
                                    caps.push(group_text(w, groups[gi]));
                                    names.push(None);
                                    proof {
                                        assert(texts_view(caps@) =~= texts_view(pc).push(range_text(w@, gs[gi as int])));
                                        assert(names_view(names@) =~= names_view(pn).push(None));
                                    }
                                    gi = gi + 1;
                                }
                            } else {
                                caps.push(bytes_to_string(vstd::slice::slice_subrange(w, 0, e)));
                                names.push(None);
                                proof {
                                    assert(texts_view(caps@) =~= seq![utf8_lossy(w@.subrange(0, e as int))]);
                                    assert(names_view(names@) =~= Seq::new(1, |k: int| None::<Seq<char>>));
                                }
                            }
                            Some((e, caps, names))
                        },
                        None => None,
                    },
                }
            },
            None => {
                let ghost ev = exprs_view(list.expressions@);
                let ghost doc = *self.ctx.doc;
                let mut offset: usize = 0;
                let mut caps: Vec<String> = Vec::new();
                let mut names: Vec<Option<String>> = Vec::new();
                let mut i: usize = 0;
                proof {
                    assert(texts_view(caps@) =~= Seq::<Seq<char>>::empty());
                    assert(names_view(names@) =~= Seq::<Option<Seq<char>>>::empty());
                    assert(field_list_at(doc, *list, rem@, ci) == seq_at(doc, ev, 0, rem@, ci, 0, seq![], seq![]));
                }
                while i < list.expressions.len()
                    invariant
                        self.inv(),
                        doc == *self.ctx.doc,
                        ev == exprs_view(list.expressions@),
                        rem@ == self.spec_rest(),
                        field_list_at(doc, *list, rem@, ci) == seq_at(doc, ev, 0, rem@, ci, 0, seq![], seq![]),
                        offset <= rem@.len(),
                        caps@.len() == names@.len(),
                        i <= list.expressions@.len(),
                        seq_at(doc, ev, 0, rem@, ci, 0, seq![], seq![]) == seq_at(
                            doc,
                            ev,
                            i as int,
                            rem@,
                            ci,
                            offset as int,
                            texts_view(caps@),
                            names_view(names@),
                        ),
                    decreases list.expressions@.len() - i,
                {
                    let sub = vstd::slice::slice_subrange(rem, offset, rem.len());
                    match self.eval_expression_with_groups(&list.expressions[i], sub, ci, caps.as_slice(), names.as_slice()) {
                        Some((consumed, groups)) => {
                            let ghost c0 = texts_view(caps@);
                            let ghost n0 = names_view(names@);
                            let ghost gv = groups_view(groups@);
                            offset = offset + consumed;
                            let mut k: usize = 0;
                            while k < groups.len()
                                invariant
                                    k <= groups@.len(),
                                    caps@.len() == names@.len(),
                                    gv == groups_view(groups@),
                                    texts_view(caps@) =~= c0 + gv.subrange(0, k as int).map_values(|g: GroupV| g.0),
                                    names_view(names@) =~= n0 + gv.subrange(0, k as int).map_values(|g: GroupV| g.1),
                                decreases groups@.len() - k,
                            {
                                let (t, nm) = (groups[k].0.clone(), match &groups[k].1 {
                                    Some(x) => Some(x.clone()),
                                    None => None,
                                });
                                let ghost pc = caps@;
                                let ghost pn = names@;
                                caps.push(t);
                                names.push(nm);
                                proof {
                                    assert(gv.subrange(0, k + 1) =~= gv.subrange(0, k as int).push(gv[k as int]));
                                    assert(texts_view(caps@) =~= texts_view(pc).push(t@));
                                    assert(names_view(names@) =~= names_view(pn).push(opt_text(nm)));
                                }
                                k = k + 1;
                            }
                            proof {
                                assert(gv.subrange(0, gv.len() as int) =~= gv);
                                assert(ev[i as int] == list.expressions@[i as int]@);
                            }
                        },
                        None => {
                            proof {
                                assert(ev[i as int] == list.expressions@[i as int]@);
                            }
                            return None;
                        },
                    }
                    i = i + 1;
                }
                Some((offset, caps, names))
            },
        }
    }

    /// The first alternative of a `match` that matches: length and captures.
    fn eval_match(&self, m: &MatchStatement) -> (res: Option<(usize, Vec<String>, Vec<Option<String>>)>)
        requires
            self.inv(),
        ensures
            res matches Some(x) ==> self.ctx.pos + x.0 <= self.ctx.input@.len() && x.1@.len() == x.2@.len(),
            found_caps(res) == alts_at(*self.ctx.doc, m.match_list.alternatives@, 0, self.spec_rest(), m.case_insensitive),
    {
        let mut i: usize = 0;
        while i < m.match_list.alternatives.len()
            invariant
                self.inv(),
                i <= m.match_list.alternatives@.len(),
                alts_at(*self.ctx.doc, m.match_list.alternatives@, 0, self.spec_rest(), m.case_insensitive) == alts_at(
                    *self.ctx.doc,
                    m.match_list.alternatives@,
                    i as int,
                    self.spec_rest(),
                    m.case_insensitive,
                ),
            decreases m.match_list.alternatives@.len() - i,
        {
            match self.eval_field_list(&m.match_list.alternatives[i], m.case_insensitive) {
                Some(x) => { return Some(x); },
                None => {},
            }
            i = i + 1;
        }
        None
    }

    /// The captures of the first alternative of a `when` that matches.
    fn eval_when(&self, w: &WhenStatement) -> (res: Option<(Vec<String>, Vec<Option<String>>)>)
        requires
            self.inv(),
        ensures
            res matches Some(x) ==> x.0@.len() == x.1@.len(),
            match res {
                Some(x) => alts_at(*self.ctx.doc, w.match_list.alternatives@, 0, self.spec_rest(), false) matches Some(f)
                    && f.1 == texts_view(x.0@) && f.2 == names_view(x.1@),
                None => alts_at(*self.ctx.doc, w.match_list.alternatives@, 0, self.spec_rest(), false) is None,
            },
    {
        let mut i: usize = 0;
        while i < w.match_list.alternatives.len()
            invariant
                self.inv(),
                i <= w.match_list.alternatives@.len(),
                alts_at(*self.ctx.doc, w.match_list.alternatives@, 0, self.spec_rest(), false) == alts_at(
                    *self.ctx.doc,
                    w.match_list.alternatives@,
                    i as int,
                    self.spec_rest(),
                    false,
                ),
            decreases w.match_list.alternatives@.len() - i,
        {
            match self.eval_field_list(&w.match_list.alternatives[i], false) {
                Some((_, caps, names)) => { return Some((caps, names)); },
                None => {},
            }
            i = i + 1;
        }
        None
    }

    /// How far a `skip` pattern reaches: by its fast path when the pattern has
    /// one (which then decides alone), else by matching the expression.
    fn eval_skip(&self, s: &SkipStatement) -> (res: Option<usize>)
        requires
            self.inv(),
        ensures
            res matches Some(n) ==> self.ctx.pos + n <= self.ctx.input@.len(),
            match res {
                Some(n) => skip_at(*self.ctx.doc, s.pattern@, self.spec_rest()) == Some(n as int),
                None => skip_at(*self.ctx.doc, s.pattern@, self.spec_rest()) is None,
            },
    {
        let rem = self.remaining();
        let resolved: Option<&String> = match &s.pattern {
            Expression::Regex(r) => Some(r),
            Expression::Variable(v) => match resolve_variable(&self.ctx.doc.defines, v.as_str()) {
                Some(Expression::Regex(r)) => Some(r),
                _ => None,
            },
            _ => None,
        };
        match resolved {
            Some(pattern) => {
                let kind = match self.ctx.doc.pattern_indices.get(pattern.as_str()) {
                    Some(idx) => if *idx < self.ctx.doc.fast_path_kinds.len() {
                        self.ctx.doc.fast_path_kinds[*idx]
                    } else {
                        FastPathKind::Unclassified
                    },
                    None => FastPathKind::Unclassified,
                };
                match try_fast_skip_kind(kind, rem) {
                    Some(n) => { return Some(n); },
                    None => {},
                }
            },
            None => {},
        }
        match self.eval_expression_with_groups(&s.pattern, rem, false, &[], &[]) {
            Some((n, _)) => Some(n),
            None => None,
        }
    }
}

} // verus!

verus! {


fn ref_char(c: char) -> (r: bool)
    ensures
        r == is_ref_char(c),
{
    ('0' <= c && c <= '9') || ('a' <= c && c <= 'z') || ('A' <= c && c <= 'Z') || c == '_'
}

/// The capture a `$token` reference names: `$N` by number, else the first
/// capture with that group name.
pub(crate) fn lookup_capture<'c>(token: &str, caps: &'c [String], names: &[Option<String>]) -> (r: Option<&'c String>)
    ensures
        match r {
            Some(v) => capture_ref(token@, texts_view(caps@), names_view(names@)) == Some(v@),
            None => capture_ref(token@, texts_view(caps@), names_view(names@)) is None,
        },
{
    let tc = str_to_chars(token);
    let mut all_digits = true;
    let mut k: usize = 0;
    while k < tc.len()
        invariant
            k <= tc@.len(),
            tc@ == token@,
            all_digits == forall|x: int| 0 <= x < k ==> is_ascii_digit_c(#[trigger] tc@[x]),
        decreases tc@.len() - k,
    {
        if !('0' <= tc[k] && tc[k] <= '9') {
            all_digits = false;
        }
        k = k + 1;
    }
    if all_digits {
        match crate::parser::syntax::parse_usize(token) {
            Some(idx) => if idx < caps.len() {
                proof {
                    assert(texts_view(caps@)[idx as int] == caps@[idx as int]@);
                }
                Some(&caps[idx])
            } else {
                None
            },
            None => None,
        }
    } else {
        let ghost nv = names_view(names@);
        proof {
            let x = choose|x: int| 0 <= x < k && !is_ascii_digit_c(#[trigger] tc@[x]);
            assert(!is_ascii_digit_c(token@[x]));
        }
        let mut i: usize = 0;
        while i < names.len()
            invariant
                i <= names@.len(),
                nv == names_view(names@),
                !crate::parser::syntax::all_digits(token@),
                first_named(nv, token@, 0) == first_named(nv, token@, i as int),
            decreases names@.len() - i,
        {
            match &names[i] {
                Some(n) => {
                    if str_eq(n.as_str(), token) {
                        proof {
                            assert(nv[i as int] == Some(token@));
                            assert(first_named(nv, token@, i as int) == Some(i as int));
                            if i < caps@.len() {
                                assert(texts_view(caps@)[i as int] == caps@[i as int]@);
                            }
                        }
                        return if i < caps.len() { Some(&caps[i]) } else { None };
                    }
                },
                None => {},
            }
            i = i + 1;
        }
        None
    }
}

/// Replaces `$N` and `$name` by captured texts (percent-encoded when `encode`),
/// `\\$` by `$`; a `$` that starts no reference stays.
fn interpolate(s: &str, caps: &[String], names: &[Option<String>], encode: bool) -> (r: String)
    ensures
        r@ == interpolated(s@, 0, texts_view(caps@), names_view(names@), encode),
{
    let c = str_to_chars(s);
    let ghost cv = texts_view(caps@);
    let ghost nv = names_view(names@);
    let mut out: Vec<char> = Vec::new();
    let mut i: usize = 0;
    while i < c.len()
        invariant
            i <= c@.len(),
            c@ == s@,
            cv == texts_view(caps@),
            nv == names_view(names@),
            interpolated(c@, 0, cv, nv, encode) == out@ + interpolated(c@, i as int, cv, nv, encode),
        decreases c@.len() - i,
    {
        let ch = c[i];
        let ghost before = out@;
        if ch == '\\' && i + 1 < c.len() && c[i + 1] == '$' {
            out.push('$');
            proof {
                assert(before + (seq!['$'] + interpolated(c@, i + 2, cv, nv, encode)) =~= out@ + interpolated(c@, i + 2, cv, nv, encode));
            }
            i = i + 2;
        } else if ch == '$' {
            let mut j = i + 1;
            while j < c.len() && ref_char(c[j])
                invariant
                    i < j <= c@.len(),
                    ref_end(c@, i + 1) == ref_end(c@, j as int),
                decreases c@.len() - j,
            {
                j = j + 1;
            }
            if j == i + 1 {
                out.push('$');
            } else {
                let token = chars_to_string(vstd::slice::slice_subrange(c.as_slice(), i + 1, j));
                match lookup_capture(token.as_str(), caps, names) {
                    Some(val) => {
                        if encode {
                            crate::text::push_str(&mut out, percent_encode(val.as_str()).as_str());
                        } else {
                            crate::text::push_str(&mut out, val.as_str());
                        }
                    },
                    None => {},
                }
                proof {
                    assert(token@ == c@.subrange(i + 1, j as int));
                }
            }
            proof {
                let piece = out@.subrange(before.len() as int, out@.len() as int);
                assert(out@ =~= before + piece);
                assert(before + (piece + interpolated(c@, j as int, cv, nv, encode)) =~= out@ + interpolated(c@, j as int, cv, nv, encode));
            }
            i = j;
        } else {
            out.push(ch);
            proof {
                assert(before + (seq![ch] + interpolated(c@, i + 1, cv, nv, encode)) =~= out@ + interpolated(c@, i + 1, cv, nv, encode));
            }
            i = i + 1;
        }
    }
    proof {
        assert(out@ + Seq::<char>::empty() =~= out@);
    }
    chars_to_string(out.as_slice())
}

/// Whether a string holds a `$`.
fn has_dollar(s: &str) -> (r: bool)
    ensures
        r == s@.contains('$'),
{
    let c = str_to_chars(s);
    let mut i: usize = 0;
    while i < c.len()
        invariant
            i <= c@.len(),
            c@ == s@,
            forall|k: int| 0 <= k < i ==> c@[k] != '$',
        decreases c@.len() - i,
    {
        if c[i] == '$' {
            return true;
        }
        i = i + 1;
    }
    false
}

/// Whether a string holds a `.`.
fn has_dot(s: &str) -> (r: bool)
    ensures
        r == s@.contains('.'),
{
    let c = str_to_chars(s);
    let mut i: usize = 0;
    while i < c.len()
        invariant
            i <= c@.len(),
            c@ == s@,
            forall|k: int| 0 <= k < i ==> c@[k] != '.',
        decreases c@.len() - i,
    {
        if c[i] == '.' {
            return true;
        }
        i = i + 1;
    }
    false
}

/// `/pattern/`.
fn slashed(r: &str) -> (s: String)
    ensures
        s@ == "/"@ + r@ + "/"@,
{
    let mut s = "/".to_string();
    s.append(r);
    s.append("/");
    s
}

/// Whether any action argument is a capture reference.
pub fn actions_need_substitution(actions: &[FunctionCall]) -> (r: bool)
    ensures
        r == exists|i: int, j: int| 0 <= i < actions@.len() && 0 <= j < actions@[i].args@.len()
            && ((#[trigger] actions@[i].args@[j])@ is Capture || actions@[i].args@[j]@ is CaptureName),
{
    let mut i: usize = 0;
    while i < actions.len()
        invariant
            i <= actions@.len(),
            forall|x: int, j: int| 0 <= x < i && 0 <= j < actions@[x].args@.len()
                ==> !((#[trigger] actions@[x].args@[j])@ is Capture || actions@[x].args@[j]@ is CaptureName),
        decreases actions@.len() - i,
    {
        let mut j: usize = 0;
        while j < actions[i].args.len()
            invariant
                i < actions@.len(),
                j <= actions@[i as int].args@.len(),
                forall|x: int, y: int| 0 <= x < i && 0 <= y < actions@[x].args@.len()
                    ==> !((#[trigger] actions@[x].args@[y])@ is Capture || actions@[x].args@[y]@ is CaptureName),
                forall|y: int| 0 <= y < j ==> !((#[trigger] actions@[i as int].args@[y])@ is Capture || actions@[i as int].args@[y]@ is CaptureName),
            decreases actions@[i as int].args@.len() - j,
        {
            match &actions[i].args[j] {
                Expression::Capture(_) | Expression::CaptureName(_) => { return true; },
                _ => {},
            }
            j = j + 1;
        }
        i = i + 1;
    }
    false
}

impl<'a> Runner<'a> {
    /// The last captures' texts.
    pub closed spec fn spec_last_caps(&self) -> Seq<Seq<char>> {
        texts_view(self.last_captures@)
    }

    /// The last captures' group names.
    pub closed spec fn spec_last_names(&self) -> Seq<Option<Seq<char>>> {
        names_view(self.last_capture_names@)
    }

    /// The action with each capture argument replaced by the percent-encoded
    /// captured text (the empty string when there is none).
    fn substitute_action(&self, action: &FunctionCall, scope: &[String], names: &[Option<String>]) -> (r: FunctionCall)
        ensures
            r.name@ == action.name@,
            r.args@.len() == action.args@.len(),
            r@ == substituted_call(action@, texts_view(scope@), names_view(names@)),
    {
        let ghost sv = texts_view(scope@);
        let ghost nv = names_view(names@);
        let mut args: Vec<Expression> = Vec::new();
        let mut i: usize = 0;
        while i < action.args.len()
            invariant
                i <= action.args@.len(),
                args@.len() == i,
                sv == texts_view(scope@),
                nv == names_view(names@),
                exprs_view(args@) =~= exprs_view(action.args@).subrange(0, i as int).map_values(
                    |e: ExprV| substituted_arg(e, sv, nv),
                ),
            decreases action.args@.len() - i,
        {
            let replaced = match &action.args[i] {
                Expression::Capture(k) => {
                    if *k < scope.len() {
                        proof {
                            assert(sv[*k as int] == scope@[*k as int]@);
                        }
                        Expression::String(percent_encode(scope[*k].as_str()))
                    } else {
                        Expression::String(String::new())
                    }
                },
                Expression::CaptureName(n) => {
                    let mut found: Option<usize> = None;
                    let mut t: usize = 0;
                    while t < names.len()
                        invariant
                            t <= names@.len(),
                            nv == names_view(names@),
                            found matches Some(f) ==> first_named(nv, n@, 0) == Some(f as int),
                            found is None ==> first_named(nv, n@, 0) == first_named(nv, n@, t as int),
                        decreases names@.len() - t,
                    {
                        match &names[t] {
                            Some(x) => {
                                if found.is_none() && str_eq(x.as_str(), n.as_str()) {
                                    proof {
                                        assert(nv[t as int] == Some(n@));
                                    }
                                    found = Some(t);
                                }
                            },
                            None => {},
                        }
                        t = t + 1;
                    }
                    match found {
                        Some(k) => if k < scope.len() {
                            proof {
                                assert(sv[k as int] == scope@[k as int]@);
                            }
                            Expression::String(percent_encode(scope[k].as_str()))
                        } else {
                            Expression::String(String::new())
                        },
                        None => Expression::String(String::new()),
                    }
                },
                other => other.copy(),
            };
            proof {
                assert(replaced@ == substituted_arg(action.args@[i as int]@, sv, nv));
            }
            let ghost prev = args@;
            args.push(replaced);
            proof {
                assert(exprs_view(args@) =~= exprs_view(prev).push(replaced@));
                assert(exprs_view(action.args@).subrange(0, i + 1) =~= exprs_view(action.args@).subrange(0, i as int).push(
                    action.args@[i as int]@,
                ));
            }
            i = i + 1;
        }
        proof {
            assert(exprs_view(action.args@).subrange(0, i as int) =~= exprs_view(action.args@));
        }
        FunctionCall { name: action.name.clone(), args }
    }

    /// [`Runner::substitute_action`] on each action, or copies when no argument
    /// is a capture reference (substitution changes nothing then).
    fn actions_to_run(&self, actions: &[FunctionCall], scope: &[String], names: &[Option<String>]) -> (r: Vec<FunctionCall>)
        ensures
            r@.len() == actions@.len(),
            calls_view(r@) == calls_view(actions@).map_values(
                |c: CallV| substituted_call(c, texts_view(scope@), names_view(names@)),
            ),
    {
        let ghost sv = texts_view(scope@);
        let ghost nv = names_view(names@);
        let needs = actions_need_substitution(actions);
        let mut out: Vec<FunctionCall> = Vec::new();
        let mut i: usize = 0;
        while i < actions.len()
            invariant
                i <= actions@.len(),
                out@.len() == i,
                sv == texts_view(scope@),
                nv == names_view(names@),
                needs == exists|a: int, j: int| 0 <= a < actions@.len() && 0 <= j < actions@[a].args@.len()
                    && ((#[trigger] actions@[a].args@[j])@ is Capture || actions@[a].args@[j]@ is CaptureName),
                forall|k: int| 0 <= k < i ==> (#[trigger] out@[k])@ == substituted_call(actions@[k]@, sv, nv),
            decreases actions@.len() - i,
        {
            if needs {
                out.push(self.substitute_action(&actions[i], scope, names));
            } else {
                let c = actions[i].copy();
                proof {
                    let a = actions@[i as int]@;
                    assert forall|j: int| 0 <= j < a.1.len() implies substituted_arg(#[trigger] a.1[j], sv, nv) == a.1[j] by {
                        assert(!((actions@[i as int].args@[j])@ is Capture || actions@[i as int].args@[j]@ is CaptureName));
                    }
                    assert(a.1.map_values(|e: ExprV| substituted_arg(e, sv, nv)) =~= a.1);
                }
                out.push(c);
            }
            i = i + 1;
        }
        proof {
            assert(calls_view(out@) =~= calls_view(actions@).map_values(|c: CallV| substituted_call(c, sv, nv)));
        }
        out
    }

    /// An expression as text: strings with `$N`/`$name` interpolated from the
    /// last captures (percent-encoded), numbers in decimal, regexes as `/p/`,
    /// variables resolved; captures give the empty string.
    fn expr_to_string(&self, expr: &Expression) -> (r: String)
        requires
            self.inv(),
        ensures
            r@ == expr_text(*self.ctx.doc, expr@, self.spec_last_caps(), self.spec_last_names()),
    {
        match expr {
            Expression::Variable(v) => match resolve_variable(&self.ctx.doc.defines, v.as_str()) {
                Some(inner) => self.literal_to_string(inner),
                None => String::new(),
            },
            _ => self.literal_to_string(expr),
        }
    }

    /// A literal as text (see [`literal_text`]).
    fn literal_to_string(&self, expr: &Expression) -> (r: String)
        ensures
            r@ == literal_text(expr@, self.spec_last_caps(), self.spec_last_names()),
    {
        match expr {
            Expression::String(s) => {
                if !has_dollar(s.as_str()) {
                    s.clone()
                } else {
                    interpolate(s.as_str(), self.last_captures.as_slice(), self.last_capture_names.as_slice(), true)
                }
            },
            Expression::Number(n) => i64_to_string(*n),
            Expression::Regex(r) => {
                let t = slashed(r.as_str());
                proof {
                    assert(seq!['/'] + r@ + seq!['/'] =~= "/"@ + r@ + "/"@) by {
                        reveal_strlit("/");
                    }
                }
                t
            },
            _ => String::new(),
        }
    }

    /// Fires the triggers of a kind whose regex matches the last matched text:
    /// each adds its (interpolated) path and value to the tree.  Single-shot
    /// triggers are removed once fired; persistent ones stay.
    #[verifier::rlimit(40)]
    fn fire_triggers(&mut self, kind: TriggerKind, tree: &mut OutputTree)
        requires
            old(self).inv(),
            old(tree).wf(),
        ensures
            final(self).inv(),
            final(tree).wf(),
            final(tree).spec_stack() == old(tree).spec_stack(),
            final(self).spec_pos() == old(self).spec_pos(),
            final(self).spec_len() == old(self).spec_len(),
            final(self).spec_input() == old(self).spec_input(),
            final(self).spec_doc() == old(self).spec_doc(),
            final(self).spec_last_caps() == old(self).spec_last_caps(),
            final(self).spec_last_names() == old(self).spec_last_names(),
            forall|j: int| 0 <= j < 8 && j != slot_of(kind, false) ==> #[trigger] final(self).triggers@[j] == old(self).triggers@[j],
            fired_away(
                final(self).triggers@[slot_of(kind, false) as int]@,
                old(self).triggers@[slot_of(kind, false) as int]@,
                old(self).last_match_text@,
            ),
            (forall|k: int| 0 <= k < old(self).triggers@[slot_of(kind, false) as int]@.len()
                ==> !fires(#[trigger] old(self).triggers@[slot_of(kind, false) as int]@[k], old(self).last_match_text@))
                && (forall|k: int| 0 <= k < old(self).triggers@[slot_of(kind, true) as int]@.len()
                ==> !fires(#[trigger] old(self).triggers@[slot_of(kind, true) as int]@[k], old(self).last_match_text@))
                ==> *final(tree) == *old(tree),
    {
        let single = slot(kind, false);
        let persist = slot(kind, true);
        if self.triggers[single].len() == 0 && self.triggers[persist].len() == 0 {
            proof {
                assert(fired(self.triggers@[single as int]@, self.last_match_text@) =~= Seq::<TriggerAction>::empty());
            }
            return;
        }
        let ghost orig = self.triggers@[single as int]@;
        let ghost text = self.last_match_text@;
        // single-shot: fire and remove, highest index first
        let mut hits: Vec<usize> = Vec::new();
        let mut i: usize = 0;
        proof {
            assert(orig.subrange(0, 0) =~= Seq::<(CompiledRegex, TriggerAction)>::empty());
        }
        while i < self.triggers[single].len()
            invariant
                self.inv(),
                single < 8,
                single == slot_of(kind, false),
                *self == *old(self),
                orig == self.triggers@[single as int]@,
                text == self.last_match_text@,
                i <= orig.len(),
                hits@.len() == fired(orig.subrange(0, i as int), text).len(),
                forall|k: int| 0 <= k < hits@.len() ==> #[trigger] hits@[k] < i && fires(orig[hits@[k] as int], text),
                forall|x: int, y: int| 0 <= x < y < hits@.len() ==> #[trigger] hits@[x] < #[trigger] hits@[y],
                forall|j: int| 0 <= j < i && fires(#[trigger] orig[j], text) ==> hits@.contains(j as usize),
            decreases self.triggers@[single as int]@.len() - i,
        {
            proof {
                assert(orig.subrange(0, i + 1).drop_last() =~= orig.subrange(0, i as int));
                assert(orig.subrange(0, i + 1).last() == orig[i as int]);
            }
            if regex_captures(&self.triggers[single][i].0, self.last_match_text.as_slice()).is_some() {
                let ghost prev = hits@;
                hits.push(i);
                proof {
                    assert forall|j: int| 0 <= j < i + 1 && fires(#[trigger] orig[j], text) implies hits@.contains(j as usize) by {
                        if j < i {
                            let m = choose|m: int| 0 <= m < prev.len() && prev[m] == j as usize;
                            assert(hits@[m] == j as usize);
                        } else {
                            assert(hits@[prev.len() as int] == i);
                        }
                    }
                }
            }
            i = i + 1;
        }
        proof {
            assert(orig.subrange(0, orig.len() as int) =~= orig);
        }
        let mut h = hits.len();
        while h > 0
            invariant
                self.inv(),
                tree.wf(),
                tree.spec_stack() == old(tree).spec_stack(),
                self.spec_pos() == old(self).spec_pos(),
                self.spec_len() == old(self).spec_len(),
                self.spec_input() == old(self).spec_input(),
                self.spec_doc() == old(self).spec_doc(),
                self.spec_last_caps() == old(self).spec_last_caps(),
                self.spec_last_names() == old(self).spec_last_names(),
                self.last_match_text@ == text,
                text == old(self).last_match_text@,
                orig == old(self).triggers@[single as int]@,
                single < 8,
                single == slot_of(kind, false),
                forall|j: int| 0 <= j < 8 && j != single ==> #[trigger] self.triggers@[j] == old(self).triggers@[j],
                h <= hits@.len(),
                hits@.len() == fired(orig, text).len(),
                forall|k: int| 0 <= k < hits@.len() ==> #[trigger] hits@[k] < orig.len() && fires(orig[hits@[k] as int], text),
                forall|x: int, y: int| 0 <= x < y < hits@.len() ==> #[trigger] hits@[x] < #[trigger] hits@[y],
                forall|j: int| 0 <= j < orig.len() && fires(#[trigger] orig[j], text) ==> hits@.contains(j as usize),
                self.triggers@[single as int]@.len() == orig.len() - (hits@.len() - h),
                forall|k: int| 0 <= k < self.triggers@[single as int]@.len() && k < bound(hits@, h as int)
                    ==> #[trigger] self.triggers@[single as int]@[k] == orig[k],
                forall|k: int| 0 <= k < self.triggers@[single as int]@.len() && k >= bound(hits@, h as int)
                    ==> !fires(#[trigger] self.triggers@[single as int]@[k], text),
                bound(hits@, h as int) <= self.triggers@[single as int]@.len(),
                forall|j: int| 0 <= j < orig.len() && !fires(#[trigger] orig[j], text) ==> self.triggers@[single as int]@.contains(orig[j]),
                hits@.len() == 0 ==> *tree == *old(tree),
            decreases h,
        {
            h = h - 1;
            let idx = hits[h];
            let ghost cur = self.triggers@[single as int]@;
            let (_rx, trig) = self.triggers[single].swap_remove(idx);
            proof {
                lemma_remove_step(orig, hits@, h as int, cur, self.triggers@[single as int]@, text);
            }
            let path = interpolate(trig.path.as_str(), self.last_captures.as_slice(), self.last_capture_names.as_slice(), false);
            let value = match &trig.value {
                Some(v) => Some(interpolate(v.as_str(), self.last_captures.as_slice(), self.last_capture_names.as_slice(), false)),
                None => None,
            };
            let segs = parse_path(path.as_str());
            tree.add_path(segs.as_slice(), value);
        }
        proof {
            lemma_fired_none(orig, text);
        }
        // persistent: fire, keep
        let ghost mid = *tree;
        let mut p: usize = 0;
        while p < self.triggers[persist].len()
            invariant
                self.inv(),
                persist < 8,
                persist == slot_of(kind, true),
                tree.wf(),
                tree.spec_stack() == old(tree).spec_stack(),
                self.spec_pos() == old(self).spec_pos(),
                self.spec_len() == old(self).spec_len(),
                self.spec_input() == old(self).spec_input(),
                self.spec_doc() == old(self).spec_doc(),
                self.spec_last_caps() == old(self).spec_last_caps(),
                self.spec_last_names() == old(self).spec_last_names(),
                self.last_match_text@ == old(self).last_match_text@,
                p <= self.triggers@[persist as int]@.len(),
                (forall|k: int| 0 <= k < self.triggers@[persist as int]@.len()
                    ==> !fires(#[trigger] self.triggers@[persist as int]@[k], self.last_match_text@)) ==> *tree == mid,
            decreases self.triggers@[persist as int]@.len() - p,
        {
            let entry = &self.triggers[persist][p];
            if regex_captures(&entry.0, self.last_match_text.as_slice()).is_some() {
                let path = interpolate(entry.1.path.as_str(), self.last_captures.as_slice(), self.last_capture_names.as_slice(), false);
                let value = match &entry.1.value {
                    Some(v) => Some(interpolate(v.as_str(), self.last_captures.as_slice(), self.last_capture_names.as_slice(), false)),
                    None => None,
                };
                let segs = parse_path(path.as_str());
                tree.add_path(segs.as_slice(), value);
            }
            p = p + 1;
        }
    }
}

/// Where the untouched prefix of a list ends while the triggers at the
/// sorted indices `hits[..h]` are still to be removed.
pub open spec fn bound(hits: Seq<usize>, h: int) -> int {
    if h > 0 { hits[h - 1] + 1 } else { 0 }
}

/// The single-shot list after firing: the triggers that fire are gone (as
/// many as fire), every one left does not fire, and every one that does not
/// fire is left.
pub open spec fn fired_away(
    new: Seq<(CompiledRegex, TriggerAction)>,
    old: Seq<(CompiledRegex, TriggerAction)>,
    text: Seq<u8>,
) -> bool {
    &&& new.len() == old.len() - fired(old, text).len()
    &&& forall|k: int| 0 <= k < new.len() ==> !fires(#[trigger] new[k], text)
    &&& forall|j: int| 0 <= j < old.len() && !fires(#[trigger] old[j], text) ==> new.contains(old[j])
}

/// One removal of a firing trigger keeps the shape of the list that the
/// removals in descending index order maintain.
proof fn lemma_remove_step(
    orig: Seq<(CompiledRegex, TriggerAction)>,
    hits: Seq<usize>,
    h: int,
    cur: Seq<(CompiledRegex, TriggerAction)>,
    nw: Seq<(CompiledRegex, TriggerAction)>,
    text: Seq<u8>,
)
    requires
        0 <= h < hits.len(),
        forall|k: int| 0 <= k < hits.len() ==> #[trigger] hits[k] < orig.len() && fires(orig[hits[k] as int], text),
        forall|x: int, y: int| 0 <= x < y < hits.len() ==> #[trigger] hits[x] < #[trigger] hits[y],
        forall|j: int| 0 <= j < orig.len() && fires(#[trigger] orig[j], text) ==> hits.contains(j as usize),
        forall|k: int| 0 <= k < cur.len() && k < bound(hits, h + 1) ==> #[trigger] cur[k] == orig[k],
        forall|k: int| 0 <= k < cur.len() && k >= bound(hits, h + 1) ==> !fires(#[trigger] cur[k], text),
        bound(hits, h + 1) <= cur.len(),
        forall|j: int| 0 <= j < orig.len() && !fires(#[trigger] orig[j], text) ==> cur.contains(orig[j]),
        nw == cur.update(hits[h] as int, cur.last()).drop_last(),
    ensures
        nw.len() == cur.len() - 1,
        forall|k: int| 0 <= k < nw.len() && k < bound(hits, h) ==> #[trigger] nw[k] == orig[k],
        forall|k: int| 0 <= k < nw.len() && k >= bound(hits, h) ==> !fires(#[trigger] nw[k], text),
        bound(hits, h) <= nw.len(),
        forall|j: int| 0 <= j < orig.len() && !fires(#[trigger] orig[j], text) ==> nw.contains(orig[j]),
{
    let idx = hits[h] as int;
    if h > 0 {
        assert(hits[h - 1] < hits[h]);
    }
    assert(cur[idx] == orig[idx]);
    assert forall|k: int| 0 <= k < nw.len() && k >= bound(hits, h) implies !fires(#[trigger] nw[k], text) by {
        if k == idx {
            assert(nw[k] == cur.last());
        } else if k > idx {
            assert(nw[k] == cur[k]);
        } else {
            assert(nw[k] == cur[k]);
            assert(cur[k] == orig[k]);
            if fires(orig[k], text) {
                let m = choose|m: int| 0 <= m < hits.len() && hits[m] == k as usize;
                if m < h - 1 {
                    assert(hits[m] < hits[h - 1]);
                } else if m > h {
                    assert(hits[h] < hits[m]);
                }
            }
        }
    }
    assert forall|k: int| 0 <= k < nw.len() && k < bound(hits, h) implies #[trigger] nw[k] == orig[k] by {
        assert(nw[k] == cur[k]);
    }
    assert forall|j: int| 0 <= j < orig.len() && !fires(#[trigger] orig[j], text) implies nw.contains(orig[j]) by {
        let p = choose|p: int| 0 <= p < cur.len() && cur[p] == orig[j];
        if p == cur.len() - 1 {
            if p != idx {
                assert(nw[idx] == orig[j]);
            }
        } else {
            assert(p != idx);
            assert(nw[p] == orig[j]);
        }
    }
}

/// A list none of whose triggers fires fires nothing.
proof fn lemma_fired_none(s: Seq<(CompiledRegex, TriggerAction)>, text: Seq<u8>)
    ensures
        (forall|k: int| 0 <= k < s.len() ==> !fires(#[trigger] s[k], text)) ==> fired(s, text).len() == 0,
    decreases s.len(),
{
    if s.len() > 0 {
        lemma_fired_none(s.drop_last(), text);
        if forall|k: int| 0 <= k < s.len() ==> !fires(#[trigger] s[k], text) {
            assert forall|k: int| 0 <= k < s.drop_last().len() implies !fires(#[trigger] s.drop_last()[k], text) by {
                assert(s.drop_last()[k] == s[k]);
            }
            assert(!fires(s[s.len() - 1], text));
        }
    }
}

} // verus!

verus! {

/// What a statement did: nothing (try the next one), restart the statement
/// loop, or stop the grammar with the given return levels.
pub enum Step {
    Next,
    Restart,
    Stop(i32),
}

/// Whether an action calls a grammar of the document: a name without a dot
/// that the grammar table holds.
pub open spec fn calls_grammar(doc: GelDocument, a: CallV) -> bool {
    !a.0.contains('.') && find_key(doc.grammars.entries@, a.0) is Some
}

/// The levels `do.return` asks for: its number argument (truncated to `i32`),
/// its string argument when it parses as an `i32`, else 1; at least 1.
pub open spec fn return_levels_spec(a: CallV) -> int {
    let l: int = if a.1.len() > 0 {
        match a.1[0] {
            ExprV::Number(n) => (n as i32) as int,
            ExprV::String(s) => match parse_int_spec(s, i64::MIN as int, i64::MAX as int, true) {
                Some(v) => if -2147483648 <= v <= 2147483647 { v } else { 1 },
                None => 1,
            },
            _ => 1,
        }
    } else {
        1
    };
    if l < 1 { 1 } else { l }
}

/// The message of a `do.fail`: its first argument as text, else `fail`.
pub open spec fn fail_message(doc: GelDocument, a: CallV, caps: Seq<Seq<char>>, names: Seq<Option<Seq<char>>>) -> Seq<char> {
    if a.1.len() > 0 { expr_text(doc, a.1[0], caps, names) } else { "fail"@ }
}

/// How an action ends a list of actions, as (return levels, `do.next`,
/// `do.fail` message): `do.skip` asks nothing, `do.next` asks for the next
/// statement, `do.return` for its levels, `do.fail` for one level with its
/// message.  `None`: the list goes on.
pub open spec fn control_of(doc: GelDocument, a: CallV, caps: Seq<Seq<char>>, names: Seq<Option<Seq<char>>>) -> Option<(int, bool, Option<Seq<char>>)> {
    if calls_grammar(doc, a) {
        None
    } else if a.0 == "do.skip"@ {
        Some((0, false, None))
    } else if a.0 == "do.next"@ {
        Some((0, true, None))
    } else if a.0 == "do.return"@ {
        Some((return_levels_spec(a), false, None))
    } else if a.0 == "do.fail"@ {
        Some((1, false, Some(fail_message(doc, a, caps, names))))
    } else {
        None
    }
}

/// How many scopes are left open after a list of actions, starting from
/// `p`: each `out.open` / `out.enter` with a path opens one, each
/// `out.leave` closes one if any is open; the list ends after its first
/// ending action (see [`control_of`]).
pub open spec fn scopes_spec(doc: GelDocument, acts: Seq<CallV>, caps: Seq<Seq<char>>, names: Seq<Option<Seq<char>>>, p: int) -> int
    decreases acts.len(),
{
    if acts.len() == 0 {
        p
    } else {
        let a = acts[0];
        let p1 = if (a.0 == "out.open"@ || a.0 == "out.enter"@) && a.1.len() > 0 {
            p + 1
        } else if a.0 == "out.leave"@ {
            if p > 0 {
                p - 1
            } else {
                0
            }
        } else {
            p
        };
        if control_of(doc, a, caps, names) is Some {
            p1
        } else {
            scopes_spec(doc, acts.drop_first(), caps, names, p1)
        }
    }
}

/// What a list of actions asks for: what its first ending action asks for,
/// else nothing.
pub open spec fn control_spec(doc: GelDocument, acts: Seq<CallV>, caps: Seq<Seq<char>>, names: Seq<Option<Seq<char>>>) -> (int, bool, Option<Seq<char>>)
    decreases acts.len(),
{
    if acts.len() == 0 {
        (0, false, None)
    } else {
        match control_of(doc, acts[0], caps, names) {
            Some(c) => c,
            None => control_spec(doc, acts.drop_first(), caps, names),
        }
    }
}

/// The trace lines an action writes: `say: ` or `warn: ` and the text of its
/// first argument; `fail invoked` and `fail: ` with the message.
pub open spec fn action_traces(doc: GelDocument, a: CallV, caps: Seq<Seq<char>>, names: Seq<Option<Seq<char>>>) -> Seq<Seq<char>> {
    if calls_grammar(doc, a) {
        seq![]
    } else if a.0 == "do.say"@ && a.1.len() > 0 {
        seq!["say: "@ + expr_text(doc, a.1[0], caps, names)]
    } else if a.0 == "do.warn"@ && a.1.len() > 0 {
        seq!["warn: "@ + expr_text(doc, a.1[0], caps, names)]
    } else if a.0 == "do.fail"@ {
        seq!["fail invoked"@, "fail: "@ + fail_message(doc, a, caps, names)]
    } else {
        seq![]
    }
}

/// The trace lines a list of actions writes, up to and with its first
/// ending action.
pub open spec fn run_traces(doc: GelDocument, acts: Seq<CallV>, caps: Seq<Seq<char>>, names: Seq<Option<Seq<char>>>) -> Seq<Seq<char>>
    decreases acts.len(),
{
    if acts.len() == 0 {
        seq![]
    } else {
        action_traces(doc, acts[0], caps, names) + if control_of(doc, acts[0], caps, names) is Some {
            Seq::empty()
        } else {
            run_traces(doc, acts.drop_first(), caps, names)
        }
    }
}

/// Whether a list of actions calls a grammar.
pub open spec fn any_grammar_call(doc: GelDocument, acts: Seq<CallV>) -> bool {
    exists|j: int| 0 <= j < acts.len() && calls_grammar(doc, #[trigger] acts[j])
}

/// A list with one more action calls a grammar when the list does or the
/// action does.
proof fn lemma_grammar_call_push(doc: GelDocument, s: Seq<CallV>, a: CallV)
    ensures
        any_grammar_call(doc, s.push(a)) == (any_grammar_call(doc, s) || calls_grammar(doc, a)),
{
    if any_grammar_call(doc, s) {
        let j = choose|j: int| 0 <= j < s.len() && calls_grammar(doc, #[trigger] s[j]);
        assert(s.push(a)[j] == s[j]);
    }
    if calls_grammar(doc, a) {
        assert(s.push(a)[s.len() as int] == a);
    }
    if any_grammar_call(doc, s.push(a)) {
        let j = choose|j: int| 0 <= j < s.push(a).len() && calls_grammar(doc, #[trigger] s.push(a)[j]);
        if j < s.len() {
            assert(s.push(a)[j] == s[j]);
        }
    }
}

/// The names of the actions, told apart by their first letters.
proof fn lemma_action_names()
    ensures
        "do.skip"@[0] == 'd',
        "do.next"@[0] == 'd',
        "do.return"@[0] == 'd',
        "do.fail"@[0] == 'd',
        "do.say"@[0] == 'd',
        "do.warn"@[0] == 'd',
        "out.create"@[0] == 'o',
        "out.add"@[0] == 'o',
        "out.replace"@[0] == 'o',
        "out.add_attribute"@[0] == 'o',
        "out.set_root_name"@[0] == 'o',
        "out.open"@[0] == 'o',
        "out.enter"@[0] == 'o',
        "out.leave"@[0] == 'o',
        "out.enqueue_"@[0] == 'o',
        "out.enqueue_"@.len() == 12,
        "out.enqueue_"@[4] == 'e',
        "out.create"@.len() == 10 && "out.create"@[4] == 'c',
        "out.add"@.len() == 7 && "out.add"@[4] == 'a',
        "out.replace"@.len() == 11 && "out.replace"@[4] == 'r',
        "out.add_attribute"@.len() == 17 && "out.add_attribute"@[4] == 'a',
        "out.set_root_name"@.len() == 17 && "out.set_root_name"@[4] == 's',
        "out.open"@.len() == 8 && "out.open"@[4] == 'o',
        "out.enter"@.len() == 9 && "out.enter"@[4] == 'e',
        "out.leave"@.len() == 9 && "out.leave"@[4] == 'l',
        "out.clear_queue"@.len() == 15 && "out.clear_queue"@[4] == 'c',
        "out.clear_queue"@[0] == 'o',
        "do.say"@ != "do.fail"@,
        "do.warn"@ != "do.fail"@,
        "do.say"@ != "do.warn"@,
        "do.skip"@ != "do.say"@ && "do.skip"@ != "do.warn"@ && "do.skip"@ != "do.fail"@,
        "do.next"@ != "do.say"@ && "do.next"@ != "do.warn"@ && "do.next"@ != "do.fail"@,
        "do.return"@ != "do.say"@ && "do.return"@ != "do.warn"@ && "do.return"@ != "do.fail"@,
        "do.skip"@ != "do.next"@ && "do.skip"@ != "do.return"@ && "do.next"@ != "do.return"@,
        "do.next"@ != "do.fail"@,
{
    reveal_strlit("do.skip");
    reveal_strlit("do.next");
    reveal_strlit("do.return");
    reveal_strlit("do.fail");
    reveal_strlit("do.say");
    reveal_strlit("do.warn");
    reveal_strlit("out.create");
    reveal_strlit("out.add");
    reveal_strlit("out.replace");
    reveal_strlit("out.add_attribute");
    reveal_strlit("out.set_root_name");
    reveal_strlit("out.open");
    reveal_strlit("out.enter");
    reveal_strlit("out.leave");
    reveal_strlit("out.enqueue_");
    reveal_strlit("out.clear_queue");
    assert("do.warn"@[3] != "do.fail"@[3]);
    assert("do.say"@.len() != "do.fail"@.len());
    assert("do.say"@.len() != "do.warn"@.len());
    assert("do.skip"@[3] != "do.warn"@[3] && "do.skip"@[3] != "do.fail"@[3] && "do.skip"@.len() != "do.say"@.len());
    assert("do.next"@[3] != "do.warn"@[3] && "do.next"@[3] != "do.fail"@[3] && "do.next"@.len() != "do.say"@.len());
    assert("do.return"@.len() != "do.say"@.len() && "do.return"@.len() != "do.warn"@.len());
    assert("do.return"@.len() != "do.fail"@.len());
    assert("do.skip"@[3] != "do.next"@[3] && "do.skip"@.len() != "do.return"@.len() && "do.next"@.len() != "do.return"@.len());
}

/// The levels a `do.return` asks for.
fn return_levels_of(act: &FunctionCall) -> (r: i32)
    ensures
        r == return_levels_spec(act@),
{
    let levels: i32 = if act.args.len() > 0 {
        match &act.args[0] {
            Expression::Number(n) => *n as i32,
            Expression::String(s) => match crate::parser::syntax::parse_i64(s.as_str()) {
                Some(v) => if -2147483648 <= v && v <= 2147483647 { v as i32 } else { 1 },
                None => 1,
            },
            _ => 1,
        }
    } else {
        1
    };
    if levels < 1 { 1 } else { levels }
}

/// The text of an action's argument `k`.
pub open spec fn arg_text(doc: GelDocument, a: CallV, k: int, caps: Seq<Seq<char>>, names: Seq<Option<Seq<char>>>) -> Seq<char> {
    expr_text(doc, a.1[k], caps, names)
}

/// The value an `out.create` / `out.add` / `out.replace` action gives its
/// node: its second argument's text, percent-decoded.
pub open spec fn opt_value(doc: GelDocument, a: CallV, caps: Seq<Seq<char>>, names: Seq<Option<Seq<char>>>) -> Option<Seq<char>> {
    if a.1.len() > 1 {
        Some(percent_decode_spec(arg_text(doc, a, 1, caps, names)))
    } else {
        None
    }
}

/// The tree operation an `out.create`, `out.add` or `out.replace` action names.
pub open spec fn path_effect(name: Seq<char>, tm: &OutputTree, t0: &OutputTree, segs: Seq<PathSegment>, v: Option<Seq<char>>) -> bool {
    if name == "out.create"@ {
        path_created(tm, t0, segs, v)
    } else if name == "out.add"@ {
        path_added(tm, t0, segs, v)
    } else {
        path_replaced(tm, t0, segs, v)
    }
}

/// The scope stack after entering a path, firing the `on_add` triggers and
/// leaving again: as it was, or one scope shorter when the path was not entered.
pub open spec fn back_or_left(t1: OutputTree, tm: OutputTree) -> bool {
    t1.spec_stack() == tm.spec_stack() || t1.spec_stack() == left_times(tm.spec_stack(), 1)
}

/// What one action that calls no grammar does to the output tree: `create`,
/// `add`, `replace` and `add_attribute` perform their tree operation on the
/// parsed path of their first argument (then the path is entered and left
/// again around the `on_add` triggers); `set_root_name` names the root;
/// `open` and `enter` push the path's scope (when it fits); `leave` pops one;
/// every other action leaves the tree as it is.
pub open spec fn action_effect(
    doc: GelDocument,
    a: CallV,
    caps: Seq<Seq<char>>,
    names: Seq<Option<Seq<char>>>,
    t0: OutputTree,
    t1: OutputTree,
) -> bool {
    if a.0 == "out.create"@ || a.0 == "out.add"@ || a.0 == "out.replace"@ {
        if a.1.len() > 0 {
            exists|tm: OutputTree, segs: Seq<PathSegment>|
                #![trigger path_effect(a.0, &tm, &t0, segs, opt_value(doc, a, caps, names))]
                segs_of(segs) == parse_path_spec(arg_text(doc, a, 0, caps, names)) && path_effect(a.0, &tm, &t0, segs, opt_value(doc, a, caps, names))
                    && back_or_left(t1, tm)
        } else {
            t1 == t0
        }
    } else if a.0 == "out.add_attribute"@ {
        if a.1.len() > 2 {
            exists|tm: OutputTree, segs: Seq<PathSegment>|
                #![trigger attribute_added(&tm, &t0, segs, arg_text(doc, a, 1, caps, names), arg_text(doc, a, 2, caps, names))]
                segs_of(segs) == parse_path_spec(arg_text(doc, a, 0, caps, names)) && attribute_added(
                    &tm,
                    &t0,
                    segs,
                    arg_text(doc, a, 1, caps, names),
                    arg_text(doc, a, 2, caps, names),
                ) && back_or_left(t1, tm)
        } else {
            t1 == t0
        }
    } else if a.0 == "out.set_root_name"@ {
        if a.1.len() > 0 {
            t1.spec_name(0) == arg_text(doc, a, 0, caps, names) && t1.spec_stack() == t0.spec_stack()
        } else {
            t1 == t0
        }
    } else if a.0 == "out.open"@ || a.0 == "out.enter"@ {
        if a.1.len() > 0 {
            exists|tm: OutputTree, segs: Seq<PathSegment>|
                #![trigger scope_pushed(tm, t0, segs)]
                segs_of(segs) == parse_path_spec(arg_text(doc, a, 0, caps, names)) && scope_pushed(tm, t0, segs) && t1.spec_stack()
                    == tm.spec_stack()
        } else {
            t1 == t0
        }
    } else if a.0 == "out.leave"@ {
        t1.spec_stack() == left_times(t0.spec_stack(), 1)
    } else {
        t1 == t0
    }
}

/// What a list of actions that calls no grammar does to the output tree:
/// each action in turn as above, up to (not including) the first that ends
/// the list, which leaves the tree as it is.
pub open spec fn run_effect(
    doc: GelDocument,
    acts: Seq<CallV>,
    caps: Seq<Seq<char>>,
    names: Seq<Option<Seq<char>>>,
    t0: OutputTree,
    t1: OutputTree,
) -> bool
    decreases acts.len(),
{
    if acts.len() == 0 {
        t1 == t0
    } else if control_of(doc, acts[0], caps, names) is Some {
        t1 == t0
    } else {
        exists|tm: OutputTree| #[trigger] action_effect(doc, acts[0], caps, names, t0, tm) && run_effect(doc, acts.drop_first(), caps, names, tm, t1)
    }
}

/// The scope stack after leaving `n` times: each leave drops the innermost
/// scope but never the root.
pub open spec fn left_times(stack: Seq<u32>, n: nat) -> Seq<u32>
    decreases n,
{
    if n == 0 {
        stack
    } else {
        left_times(if stack.len() > 1 { stack.drop_last() } else { stack }, (n - 1) as nat)
    }
}

/// What a lone action statement that calls no grammar asks for: the action
/// with its capture arguments emptied, run alone.
pub open spec fn action_step(doc: GelDocument, a: CallV, caps: Seq<Seq<char>>, names: Seq<Option<Seq<char>>>) -> (int, bool, Option<Seq<char>>) {
    control_spec(doc, seq![substituted_call(a, seq![], seq![])], caps, names)
}

/// The levels a chain's first statement asks to return when it is an action
/// that calls no grammar (`do.return(n)`, `do.fail`); 0 otherwise.
pub open spec fn lead_return(doc: GelDocument, chain: Seq<(usize, usize)>, caps: Seq<Seq<char>>, names: Seq<Option<Seq<char>>>) -> int {
    if chain.len() > 0 {
        match stmt_at(doc, chain[0]) {
            Statement::Action(a) => if !calls_grammar(doc, a@) {
                action_step(doc, a@, caps, names).0
            } else {
                0
            },
            _ => 0,
        }
    } else {
        0
    }
}

/// The statement a chain entry (grammar, statement) names.
pub open spec fn stmt_at(doc: GelDocument, c: (usize, usize)) -> Statement {
    doc.grammars.entries@[c.0 as int].1.statements@[c.1 as int]
}

/// Whether a statement lets a pass go on at `rest` without doing anything: a
/// `match` or `when` none of whose alternatives matches there, a `skip` that
/// moves nowhere, an action that calls no grammar and is none of `do.next`,
/// `do.return` and `do.fail`.
pub open spec fn stmt_quiet(doc: GelDocument, st: Statement, rest: Seq<u8>) -> bool {
    match st {
        Statement::Match(m) => alts_at(doc, m.match_list.alternatives@, 0, rest, m.case_insensitive) is None,
        Statement::When(w) => alts_at(doc, w.match_list.alternatives@, 0, rest, false) is None,
        Statement::Skip(sk) => !(skip_at(doc, sk.pattern@, rest) matches Some(n) && n > 0),
        Statement::Action(a) => !calls_grammar(doc, a@) && a@.0 != "do.next"@ && a@.0 != "do.return"@ && a@.0 != "do.fail"@,
    }
}

/// Whether a statement was passed over: quiet as above, or an action that
/// calls a grammar (whose run moved nothing and asked nothing).
pub open spec fn stmt_passed(doc: GelDocument, st: Statement, rest: Seq<u8>) -> bool {
    stmt_quiet(doc, st, rest) || (st matches Statement::Action(a) && calls_grammar(doc, a@))
}

/// How far the first statement of a chain moves at `rest` when it is a
/// `match` (its length) or a `skip` (its distance); 0 otherwise.
pub open spec fn first_advance(doc: GelDocument, chain: Seq<(usize, usize)>, rest: Seq<u8>) -> int {
    if chain.len() == 0 {
        0
    } else {
        match stmt_at(doc, chain[0]) {
            Statement::Match(m) => match alts_at(doc, m.match_list.alternatives@, 0, rest, m.case_insensitive) {
                Some(f) => f.0,
                None => 0,
            },
            Statement::Skip(sk) => match skip_at(doc, sk.pattern@, rest) {
                Some(n) => n,
                None => 0,
            },
            _ => 0,
        }
    }
}

/// The raw pattern of an `out.enqueue_*` action: its first argument, a regex
/// literal or a variable defined as one.
pub open spec fn enqueue_raw(doc: GelDocument, a: CallV) -> Option<Seq<char>> {
    if a.1.len() > 0 {
        match a.1[0] {
            ExprV::Regex(r) => Some(r),
            ExprV::Variable(v) => match doc.defines.spec_get(v) {
                Some(d) => match d@ {
                    ExprV::Regex(r) => Some(r),
                    _ => None,
                },
                None => None,
            },
            _ => None,
        }
    } else {
        None
    }
}

/// The trigger list an `out.enqueue_*` action name fills: before, after,
/// on_add, on_leave, then their persistent forms.
pub open spec fn enqueue_slot(name: Seq<char>) -> Option<int> {
    if name == "out.enqueue_before"@ {
        Some(0)
    } else if name == "out.enqueue_after"@ {
        Some(1)
    } else if name == "out.enqueue_on_add"@ {
        Some(2)
    } else if name == "out.enqueue_on_leave"@ {
        Some(3)
    } else if name == "out.enqueue_before_persist"@ {
        Some(4)
    } else if name == "out.enqueue_after_persist"@ {
        Some(5)
    } else if name == "out.enqueue_on_add_persist"@ {
        Some(6)
    } else if name == "out.enqueue_on_leave_persist"@ {
        Some(7)
    } else {
        None
    }
}

/// The trigger lists after an `out.enqueue_*` action: when it has a raw
/// pattern whose `(?s)` form compiles and its name names a list, that list
/// gains the trigger (that regex, the second argument's text as its path,
/// the third's as its value); all else stays.
pub open spec fn enqueued(
    new: Seq<Vec<(CompiledRegex, TriggerAction)>>,
    old: Seq<Vec<(CompiledRegex, TriggerAction)>>,
    doc: GelDocument,
    a: CallV,
    caps: Seq<Seq<char>>,
    names: Seq<Option<Seq<char>>>,
) -> bool {
    if enqueue_raw(doc, a) is Some && regex_compiles("(?s)"@ + enqueue_raw(doc, a)->0) && enqueue_slot(a.0) is Some {
        let t = enqueue_slot(a.0)->0;
        &&& new.len() == old.len()
        &&& forall|j: int| 0 <= j < new.len() && j != t ==> #[trigger] new[j] == old[j]
        &&& new[t]@.len() == old[t]@.len() + 1
        &&& new[t]@.drop_last() == old[t]@
        &&& new[t]@.last().0@ == "(?s)"@ + enqueue_raw(doc, a)->0
        &&& new[t]@.last().1.path@ == if a.1.len() > 1 { expr_text(doc, a.1[1], caps, names) } else { seq![] }
        &&& opt_text(new[t]@.last().1.value) == if a.1.len() > 2 { Some(expr_text(doc, a.1[2], caps, names)) } else { None }
    } else {
        new == old
    }
}

/// The common frame of the runner's mutating operations.
pub open spec fn advanced<'a>(new: &Runner<'a>, old: &Runner<'a>) -> bool {
    &&& new.inv()
    &&& old.spec_pos() <= new.spec_pos()
    &&& new.spec_len() == old.spec_len()
    &&& new.spec_doc() == old.spec_doc()
    &&& new.spec_input() == old.spec_input()
}

/// The common frame of the result while a grammar runs.
pub open spec fn result_ok(res: &ExecutionResult, pos: nat) -> bool {
    &&& res.output.wf()
    &&& res.consumed <= pos
    &&& diags_in_traces(res)
}

/// Whether the messages `d` occur in `t` in the same order.
pub open spec fn in_order(d: Seq<Seq<char>>, t: Seq<Seq<char>>) -> bool
    decreases t.len(),
{
    if d.len() == 0 {
        true
    } else if t.len() == 0 {
        false
    } else if d.last() == t.last() {
        in_order(d.drop_last(), t.drop_last())
    } else {
        in_order(d, t.drop_last())
    }
}

/// Whether every diagnostic of a run is also one of its trace lines, in the
/// same order.
pub open spec fn diags_in_traces(res: &ExecutionResult) -> bool {
    in_order(res.diagnostics@.map_values(|d: Diagnostic| d.message@), res.traces@.map_values(|t: String| t@))
}

/// Messages in order stay in order when the last one is dropped, or when a
/// line is added to the trace.
proof fn lemma_in_order_more(d: Seq<Seq<char>>, t: Seq<Seq<char>>, x: Seq<char>)
    requires
        in_order(d, t),
    ensures
        in_order(d, t.push(x)),
        d.len() > 0 ==> in_order(d.drop_last(), t),
    decreases t.len(),
{
    assert(t.push(x).drop_last() =~= t);
    assert(t.push(x).last() == x);
    if d.len() > 0 {
        assert(t.len() > 0);
        let tl = t.drop_last();
        let y = t.last();
        assert(tl.push(y) =~= t);
        if d.last() == y {
            lemma_in_order_more(d.drop_last(), tl, y);
        } else {
            lemma_in_order_more(d, tl, y);
            lemma_in_order_more(d.drop_last(), tl, y);
        }
    }
}

/// A trace line added alone keeps every diagnostic in the trace.
proof fn lemma_trace_line(res0: &ExecutionResult, res1: &ExecutionResult, x: String)
    requires
        diags_in_traces(res0),
        res1.diagnostics == res0.diagnostics,
        res1.traces@ == res0.traces@.push(x),
    ensures
        diags_in_traces(res1),
{
    let t = res0.traces@.map_values(|t: String| t@);
    lemma_in_order_more(res0.diagnostics@.map_values(|d: Diagnostic| d.message@), t, x@);
    assert(res1.traces@.map_values(|t: String| t@) =~= t.push(x@));
}

impl<'a> Runner<'a> {
    /// Opens, enters and leaves a path around an `on_add` firing, as `create`,
    /// `add`, `replace` and `add_attribute` do.
    fn enter_fire_leave(&mut self, path: &str, tree: &mut OutputTree)
        requires
            old(self).inv(),
            old(tree).wf(),
        ensures
            advanced(final(self), old(self)),
            final(self).spec_pos() == old(self).spec_pos(),
            final(self).spec_last_caps() == old(self).spec_last_caps(),
            final(self).spec_last_names() == old(self).spec_last_names(),
            final(tree).wf(),
            final(tree).spec_stack() == old(tree).spec_stack() || final(tree).spec_stack() == left_times(old(tree).spec_stack(), 1),
            forall|j: int| 0 <= j < 8 && j != slot_of(TriggerKind::OnAdd, false) ==> #[trigger] final(self).triggers@[j] == old(self).triggers@[j],
            fired_away(
                final(self).triggers@[slot_of(TriggerKind::OnAdd, false) as int]@,
                old(self).triggers@[slot_of(TriggerKind::OnAdd, false) as int]@,
                old(self).last_match_text@,
            ),
    {
        let ghost s0 = tree.spec_stack();
        proof {
            OutputTree::lemma_stack_nonempty(*tree);
        }
        tree.exec(RuntimeAction::OutEnter { path });
        let ghost s1 = tree.spec_stack();
        self.fire_triggers(TriggerKind::OnAdd, tree);
        tree.exec(RuntimeAction::OutLeave);
        proof {
            assert(left_times(s1, 0) == s1);
            assert(left_times(s0, 1) == left_times(if s0.len() > 1 { s0.drop_last() } else { s0 }, 0));
            if s1 != s0 {
                assert(s1.drop_last() == s0);
            }
        }
    }

    /// Runs a list of actions.  Returns the return levels asked for (0: none),
    /// whether `do.next` ran, the `do.fail` message, and how many `out.open` /
    /// `out.enter` still wait for their automatic leave.
    fn execute_runtime_actions(&mut self, actions: &[FunctionCall], res: &mut ExecutionResult, depth: usize) -> (r: (i32, bool, Option<String>, usize))
        requires
            old(self).inv(),
            result_ok(old(res), old(self).spec_pos()),
        ensures
            advanced(final(self), old(self)),
            result_ok(final(res), final(self).spec_pos()),
            final(res).consumed == old(res).consumed,
            r.0 >= 0,
            r.3 <= actions@.len(),
            r.2 is Some ==> r.0 == 1 && final(self).spec_pos() == final(self).spec_len(),
            !any_grammar_call(*old(self).spec_doc(), calls_view(actions@)) ==> (r.0 as int, r.1, opt_text(r.2))
                == control_spec(*old(self).spec_doc(), calls_view(actions@), old(self).spec_last_caps(), old(self).spec_last_names()),
            !any_grammar_call(*old(self).spec_doc(), calls_view(actions@)) ==> texts_view(final(res).traces@)
                == texts_view(old(res).traces@) + run_traces(*old(self).spec_doc(), calls_view(actions@), old(self).spec_last_caps(), old(self).spec_last_names()),
            !any_grammar_call(*old(self).spec_doc(), calls_view(actions@)) && r.2 is None ==> final(self).spec_pos() == old(self).spec_pos(),
            !any_grammar_call(*old(self).spec_doc(), calls_view(actions@)) ==> final(res).error == old(res).error,
            !any_grammar_call(*old(self).spec_doc(), calls_view(actions@)) ==> r.3 == scopes_spec(
                *old(self).spec_doc(),
                calls_view(actions@),
                old(self).spec_last_caps(),
                old(self).spec_last_names(),
                0,
            ),
            !any_grammar_call(*old(self).spec_doc(), calls_view(actions@)) ==> run_effect(
                *old(self).spec_doc(),
                calls_view(actions@),
                old(self).spec_last_caps(),
                old(self).spec_last_names(),
                old(res).output,
                final(res).output,
            ),
        decreases depth, 0int,
    {
        let ghost doc = *self.ctx.doc;
        let ghost acts = calls_view(actions@);
        let ghost caps0 = self.spec_last_caps();
        let ghost names0 = self.spec_last_names();
        let ghost ctl0 = control_spec(doc, acts, caps0, names0);
        let ghost tr0 = texts_view(res.traces@) + run_traces(doc, acts, caps0, names0);
        let ghost t_start = res.output;
        proof {
            lemma_action_names();
            assert(acts.subrange(0, 0) =~= Seq::<CallV>::empty());
            assert(acts.subrange(0, acts.len() as int) =~= acts);
            assert(texts_view(res.traces@) + run_traces(doc, acts, caps0, names0) =~= tr0);
        }
        let mut skip_rest = false;
        let mut return_levels: i32 = 0;
        let mut do_next = false;
        let mut fail_error: Option<String> = None;
        let mut last_was_open = false;
        let mut pending: usize = 0;
        let mut i: usize = 0;
        let ghost sc0 = scopes_spec(doc, acts, caps0, names0, 0);
        while i < actions.len() && !skip_rest && return_levels == 0 && !do_next
            invariant
                sc0 == scopes_spec(doc, acts, caps0, names0, 0),
                advanced(self, old(self)),
                result_ok(res, self.spec_pos()),
                res.consumed == old(res).consumed,
                i <= actions@.len(),
                pending <= i,
                return_levels >= 0,
                doc == *old(self).spec_doc(),
                acts == calls_view(actions@),
                caps0 == old(self).spec_last_caps(),
                names0 == old(self).spec_last_names(),
                ctl0 == control_spec(doc, acts, caps0, names0),
                tr0 == texts_view(old(res).traces@) + run_traces(doc, acts, caps0, names0),
                t_start == old(res).output,
                fail_error is Some ==> return_levels == 1 && self.spec_pos() == self.spec_len(),
                !(skip_rest || return_levels != 0 || do_next) ==> fail_error is None,
                !any_grammar_call(doc, acts.subrange(0, i as int)) ==> {
                    &&& fail_error is None ==> self.spec_pos() == old(self).spec_pos()
                    &&& res.error == old(res).error
                    &&& self.spec_last_caps() == caps0
                    &&& self.spec_last_names() == names0
                    &&& sc0 == if skip_rest || return_levels != 0 || do_next {
                        pending as int
                    } else {
                        scopes_spec(doc, acts.subrange(i as int, acts.len() as int), caps0, names0, pending as int)
                    }
                    &&& ctl0 == if skip_rest || return_levels != 0 || do_next {
                        (return_levels as int, do_next, opt_text(fail_error))
                    } else {
                        control_spec(doc, acts.subrange(i as int, acts.len() as int), caps0, names0)
                    }
                    &&& tr0 == texts_view(res.traces@) + if skip_rest || return_levels != 0 || do_next {
                        Seq::<Seq<char>>::empty()
                    } else {
                        run_traces(doc, acts.subrange(i as int, acts.len() as int), caps0, names0)
                    }
                    &&& forall|t: OutputTree|
                        (if skip_rest || return_levels != 0 || do_next {
                            t == res.output
                        } else {
                            run_effect(doc, acts.subrange(i as int, acts.len() as int), caps0, names0, res.output, t)
                        }) ==> #[trigger] run_effect(doc, acts, caps0, names0, t_start, t)
                },
            ensures
                i >= actions@.len() || skip_rest || return_levels != 0 || do_next
                    || any_grammar_call(doc, acts.subrange(0, i as int)),
            decreases actions@.len() - i,
        {
            let act = &actions[i];
            let name = act.name.as_str();
            let ghost rest = acts.subrange(i as int, acts.len() as int);
            let ghost clean = !any_grammar_call(doc, acts.subrange(0, i as int));
            let ghost traces_before = texts_view(res.traces@);
            let ghost t_cur = res.output;
            proof {
                lemma_action_names();
                assert(rest.drop_first() =~= acts.subrange(i + 1, acts.len() as int));
                assert(rest[0] == act@);
                assert(acts.subrange(0, i + 1) =~= acts.subrange(0, i as int).push(act@));
                lemma_grammar_call_push(doc, acts.subrange(0, i as int), act@);
            }
            let is_grammar = if has_dot(name) { None } else { self.ctx.doc.grammars.index_of(name) };
            match is_grammar {
                Some(gi) => {
                    let (sub_consumed, _rest) = if depth > 0 {
                        self.run_inline_grammar(gi, res, depth - 1)
                    } else {
                        (0, 0)
                    };
                    if sub_consumed > 0 {
                        let mut msg = "subgrammar ".to_string();
                        msg.append(name);
                        msg.append(" consumed ");
                        msg.append(usize_to_string(sub_consumed).as_str());
                        msg.append(" chars");
                        let ghost r_before = *res;
                        let ghost pushed = msg;
                        res.traces.push(msg);
                        proof { lemma_trace_line(&r_before, res, pushed); }
                    }
                    if last_was_open {
                        res.output.leave();
                        if pending > 0 {
                            pending = pending - 1;
                        }
                    }
                    if sub_consumed > 0 {
                        i = i + 1;
                        break;
                    }
                    last_was_open = false;
                    i = i + 1;
                    continue;
                },
                None => {},
            }
            proof {
                assert(!calls_grammar(doc, act@));
            }
            let mut this_is_open = false;
            if str_eq(name, "out.create") || str_eq(name, "out.add") || str_eq(name, "out.replace") {
                if act.args.len() > 0 {
                    let path = self.expr_to_string(&act.args[0]);
                    let value = if act.args.len() > 1 { Some(self.expr_to_string(&act.args[1])) } else { None };
                    let vref: Option<&str> = match &value {
                        Some(v) => Some(v.as_str()),
                        None => None,
                    };
                    proof {
                        assert(act@.1[0] == act.args@[0]@);
                        if act.args@.len() > 1 {
                            assert(act@.1[1] == act.args@[1]@);
                        }
                        assert(crate::exec::out::value_view(vref) == opt_value(doc, act@, self.spec_last_caps(), self.spec_last_names()));
                    }
                    if str_eq(name, "out.create") {
                        res.output.exec(RuntimeAction::OutCreate { path: path.as_str(), value: vref });
                    } else if str_eq(name, "out.add") {
                        res.output.exec(RuntimeAction::OutAdd { path: path.as_str(), value: vref });
                    } else {
                        res.output.exec(RuntimeAction::OutReplace { path: path.as_str(), value: vref });
                    }
                    let ghost tm = res.output;
                    proof {
                        if clean {
                            let v = opt_value(doc, act@, caps0, names0);
                            let segs = choose|segs: Seq<PathSegment>| segs_of(segs) == parse_path_spec(path@) && path_effect(act@.0, &tm, &t_cur, segs, v);
                            assert(path_effect(act@.0, &tm, &t_cur, segs, v));
                        }
                    }
                    self.enter_fire_leave(path.as_str(), &mut res.output);
                    proof {
                        if clean {
                            assert(action_effect(doc, act@, caps0, names0, t_cur, res.output));
                        }
                    }
                }
                proof { assert(name@[0] == 'o'); }
            } else if str_eq(name, "out.add_attribute") {
                if act.args.len() > 2 {
                    let path = self.expr_to_string(&act.args[0]);
                    let aname = self.expr_to_string(&act.args[1]);
                    let value = self.expr_to_string(&act.args[2]);
                    proof {
                        assert(act@.1[0] == act.args@[0]@);
                        assert(act@.1[1] == act.args@[1]@);
                        assert(act@.1[2] == act.args@[2]@);
                    }
                    res.output.exec(RuntimeAction::OutAddAttribute { path: path.as_str(), name: aname.as_str(), value: value.as_str() });
                    let ghost tm = res.output;
                    self.enter_fire_leave(path.as_str(), &mut res.output);
                    proof {
                        if clean {
                            assert(aname@ == arg_text(doc, act@, 1, caps0, names0));
                            assert(value@ == arg_text(doc, act@, 2, caps0, names0));
                            assert(path@ == arg_text(doc, act@, 0, caps0, names0));
                            let segs = choose|segs: Seq<PathSegment>| segs_of(segs) == parse_path_spec(path@) && attribute_added(&tm, &t_cur, segs, aname@, value@);
                            assert(attribute_added(&tm, &t_cur, segs, arg_text(doc, act@, 1, caps0, names0), arg_text(doc, act@, 2, caps0, names0)));
                            assert(back_or_left(res.output, tm));
                        }
                    }
                }
                proof {
                    assert(name@[0] == 'o');
                    if clean {
                        assert(action_effect(doc, act@, caps0, names0, t_cur, res.output));
                    }
                }
            } else if str_eq(name, "out.set_root_name") {
                if act.args.len() > 0 {
                    proof {
                        assert(act@.1[0] == act.args@[0]@);
                    }
                    let rname = self.expr_to_string(&act.args[0]);
                    res.output.exec(RuntimeAction::OutSetRootName { name: rname.as_str() });
                }
                proof {
                    assert(name@[0] == 'o');
                    if clean {
                        assert(action_effect(doc, act@, caps0, names0, t_cur, res.output));
                    }
                }
            } else if str_eq(name, "out.open") || str_eq(name, "out.enter") {
                if act.args.len() > 0 {
                    proof {
                        assert(act@.1[0] == act.args@[0]@);
                    }
                    let path = self.expr_to_string(&act.args[0]);
                    if str_eq(name, "out.open") {
                        res.output.exec(RuntimeAction::OutOpen { path: path.as_str() });
                    } else {
                        res.output.exec(RuntimeAction::OutEnter { path: path.as_str() });
                    }
                    let ghost tm = res.output;
                    proof {
                        let segs = choose|segs: Seq<PathSegment>| segs_of(segs) == parse_path_spec(path@) && scope_pushed(tm, t_cur, segs);
                        assert(scope_pushed(tm, t_cur, segs));
                    }
                    self.fire_triggers(TriggerKind::OnAdd, &mut res.output);
                    pending = pending + 1;
                }
                this_is_open = str_eq(name, "out.open");
                proof {
                    assert(name@[0] == 'o');
                    if clean {
                        assert(action_effect(doc, act@, caps0, names0, t_cur, res.output));
                    }
                }
            } else if str_eq(name, "out.leave") {
                self.fire_triggers(TriggerKind::OnLeave, &mut res.output);
                res.output.exec(RuntimeAction::OutLeave);
                proof {
                    let st = t_cur.spec_stack();
                    assert(left_times(st, 1) == left_times(if st.len() > 1 { st.drop_last() } else { st }, 0));
                }
                if pending > 0 {
                    pending = pending - 1;
                }
                proof {
                    assert(name@[0] == 'o');
                    if clean {
                        assert(action_effect(doc, act@, caps0, names0, t_cur, res.output));
                    }
                }
            } else if str_eq(name, "do.skip") {
                skip_rest = true;
                i = i + 1;
                proof {
                    if clean {
                        assert(run_effect(doc, rest, caps0, names0, t_cur, t_cur));
                    }
                }
                continue;
            } else if str_eq(name, "do.next") {
                do_next = true;
                i = i + 1;
                proof {
                    if clean {
                        assert(run_effect(doc, rest, caps0, names0, t_cur, t_cur));
                    }
                }
                continue;
            } else if str_eq(name, "do.return") {
                return_levels = return_levels_of(act);
                i = i + 1;
                proof {
                    if clean {
                        assert(run_effect(doc, rest, caps0, names0, t_cur, t_cur));
                    }
                }
                continue;
            } else if str_eq(name, "do.say") || str_eq(name, "do.warn") {
                if act.args.len() > 0 {
                    let mut msg = if str_eq(name, "do.say") { "say: ".to_string() } else { "warn: ".to_string() };
                    msg.append(self.expr_to_string(&act.args[0]).as_str());
                    let ghost r_before = *res;
                    let ghost pushed = msg;
                    res.traces.push(msg);
                    proof { lemma_trace_line(&r_before, res, pushed); }
                }
                proof {
                    assert(name@[0] == 'd');
                    if clean {
                        assert(action_effect(doc, act@, caps0, names0, t_cur, res.output));
                    }
                }
            } else if str_eq(name, "do.fail") {
                self.ctx.pos = self.ctx.input.len();
                let err_msg = if act.args.len() > 0 { self.expr_to_string(&act.args[0]) } else { "fail".to_string() };
                let ghost r_before = *res;
                let pushed_line = "fail invoked".to_string();
                let ghost pushed = pushed_line;
                res.traces.push(pushed_line);
                proof { lemma_trace_line(&r_before, res, pushed); }
                let mut line = "fail: ".to_string();
                line.append(err_msg.as_str());
                let ghost r_before = *res;
                let ghost pushed = line;
                res.traces.push(line);
                proof { lemma_trace_line(&r_before, res, pushed); }
                fail_error = Some(err_msg);
                return_levels = 1;
                i = i + 1;
                proof {
                    if clean {
                        assert(texts_view(res.traces@) =~= traces_before + action_traces(doc, act@, caps0, names0));
                        assert(run_effect(doc, rest, caps0, names0, t_cur, t_cur));
                    }
                }
                break;
            } else if crate::parser::validate::starts_with_str(name, "out.enqueue_") {
                self.enqueue(act);
                proof {
                    assert(name@[0] == name@.subrange(0, 12)[0]);
                    assert(name@[4] == name@.subrange(0, 12)[4]);
                    if clean {
                        assert(action_effect(doc, act@, caps0, names0, t_cur, res.output));
                    }
                }
            } else if str_eq(name, "out.clear_queue") {
                self.triggers.set(0, Vec::new());
                self.triggers.set(1, Vec::new());
                self.triggers.set(2, Vec::new());
                proof {
                    assert(name@[0] == 'o');
                    if clean {
                        assert(action_effect(doc, act@, caps0, names0, t_cur, res.output));
                    }
                }
            }
            last_was_open = this_is_open;
            i = i + 1;
            proof {
                if clean {
                    assert(texts_view(res.traces@) =~= traces_before + action_traces(doc, act@, caps0, names0));
                    assert(control_of(doc, act@, caps0, names0) is None);
                    assert(action_effect(doc, act@, caps0, names0, t_cur, res.output));
                    assert forall|t: OutputTree|
                        run_effect(doc, acts.subrange(i as int, acts.len() as int), caps0, names0, res.output, t) implies #[trigger] run_effect(
                        doc,
                        acts,
                        caps0,
                        names0,
                        t_start,
                        t,
                    ) by {
                        assert(run_effect(doc, rest, caps0, names0, t_cur, t));
                    }
                }
            }
        }
        proof {
            if !any_grammar_call(doc, acts) {
                assert(!any_grammar_call(doc, acts.subrange(0, i as int))) by {
                    assert forall|j: int| 0 <= j < i implies !calls_grammar(doc, #[trigger] acts.subrange(0, i as int)[j]) by {
                        assert(acts.subrange(0, i as int)[j] == acts[j]);
                    }
                }
                if !(skip_rest || return_levels != 0 || do_next) {
                    assert(acts.subrange(i as int, acts.len() as int) =~= Seq::<CallV>::empty());
                    assert(run_effect(doc, acts.subrange(i as int, acts.len() as int), caps0, names0, res.output, res.output));
                }
                assert(run_effect(doc, acts, caps0, names0, t_start, res.output));
            }
        }
        (return_levels, do_next, fail_error, pending)
    }

    /// `out.enqueue_*(regex, path[, value])`: registers a trigger whose regex is
    /// the raw pattern with `(?s)` in front.
    fn enqueue(&mut self, act: &FunctionCall)
        requires
            old(self).inv(),
        ensures
            advanced(final(self), old(self)),
            final(self).spec_pos() == old(self).spec_pos(),
            final(self).spec_last_caps() == old(self).spec_last_caps(),
            final(self).spec_last_names() == old(self).spec_last_names(),
            enqueued(final(self).triggers@, old(self).triggers@, *old(self).spec_doc(), act@, old(self).spec_last_caps(), old(self).spec_last_names()),
    {
        proof {
            if act.args@.len() > 0 {
                assert(act@.1[0] == act.args@[0]@);
            }
            if act.args@.len() > 1 {
                assert(act@.1[1] == act.args@[1]@);
            }
            if act.args@.len() > 2 {
                assert(act@.1[2] == act.args@[2]@);
            }
        }
        let raw: Option<String> = if act.args.len() > 0 {
            match &act.args[0] {
                Expression::Regex(r) => Some(r.clone()),
                Expression::Variable(v) => match self.ctx.doc.defines.get(v.as_str()) {
                    Some(Expression::Regex(r)) => Some(r.clone()),
                    _ => None,
                },
                _ => None,
            }
        } else {
            None
        };
        let raw = match raw {
            Some(r) => r,
            None => { return; },
        };
        let mut pattern = "(?s)".to_string();
        pattern.append(raw.as_str());
        let rx = match compile_regex(pattern.as_str()) {
            Ok(rx) => rx,
            Err(_) => { return; },
        };
        let path = if act.args.len() > 1 { self.expr_to_string(&act.args[1]) } else { String::new() };
        let value = if act.args.len() > 2 { Some(self.expr_to_string(&act.args[2])) } else { None };
        let trig = TriggerAction { path, value };
        let name = act.name.as_str();
        let target: Option<usize> = if str_eq(name, "out.enqueue_before") {
            Some(0)
        } else if str_eq(name, "out.enqueue_after") {
            Some(1)
        } else if str_eq(name, "out.enqueue_on_add") {
            Some(2)
        } else if str_eq(name, "out.enqueue_on_leave") {
            Some(3)
        } else if str_eq(name, "out.enqueue_before_persist") {
            Some(4)
        } else if str_eq(name, "out.enqueue_after_persist") {
            Some(5)
        } else if str_eq(name, "out.enqueue_on_add_persist") {
            Some(6)
        } else if str_eq(name, "out.enqueue_on_leave_persist") {
            Some(7)
        } else {
            None
        };
        proof {
            assert(pattern@ == "(?s)"@ + enqueue_raw(*self.ctx.doc, act@)->0);
        }
        match target {
            Some(t) => {
                let ghost before = self.triggers@;
                self.triggers[t].push((rx, trig));
                proof {
                    assert(self.triggers@[t as int]@.drop_last() =~= before[t as int]@);
                }
            },
            None => {},
        }
    }
}

} // verus!

verus! {

impl<'a> Runner<'a> {
    /// Leaves `n` times, each time after firing the `on_leave` triggers.
    fn auto_leave(&mut self, n: usize, tree: &mut OutputTree)
        requires
            old(self).inv(),
            old(tree).wf(),
        ensures
            advanced(final(self), old(self)),
            final(self).spec_pos() == old(self).spec_pos(),
            final(self).spec_last_caps() == old(self).spec_last_caps(),
            final(self).spec_last_names() == old(self).spec_last_names(),
            final(tree).wf(),
            final(tree).spec_stack() == left_times(old(tree).spec_stack(), n as nat),
    {
        let mut k: usize = 0;
        while k < n
            invariant
                advanced(self, old(self)),
                self.spec_pos() == old(self).spec_pos(),
                self.spec_last_caps() == old(self).spec_last_caps(),
                self.spec_last_names() == old(self).spec_last_names(),
                tree.wf(),
                k <= n,
                left_times(old(tree).spec_stack(), n as nat) == left_times(tree.spec_stack(), (n - k) as nat),
            decreases n - k,
        {
            self.fire_triggers(TriggerKind::OnLeave, tree);
            tree.leave();
            k = k + 1;
        }
    }

    /// Records a `do.fail` message as the run's error (top level only).
    fn record_error(res: &mut ExecutionResult, top: bool, fail: Option<String>)
        ensures
            final(res).output == old(res).output,
            final(res).consumed == old(res).consumed,
            final(res).traces == old(res).traces,
            final(res).diagnostics == old(res).diagnostics,
            final(res).error == if top && fail is Some { fail } else { old(res).error },
    {
        if top {
            match fail {
                Some(e) => { res.error = Some(e); },
                None => {},
            }
        }
    }

    /// A `match` statement.
    fn step_match(&mut self, m: &MatchStatement, res: &mut ExecutionResult, top: bool, depth: usize) -> (r: Step)
        requires
            old(self).inv(),
            result_ok(old(res), old(self).spec_pos()),
        ensures
            advanced(final(self), old(self)),
            result_ok(final(res), final(self).spec_pos()),
            top ==> final(res).consumed >= old(res).consumed,
            !top ==> final(res).consumed == old(res).consumed,
            r matches Step::Stop(l) ==> l >= 1,
            r is Next ==> final(self).spec_pos() == old(self).spec_pos(),
            (r is Next) == (alts_at(*old(self).spec_doc(), m.match_list.alternatives@, 0, old(self).spec_rest(), m.case_insensitive) is None),
            alts_at(*old(self).spec_doc(), m.match_list.alternatives@, 0, old(self).spec_rest(), m.case_insensitive) matches Some(f)
                ==> final(self).spec_pos() >= old(self).spec_pos() + f.0,
            top ==> (alts_at(*old(self).spec_doc(), m.match_list.alternatives@, 0, old(self).spec_rest(), m.case_insensitive) matches Some(f)
                ==> final(res).consumed >= old(res).consumed + f.0),
            r is Next ==> *final(self) == *old(self) && *final(res) == *old(res),
        decreases depth, 1int,
    {
        let (len, caps, names) = match self.eval_match(m) {
            Some(x) => x,
            None => { return Step::Next; },
        };
        let pos_before = self.ctx.pos;
        let ilen = self.ctx.input.len();
        assert(pos_before + len <= ilen);
        self.last_match_text = vstd::slice::slice_to_vec(vstd::slice::slice_subrange(self.ctx.input.as_slice(), pos_before, pos_before + len));
        self.ctx.pos = pos_before + len;
        let acts = self.actions_to_run(m.actions.as_slice(), caps.as_slice(), names.as_slice());
        self.last_captures = caps;
        self.last_capture_names = names;
        self.fire_triggers(TriggerKind::Before, &mut res.output);
        let (ret, next, fail, leaves) = self.execute_runtime_actions(acts.as_slice(), res, depth);
        if top {
            res.consumed = res.consumed + (self.ctx.pos - pos_before);
        }
        self.auto_leave(leaves, &mut res.output);
        Self::record_error(res, top, fail);
        if ret > 0 {
            return Step::Stop(ret);
        }
        if next {
            return Step::Restart;
        }
        if top {
            let ghost c1 = res.consumed;
            let mut k: usize = 0;
            while k < acts.len()
                invariant
                    k <= acts@.len(),
                    result_ok(res, self.spec_pos()),
                    res.consumed == c1,
                decreases acts@.len() - k,
            {
                res.actions.push(acts[k].copy());
                k = k + 1;
            }
            if self.last_captures.len() > 0 {
                let mut hist: Vec<String> = Vec::new();
                let mut nh: Vec<Option<String>> = Vec::new();
                let mut k: usize = 0;
                while k < self.last_captures.len()
                    invariant
                        k <= self.last_captures@.len(),
                    decreases self.last_captures@.len() - k,
                {
                    hist.push(self.last_captures[k].clone());
                    k = k + 1;
                }
                let mut k: usize = 0;
                while k < self.last_capture_names.len()
                    invariant
                        k <= self.last_capture_names@.len(),
                    decreases self.last_capture_names@.len() - k,
                {
                    nh.push(match &self.last_capture_names[k] {
                        Some(s) => Some(s.clone()),
                        None => None,
                    });
                    k = k + 1;
                }
                res.capture_history.push(hist);
                res.capture_names_history.push(nh);
            }
            let mut msg = "match consumed ".to_string();
            msg.append(usize_to_string(self.ctx.pos - pos_before).as_str());
            msg.append(" chars");
            res.trace(Severity::Info, msg);
        }
        self.fire_triggers(TriggerKind::After, &mut res.output);
        Step::Restart
    }

    /// A `when` statement.
    fn step_when(&mut self, w: &WhenStatement, res: &mut ExecutionResult, top: bool, depth: usize) -> (r: Step)
        requires
            old(self).inv(),
            result_ok(old(res), old(self).spec_pos()),
        ensures
            advanced(final(self), old(self)),
            result_ok(final(res), final(self).spec_pos()),
            top ==> final(res).consumed >= old(res).consumed,
            !top ==> final(res).consumed == old(res).consumed,
            r matches Step::Stop(l) ==> l >= 1,
            r is Next ==> final(self).spec_pos() == old(self).spec_pos(),
            (r is Next) == (alts_at(*old(self).spec_doc(), w.match_list.alternatives@, 0, old(self).spec_rest(), false) is None),
            r is Next ==> *final(self) == *old(self) && *final(res) == *old(res),
        decreases depth, 1int,
    {
        let (caps, names) = match self.eval_when(w) {
            Some(x) => x,
            None => { return Step::Next; },
        };
        let acts = self.actions_to_run(w.actions.as_slice(), caps.as_slice(), names.as_slice());
        self.last_match_text = Vec::new();
        self.last_captures = caps;
        self.last_capture_names = names;
        self.fire_triggers(TriggerKind::Before, &mut res.output);
        let (ret, next, fail, leaves) = self.execute_runtime_actions(acts.as_slice(), res, depth);
        self.auto_leave(leaves, &mut res.output);
        Self::record_error(res, top, fail);
        if ret > 0 {
            return Step::Stop(ret);
        }
        if next {
            return Step::Restart;
        }
        if top {
            res.trace(Severity::Info, "when triggered".to_string());
        }
        self.fire_triggers(TriggerKind::After, &mut res.output);
        Step::Restart
    }

    /// A `skip` statement: restarts after consuming, else does nothing.
    fn step_skip(&mut self, s: &SkipStatement, res: &mut ExecutionResult, top: bool) -> (r: Step)
        requires
            old(self).inv(),
            result_ok(old(res), old(self).spec_pos()),
        ensures
            advanced(final(self), old(self)),
            result_ok(final(res), final(self).spec_pos()),
            final(res).output == old(res).output,
            top ==> final(res).consumed >= old(res).consumed,
            !top ==> final(res).consumed == old(res).consumed,
            r !is Stop,
            r is Next ==> final(self).spec_pos() == old(self).spec_pos(),
            (r is Restart) == (skip_at(*old(self).spec_doc(), s.pattern@, old(self).spec_rest()) matches Some(n) && n > 0),
            r is Restart ==> final(self).spec_pos() == old(self).spec_pos() + skip_at(
                *old(self).spec_doc(),
                s.pattern@,
                old(self).spec_rest(),
            )->0,
            r is Restart && top ==> final(res).consumed == old(res).consumed + (final(self).spec_pos() - old(self).spec_pos()),
            r is Next ==> *final(self) == *old(self) && *final(res) == *old(res),
    {
        match self.eval_skip(s) {
            Some(len) => {
                if len > 0 {
                    let ilen = self.ctx.input.len();
                    assert(self.ctx.pos + len <= ilen);
                    self.ctx.pos = self.ctx.pos + len;
                    if top {
                        res.consumed = res.consumed + len;
                    }
                    Step::Restart
                } else {
                    Step::Next
                }
            },
            None => Step::Next,
        }
    }

    /// A bare action: a grammar call, or any other action.
    fn step_action(&mut self, a: &FunctionCall, res: &mut ExecutionResult, top: bool, depth: usize) -> (r: Step)
        requires
            old(self).inv(),
            result_ok(old(res), old(self).spec_pos()),
        ensures
            advanced(final(self), old(self)),
            result_ok(final(res), final(self).spec_pos()),
            top ==> final(res).consumed >= old(res).consumed,
            !top ==> final(res).consumed == old(res).consumed,
            r matches Step::Stop(l) ==> l >= 1,
            r is Next ==> final(self).spec_pos() == old(self).spec_pos(),
            !calls_grammar(*old(self).spec_doc(), a@) ==> {
                let c = action_step(*old(self).spec_doc(), a@, old(self).spec_last_caps(), old(self).spec_last_names());
                &&& (r is Next) <==> (a@.0 != "do.next"@ && a@.0 != "do.return"@ && a@.0 != "do.fail"@)
                &&& (r is Stop) <==> c.0 > 0
                &&& r matches Step::Stop(l) ==> l == c.0
                &&& texts_view(final(res).traces@) == texts_view(old(res).traces@) + run_traces(
                    *old(self).spec_doc(),
                    seq![substituted_call(a@, seq![], seq![])],
                    old(self).spec_last_caps(),
                    old(self).spec_last_names(),
                )
                &&& final(res).error == if top && c.2 is Some { final(res).error } else { old(res).error }
                &&& top && c.2 is Some ==> opt_text(final(res).error) == c.2
            },
        decreases depth, 1int,
    {
        proof {
            lemma_action_names();
        }
        let pos_before = self.ctx.pos;
        let is_grammar = if has_dot(a.name.as_str()) { None } else { self.ctx.doc.grammars.index_of(a.name.as_str()) };
        match is_grammar {
            Some(gi) => {
                let (sub, remaining) = if depth > 0 {
                    self.run_inline_grammar(gi, res, depth - 1)
                } else {
                    (0, 0)
                };
                if remaining > 0 {
                    if top {
                        res.consumed = res.consumed + (self.ctx.pos - pos_before);
                    }
                    return Step::Stop(remaining);
                }
                if self.ctx.pos > pos_before {
                    if top {
                        res.consumed = res.consumed + (self.ctx.pos - pos_before);
                    }
                    Step::Restart
                } else {
                    Step::Next
                }
            },
            None => {
                let no_caps: Vec<String> = Vec::new();
                let no_names: Vec<Option<String>> = Vec::new();
                proof {
                    assert(texts_view(no_caps@) =~= Seq::<Seq<char>>::empty());
                    assert(names_view(no_names@) =~= Seq::<Option<Seq<char>>>::empty());
                    assert(!calls_grammar(*self.ctx.doc, a@));
                }
                let sub = self.substitute_action(a, no_caps.as_slice(), no_names.as_slice());
                let mut one: Vec<FunctionCall> = Vec::new();
                one.push(sub);
                proof {
                    let sv = substituted_call(a@, seq![], seq![]);
                    assert(calls_view(one@) =~= seq![sv]);
                    assert(seq![sv].drop_first() =~= Seq::<CallV>::empty());
                    assert(seq![sv][0] == sv);
                    assert(!any_grammar_call(*self.ctx.doc, seq![sv])) by {
                        assert forall|j: int| 0 <= j < 1 implies !calls_grammar(*self.ctx.doc, #[trigger] seq![sv][j]) by {
                            assert(seq![sv][j] == sv);
                        }
                    }
                }
                let ghost caps0 = self.spec_last_caps();
                let ghost names0 = self.spec_last_names();
                let (ret, next, fail, leaves) = self.execute_runtime_actions(one.as_slice(), res, depth);
                proof {
                    let sv = substituted_call(a@, seq![], seq![]);
                    let d = *self.ctx.doc;
                    assert(sv.0 == a@.0);
                    assert(control_spec(d, Seq::<CallV>::empty(), caps0, names0) == (0int, false, None::<Seq<char>>));
                    assert(control_spec(d, seq![sv], caps0, names0) == match control_of(d, sv, caps0, names0) {
                        Some(x) => x,
                        None => control_spec(d, Seq::<CallV>::empty(), caps0, names0),
                    });
                }
                self.auto_leave(leaves, &mut res.output);
                Self::record_error(res, top, fail);
                if ret > 0 {
                    return Step::Stop(ret);
                }
                if next {
                    return Step::Restart;
                }
                if self.ctx.pos > pos_before {
                    if top {
                        res.consumed = res.consumed + (self.ctx.pos - pos_before);
                    }
                    Step::Restart
                } else {
                    Step::Next
                }
            },
        }
    }

    /// One pass over a grammar's statements (inherited ones first), until one
    /// restarts or stops the loop.
    fn run_statements(&mut self, gi: usize, res: &mut ExecutionResult, top: bool, depth: usize) -> (r: Step)
        requires
            old(self).inv(),
            result_ok(old(res), old(self).spec_pos()),
            gi < old(self).spec_doc().grammars.entries@.len(),
        ensures
            advanced(final(self), old(self)),
            result_ok(final(res), final(self).spec_pos()),
            !top ==> final(res).consumed == old(res).consumed,
            r matches Step::Stop(l) ==> l >= 1,
            r is Next ==> final(self).spec_pos() == old(self).spec_pos(),
            r is Next ==> forall|t: int|
                0 <= t < old(self).chains@[gi as int]@.len() ==> stmt_passed(
                    *old(self).spec_doc(),
                    stmt_at(*old(self).spec_doc(), #[trigger] old(self).chains@[gi as int]@[t]),
                    old(self).spec_rest(),
                ),
            (forall|t: int|
                0 <= t < old(self).chains@[gi as int]@.len() ==> stmt_quiet(
                    *old(self).spec_doc(),
                    stmt_at(*old(self).spec_doc(), #[trigger] old(self).chains@[gi as int]@[t]),
                    old(self).spec_rest(),
                )) ==> r is Next,
            final(self).spec_pos() >= old(self).spec_pos() + first_advance(*old(self).spec_doc(), old(self).chains@[gi as int]@, old(self).spec_rest()),
            top ==> final(res).consumed >= old(res).consumed + first_advance(*old(self).spec_doc(), old(self).chains@[gi as int]@, old(self).spec_rest()),
            top ==> final(res).consumed >= old(res).consumed,
            lead_return(*old(self).spec_doc(), old(self).chains@[gi as int]@, old(self).spec_last_caps(), old(self).spec_last_names()) > 0
                ==> (r matches Step::Stop(l) && l == lead_return(
                *old(self).spec_doc(),
                old(self).chains@[gi as int]@,
                old(self).spec_last_caps(),
                old(self).spec_last_names(),
            )),
        decreases depth, 2int,
    {
        let doc: &'a GelDocument = self.ctx.doc;
        let chain = vstd::slice::slice_to_vec(self.chains[gi].as_slice());
        let ghost rest0 = self.spec_rest();
        let ghost fa = first_advance(*doc, chain@, rest0);
        let ghost lead = lead_return(*doc, chain@, self.spec_last_caps(), self.spec_last_names());
        let mut k: usize = 0;
        while k < chain.len()
            invariant
                chain@ == old(self).chains@[gi as int]@,
                rest0 == old(self).spec_rest(),
                fa == first_advance(*doc, chain@, rest0),
                self.spec_rest() == rest0,
                k >= 1 ==> fa == 0,
                lead == lead_return(*old(self).spec_doc(), old(self).chains@[gi as int]@, old(self).spec_last_caps(), old(self).spec_last_names()),
                k == 0 ==> self.spec_last_caps() == old(self).spec_last_caps() && self.spec_last_names() == old(self).spec_last_names(),
                k >= 1 ==> lead <= 0,
                top ==> res.consumed >= old(res).consumed,
                forall|t: int| 0 <= t < k ==> stmt_passed(*doc, stmt_at(*doc, #[trigger] chain@[t]), rest0),
                advanced(self, old(self)),
                self.spec_pos() == old(self).spec_pos(),
                result_ok(res, self.spec_pos()),
                !top ==> res.consumed == old(res).consumed,
                doc == self.spec_doc(),
                k <= chain@.len(),
                forall|t: int| 0 <= t < chain@.len() ==> (#[trigger] chain@[t]).0 < doc.grammars.entries@.len()
                    && chain@[t].1 < doc.grammars.entries@[chain@[t].0 as int].1.statements@.len(),
            decreases chain@.len() - k,
        {
            let (g, s) = chain[k];
            let stmt = &doc.grammars.entries[g].1.statements[s];
            proof {
                assert(*stmt == stmt_at(*doc, chain@[k as int]));
            }
            let step = match stmt {
                Statement::Match(m) => self.step_match(m, res, top, depth),
                Statement::When(w) => self.step_when(w, res, top, depth),
                Statement::Skip(sk) => self.step_skip(sk, res, top),
                Statement::Action(a) => self.step_action(a, res, top, depth),
            };
            proof {
                if k == 0 && lead > 0 {
                    assert(step matches Step::Stop(l) && l == lead);
                }
            }
            match step {
                Step::Next => {},
                other => {
                    proof {
                        assert(!stmt_quiet(*doc, stmt_at(*doc, chain@[k as int]), rest0));
                    }
                    return other;
                },
            }
            proof {
                assert(stmt_passed(*doc, stmt_at(*doc, chain@[k as int]), rest0));
            }
            k = k + 1;
        }
        Step::Next
    }

    /// Runs another grammar at the current position inside the current run.
    /// Returns how far it advanced and the return levels left after it took
    /// one for itself.
    fn run_inline_grammar(&mut self, gi: usize, res: &mut ExecutionResult, depth: usize) -> (r: (usize, i32))
        requires
            old(self).inv(),
            result_ok(old(res), old(self).spec_pos()),
            gi < old(self).spec_doc().grammars.entries@.len(),
        ensures
            advanced(final(self), old(self)),
            result_ok(final(res), final(self).spec_pos()),
            final(res).consumed == old(res).consumed,
            r.0 == final(self).spec_pos() - old(self).spec_pos(),
            r.1 >= 0,
            lead_return(*old(self).spec_doc(), old(self).chains@[gi as int]@, old(self).spec_last_caps(), old(self).spec_last_names()) > 0
                ==> r.1 == lead_return(
                *old(self).spec_doc(),
                old(self).chains@[gi as int]@,
                old(self).spec_last_caps(),
                old(self).spec_last_names(),
            ) - 1,
            r.0 >= first_advance(*old(self).spec_doc(), old(self).chains@[gi as int]@, old(self).spec_rest()),
            (forall|t: int|
                0 <= t < old(self).chains@[gi as int]@.len() ==> stmt_quiet(
                    *old(self).spec_doc(),
                    stmt_at(*old(self).spec_doc(), #[trigger] old(self).chains@[gi as int]@[t]),
                    old(self).spec_rest(),
                )) ==> r.0 == 0 && r.1 == 0,
        decreases depth, 3int,
    {
        let start = self.ctx.pos;
        let ghost fa = first_advance(*self.ctx.doc, self.chains@[gi as int]@, self.spec_rest());
        let ghost quiet = forall|t: int|
            0 <= t < self.chains@[gi as int]@.len() ==> stmt_quiet(
                *self.ctx.doc,
                stmt_at(*self.ctx.doc, #[trigger] self.chains@[gi as int]@[t]),
                self.spec_rest(),
            );
        let ghost mut done_first = false;
        let ghost lead = lead_return(*self.ctx.doc, self.chains@[gi as int]@, self.spec_last_caps(), self.spec_last_names());
        let mut return_levels: i32 = 0;
        loop
            invariant_except_break
                quiet ==> !done_first,
                lead > 0 ==> !done_first,
            invariant
                advanced(self, old(self)),
                result_ok(res, self.spec_pos()),
                res.consumed == old(res).consumed,
                gi < self.spec_doc().grammars.entries@.len(),
                start == old(self).spec_pos(),
                return_levels >= 0,
                fa == first_advance(*old(self).spec_doc(), old(self).chains@[gi as int]@, old(self).spec_rest()),
                quiet == forall|t: int|
                    0 <= t < old(self).chains@[gi as int]@.len() ==> stmt_quiet(
                        *old(self).spec_doc(),
                        stmt_at(*old(self).spec_doc(), #[trigger] old(self).chains@[gi as int]@[t]),
                        old(self).spec_rest(),
                    ),
                !done_first ==> self.chains == old(self).chains && self.spec_pos() == old(self).spec_pos(),
                done_first ==> self.spec_pos() >= start + fa,
                !done_first ==> return_levels == 0,
                lead == lead_return(*old(self).spec_doc(), old(self).chains@[gi as int]@, old(self).spec_last_caps(), old(self).spec_last_names()),
                !done_first ==> self.spec_last_caps() == old(self).spec_last_caps() && self.spec_last_names() == old(self).spec_last_names(),
            ensures
                advanced(self, old(self)),
                result_ok(res, self.spec_pos()),
                res.consumed == old(res).consumed,
                return_levels >= 0,
                self.spec_pos() >= start + fa,
                quiet ==> self.spec_pos() == start && return_levels == 0,
                lead > 0 ==> return_levels == lead,
            decreases self.spec_len() - self.spec_pos(),
        {
            let pos_before = self.ctx.pos;
            proof {
                if !done_first {
                    assert(self.spec_rest() == old(self).spec_rest());
                    assert(*self.spec_doc() == *old(self).spec_doc());
                }
            }
            let ghost first = !done_first;
            match self.run_statements(gi, res, false, depth) {
                Step::Stop(l) => {
                    proof {
                        if first && lead > 0 {
                            assert(l == lead);
                        }
                    }
                    return_levels = l;
                    proof {
                        assert(first && quiet ==> false);
                        done_first = true;
                    }
                    break;
                },
                _ => {},
            }
            proof {
                done_first = true;
            }
            if self.ctx.pos == pos_before {
                break;
            }
            proof {
                assert(first && quiet ==> false);
            }
        }
        let remaining = if return_levels > 1 { return_levels - 1 } else { 0 };
        (self.ctx.pos - start, remaining)
    }

    /// Runs the named grammar over the whole input.
    pub fn run_grammar(self, name: &str) -> (r: Result<ExecutionResult, GelError>)
        requires
            self.inv(),
            self.spec_pos() == 0,
        ensures
            r is Ok <==> self.spec_doc().grammars.spec_get(name@) is Some,
            r matches Ok(res) ==> res.output.wf() && res.consumed <= self.spec_len(),
            r matches Ok(res) ==> diags_in_traces(&res),
            r matches Ok(res) ==> res.consumed >= grammar_advance(*self.spec_doc(), name@, self.spec_input()),
            r matches Err(e) ==> is_grammar_not_found(e, name@),
    {
        let mut runner = self;
        runner.run_from_start(name)
    }

    fn run_from_start(&mut self, name: &str) -> (r: Result<ExecutionResult, GelError>)
        requires
            old(self).inv(),
            old(self).spec_pos() == 0,
        ensures
            r is Ok <==> old(self).spec_doc().grammars.spec_get(name@) is Some,
            r matches Ok(res) ==> res.output.wf() && res.consumed <= old(self).spec_len(),
            r matches Ok(res) ==> diags_in_traces(&res),
            r matches Ok(res) ==> res.consumed >= grammar_advance(*old(self).spec_doc(), name@, old(self).spec_input()),
            r matches Err(e) ==> is_grammar_not_found(e, name@),
    {
        let gi = match self.ctx.doc.grammars.index_of(name) {
            Some(g) => g,
            None => {
                let mut msg = "Grammar not found: ".to_string();
                msg.append(name);
                return Err(GelError::runtime(msg.as_str(), None));
            },
        };
        let mut res = ExecutionResult::with_capacity_hint(self.ctx.input.len());
        let ghost len = self.spec_len();
        let ghost fa0 = grammar_advance(*old(self).spec_doc(), name@, old(self).spec_input());
        let ghost mut first_done = false;
        proof {
            assert(self.chains@[gi as int]@ == chain_statements(*self.ctx.doc, inherited(*self.ctx.doc, gi as int)));
            assert(self.spec_rest() =~= self.spec_input());
            assert(fa0 == first_advance(*self.spec_doc(), self.chains@[gi as int]@, self.spec_rest()));
        }
        loop
            invariant
                self.inv(),
                self.spec_len() == len,
                result_ok(&res, self.spec_pos()),
                gi < self.spec_doc().grammars.entries@.len(),
                fa0 == grammar_advance(*old(self).spec_doc(), name@, old(self).spec_input()),
                !first_done ==> res.consumed == 0 && self.spec_rest() == old(self).spec_input()
                    && self.spec_doc() == old(self).spec_doc() && self.chains == old(self).chains
                    && fa0 == first_advance(*self.spec_doc(), self.chains@[gi as int]@, self.spec_rest()),
                first_done ==> res.consumed >= fa0,
            ensures
                result_ok(&res, self.spec_pos()),
                self.spec_len() == len,
                self.inv(),
                res.consumed >= fa0,
            decreases len - self.spec_pos(),
        {
            let start = self.ctx.pos;
            let ghost before = self;
            let ghost c_before = res.consumed;
            match self.run_statements(gi, &mut res, true, MAX_GRAMMAR_DEPTH) {
                Step::Stop(_) => {
                    proof {
                        first_done = true;
                    }
                    break;
                },
                _ => {},
            }
            proof {
                first_done = true;
            }
            if self.ctx.pos >= self.ctx.input.len() {
                break;
            }
            if self.ctx.pos == start {
                let mut msg = "no match found in grammar ".to_string();
                msg.append(name);
                msg.append(", pos ");
                msg.append(usize_to_string(self.ctx.pos).as_str());
                res.trace(Severity::Warning, msg);
                break;
            }
        }
        Ok(res)
    }
}

/// How far the first statement of the named grammar (its inherited
/// statements first) moves at the start of `input`: a `match` by the length
/// of its first matching alternative, a `skip` by its distance (see
/// [`first_advance`]); 0 when the grammar does not exist.
pub open spec fn grammar_advance(doc: GelDocument, name: Seq<char>, input: Seq<u8>) -> int {
    match find_key(doc.grammars.entries@, name) {
        Some(g) => first_advance(doc, chain_statements(doc, inherited(doc, g)), input),
        None => 0,
    }
}

/// Whether `res` is what a run over `input` gives: the output tree flattened
/// and well formed, no more consumed than the input holds, every diagnostic
/// also a trace line.
pub open spec fn run_result(res: ExecutionResult, input: Seq<u8>) -> bool {
    &&& res.flat matches Some(f) && f.wf()
    &&& res.consumed <= input.len()
    &&& diags_in_traces(&res)
}

/// Whether `res` is a run over `input` whose diagnostics may have been added
/// to afterwards: the output tree flattened and well formed, no more consumed
/// than the input holds.
pub open spec fn ran_over(res: ExecutionResult, input: Seq<u8>) -> bool {
    &&& res.flat matches Some(f) && f.wf()
    &&& res.consumed <= input.len()
}

/// Runs a grammar of an already compiled document against `input`, then
/// compacts and flattens the output tree.
pub fn execute_precompiled(doc: &GelDocument, grammar: &str, input: &str) -> (r: Result<ExecutionResult, GelError>)
    requires
        doc.wf(),
    ensures
        r is Ok <==> doc.grammars.spec_get(grammar@) is Some,
        r matches Ok(res) ==> res.flat matches Some(f) && f.wf() && res.consumed <= input.spec_bytes().len(),
        r matches Ok(res) ==> diags_in_traces(&res),
        r matches Ok(res) ==> res.consumed >= grammar_advance(*doc, grammar@, input.spec_bytes()),
        r matches Err(e) ==> is_grammar_not_found(e, grammar@),
{
    let runner = Runner::new(doc, input);
    let mut result = match runner.run_grammar(grammar) {
        Ok(res) => res,
        Err(e) => { return Err(e); },
    };
    let mut tree = OutputTree::new();
    std::mem::swap(&mut result.output, &mut tree);
    result.flat = Some(tree.compact_and_flatten());
    Ok(result)
}

/// Compiles the document's regexes, then runs a grammar (see
/// [`execute_precompiled`]).
pub fn execute(doc: &mut GelDocument, grammar: &str, input: &str) -> (r: Result<ExecutionResult, GelError>)
    requires
        old(doc).wf(),
    ensures
        final(doc).wf(),
        r is Ok <==> old(doc).grammars.spec_get(grammar@) is Some,
        r matches Ok(res) ==> res.flat matches Some(f) && f.wf() && res.consumed <= input.spec_bytes().len(),
        r matches Ok(res) ==> diags_in_traces(&res),
        r matches Ok(res) ==> res.consumed >= grammar_advance(*final(doc), grammar@, input.spec_bytes()),
        r matches Err(e) ==> is_grammar_not_found(e, grammar@),
{
    doc.compile_regexes();
    proof {
        crate::parser::ast::lemma_same_keys_get(&doc.grammars, &old(doc).grammars, grammar@);
    }
    execute_precompiled(doc, grammar, input)
}

} // verus!
