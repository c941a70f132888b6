//! Streaming execution: the input arrives in chunks; after each chunk the
//! grammar runs as far as the text at hand allows, and reports what it did to
//! the output tree as [`StreamingEvent`]s.
//!
//! The caller feeds text with [`StreamingRunner::feed`], calls
//! [`StreamingRunner::step`] to run, signals the end with
//! [`StreamingRunner::set_eof`] and collects the run with
//! [`StreamingRunner::finish`].

use vstd::prelude::*;
use vstd::string::*;
use crate::bytes::{bytes_prefix, starts_with_bytes};
use crate::exec::matching::{
    capture_ref, first_named, found_caps, found_groups, groups_view, lemma_ref_end, names_view, opt_text, range_text, ref_end,
    texts_view, whole_match, GroupV,
};
use crate::exec::skip::fast_skip_spec;
use crate::parser::ast::{alt_view, alts_view, calls_view, classify_spec, exprs_view, stmt_view, CallV, ExprV, NameMap, StmtV};
use crate::parser::compile::{anchored_variant, chain_fuel, resolve_var};
use crate::pattern::{regex_captures_of, regex_compiles, regex_error_text, regex_group_names};
use crate::text::{decimal_int, lowercase_of, utf8_lossy};
use crate::parser::syntax::parse_int_spec;
use vstd::utf8::valid_utf8;
use crate::errors::{Diagnostic, GelError};
use crate::exec::out::{
    ActionExecutor, OutputTree, PathSegment, RuntimeAction, attribute_added, parse_path_spec, percent_decode_spec, scope_pushed, segs_of,
    value_view,
};
use crate::exec::runner::{
    ExecutionResult, TriggerAction, execute, group_text, left_times, lookup_capture, path_effect, statement_chain,
};
use crate::exec::skip::try_fast_skip;
use crate::parser::ast::{
    Expression, FunctionCall, GelDocument, MatchFieldList, MatchStatement, SkipStatement, Statement, WhenStatement,
};
use crate::parser::compile::resolve_variable;
use crate::parser::copy::{copy_document, copy_statement};
use crate::pattern::{CompiledRegex, compile_regex, regex_capture_names, regex_captures};
use crate::text::{
    bytes_to_string, chars_to_string, i64_to_string, push_all, str_eq, str_to_bytes, str_to_chars, to_lowercase,
    usize_to_string, utf8_decode,
};

verus! {

/// What a step did to the output tree, or where the run stands.
#[derive(Debug, Clone, PartialEq, Eq)]
pub enum StreamingEvent {
    /// `out.create("path", value)`.
    Create { path: String, value: Option<String> },
    /// `out.add("path", value)`.
    Add { path: String, value: Option<String> },
    /// `out.replace("path", value)`.
    Replace { path: String, value: Option<String> },
    /// `out.add_attribute("path", "name", "value")`.
    AddAttribute { path: String, name: String, value: String },
    /// `out.set_root_name("name")`.
    SetRootName { name: String },
    /// `out.open("path")`.
    Open { path: String },
    /// `out.enter("path")`.
    Enter { path: String },
    /// `out.leave`.
    Leave,
    /// A match consumed `len` bytes at position `pos`.
    MatchConsumed { pos: usize, len: usize },
    /// A `when` statement fired.
    WhenFired,
    /// The run waits for more input at `pos`; `remaining` bytes are unread.
    Stalled { pos: usize, remaining: usize },
    /// The run is over after `consumed` bytes.
    Finished { consumed: usize },
}

/// Groups matched by an expression: (text, group name).
type SGroups = Vec<(String, Option<String>)>;

/// A grammar run over input that arrives in chunks.
pub struct StreamingRunner {
    doc: GelDocument,
    buffer: Vec<u8>,
    pos: usize,
    eof: bool,
    grammar_name: String,
    /// The grammar's statements and those it inherits, as (grammar, statement)
    /// indices into `doc`.
    statements: Vec<(usize, usize)>,
    tree: OutputTree,
    traces: Vec<String>,
    diagnostics: Vec<Diagnostic>,
    actions: Vec<FunctionCall>,
    capture_history: Vec<Vec<String>>,
    capture_names_history: Vec<Vec<Option<String>>>,
    error: Option<String>,
    consumed: usize,
    /// Trigger lists: before, after, on_add, on_leave, then the persistent ones.
    triggers: Vec<Vec<(CompiledRegex, TriggerAction)>>,
    last_match_text: String,
    last_captures: Vec<String>,
    last_capture_names: Vec<Option<String>>,
}

/// One attempt at a statement: nothing matched, the pass restarts, or the
/// grammar returned (after `Finished`).
enum Outcome {
    NoMatch,
    Restart,
    Returned,
}

impl StreamingRunner {
    /// The runner's invariant: the position lies in the buffer, every byte
    /// before it was consumed, and the tables agree with the document.
    pub closed spec fn inv(&self) -> bool {
        &&& self.pos <= self.buffer@.len()
        &&& self.consumed == self.pos
        &&& self.doc.wf()
        &&& self.tree.wf()
        &&& self.triggers@.len() == 8
        &&& forall|k: int|
            0 <= k < self.statements@.len() ==> (#[trigger] self.statements@[k]).0 < self.doc.grammars.entries@.len()
                && self.statements@[k].1 < self.doc.grammars.entries@[self.statements@[k].0 as int].1.statements@.len()
    }

    /// The bytes fed so far.
    pub closed spec fn spec_buffer(&self) -> Seq<u8> {
        self.buffer@
    }

    /// The position reached in the buffer.
    pub closed spec fn spec_pos(&self) -> nat {
        self.pos as nat
    }

    /// Whether the caller said no more input comes.
    pub closed spec fn spec_eof(&self) -> bool {
        self.eof
    }

    /// The bytes fed and not yet consumed.
    pub closed spec fn spec_rest(&self) -> Seq<u8> {
        self.buffer@.subrange(self.pos as int, self.buffer@.len() as int)
    }

    /// The event a step ends with when the run cannot go on: `Finished` at the
    /// end of the input, else `Stalled` at the position with the unread bytes.
    pub closed spec fn wait_event(&self) -> StreamingEvent {
        if self.eof {
            StreamingEvent::Finished { consumed: self.pos }
        } else {
            StreamingEvent::Stalled { pos: self.pos, remaining: (self.buffer@.len() - self.pos) as usize }
        }
    }

    /// How far the first statement moves at the position: a `match` by the
    /// length of the first alternative that matches, a `skip` by its
    /// distance; 0 when it does not, for any other statement, or at the end
    /// of what was fed.
    pub closed spec fn spec_first_advance(&self) -> int {
        if self.statements@.len() == 0 || self.pos >= self.buffer@.len() {
            0
        } else {
            let gs = self.statements@[0];
            match self.doc.grammars.entries@[gs.0 as int].1.statements@[gs.1 as int] {
                Statement::Match(m) => match stream_alts_at(
                    self.doc.defines.entries@,
                    m.match_list.alternatives@,
                    0,
                    self.spec_rest(),
                    m.case_insensitive,
                ) {
                    Some(x) => x.0,
                    None => 0,
                },
                Statement::Skip(sk) => match stream_skip_at(self.doc.defines.entries@, sk.pattern@, self.spec_rest()) {
                    Some(n) => n,
                    None => 0,
                },
                _ => 0,
            }
        }
    }

    /// Whether every regex of the run's statements (its grammar's and those it
    /// inherits) compiles.
    pub closed spec fn spec_regexes_compile(&self) -> bool {
        forall|k: int|
            0 <= k < self.statements@.len() ==> view_compiles(
                self.doc.defines.entries@,
                stmt_view(self.doc.grammars.entries@[self.statements@[k].0 as int].1.statements@[#[trigger] self.statements@[k].1 as int]),
            )
    }

    /// The output tree built so far.
    pub closed spec fn spec_tree(&self) -> OutputTree {
        self.tree
    }

    /// A runner for the named grammar over a copy of the document; an error
    /// when the grammar does not exist.
    pub fn new(doc: &mut GelDocument, grammar_name: &str) -> (r: Result<StreamingRunner, GelError>)
        requires
            old(doc).wf(),
        ensures
            *final(doc) == *old(doc),
            r is Ok <==> old(doc).grammars.spec_get(grammar_name@) is Some,
            r matches Ok(sr) ==> sr.inv() && sr.spec_pos() == 0 && sr.spec_buffer().len() == 0 && !sr.spec_eof(),
            r matches Err(e) ==> crate::errors::is_grammar_not_found(e, grammar_name@),
    {
        let gi = match doc.grammars.index_of(grammar_name) {
            Some(g) => g,
            None => {
                let mut msg = "Grammar not found: ".to_string();
                msg.append(grammar_name);
                return Err(GelError::runtime(msg.as_str(), None));
            },
        };
        let own = copy_document(doc);
        let statements = statement_chain(&own, gi);
        let mut triggers: Vec<Vec<(CompiledRegex, TriggerAction)>> = Vec::new();
        let mut k: usize = 0;
        while k < 8
            invariant
                k <= 8,
                triggers@.len() == k,
            decreases 8 - k,
        {
            triggers.push(Vec::new());
            k = k + 1;
        }
        Ok(
            StreamingRunner {
                doc: own,
                buffer: Vec::new(),
                pos: 0,
                eof: false,
                grammar_name: grammar_name.to_string(),
                statements,
                tree: OutputTree::new(),
                traces: Vec::new(),
                diagnostics: Vec::new(),
                actions: Vec::new(),
                capture_history: Vec::new(),
                capture_names_history: Vec::new(),
                error: None,
                consumed: 0,
                triggers,
                last_match_text: String::new(),
                last_captures: Vec::new(),
                last_capture_names: Vec::new(),
            },
        )
    }

    /// Appends a chunk of input text.
    pub fn feed(&mut self, chunk: &str)
        requires
            old(self).inv(),
        ensures
            final(self).spec_pos() <= final(self).spec_buffer().len(),
            final(self).inv(),
            final(self).spec_buffer() == old(self).spec_buffer() + chunk.spec_bytes(),
            final(self).spec_pos() == old(self).spec_pos(),
            final(self).spec_eof() == old(self).spec_eof(),
            final(self).spec_tree() == old(self).spec_tree(),
    {
        let b = str_to_bytes(chunk);
        push_all(&mut self.buffer, b.as_slice());
    }

    /// Says that no more input comes.
    pub fn set_eof(&mut self)
        requires
            old(self).inv(),
        ensures
            final(self).spec_pos() <= final(self).spec_buffer().len(),
            final(self).inv(),
            final(self).spec_eof(),
            final(self).spec_buffer() == old(self).spec_buffer(),
            final(self).spec_pos() == old(self).spec_pos(),
            final(self).spec_tree() == old(self).spec_tree(),
    {
        self.eof = true;
    }

    /// The position reached, in bytes.
    pub fn position(&self) -> (r: usize)
        ensures
            r == self.spec_pos(),
    {
        self.pos
    }

    /// The bytes consumed so far (always the position).
    pub fn total_consumed(&self) -> (r: usize)
        requires
            self.inv(),
        ensures
            r == self.spec_pos(),
            r <= self.spec_buffer().len(),
    {
        self.consumed
    }

    /// The output tree built so far.
    pub fn output(&self) -> (r: &OutputTree)
        ensures
            *r == self.spec_tree(),
    {
        &self.tree
    }
}

/// The name of group `i`, if it has one.
fn opt_name(names: &Vec<Option<String>>, i: usize) -> (r: Option<String>)
    ensures
        opt_text(r) == if i < names@.len() { opt_text(names@[i as int]) } else { None },
{
    if i < names.len() {
        match &names[i] {
            Some(n) => Some(n.clone()),
            None => None,
        }
    } else {
        None
    }
}

/// The text of the first capture whose group is named `name`; empty when
/// there is none.
pub open spec fn named_capture(name: Seq<char>, caps: Seq<Seq<char>>, names: Seq<Option<Seq<char>>>) -> Seq<char> {
    match first_named(names, name, 0) {
        Some(i) => if i < caps.len() { caps[i] } else { seq![] },
        None => seq![],
    }
}

/// The capture named `name`: the first capture whose group has that name.
fn capture_by_name(name: &str, caps: &[String], names: &[Option<String>]) -> (r: String)
    ensures
        r@ == named_capture(name@, texts_view(caps@), names_view(names@)),
{
    let ghost nv = names_view(names@);
    let mut i: usize = 0;
    while i < names.len()
        invariant
            i <= names@.len(),
            nv == names_view(names@),
            first_named(nv, name@, 0) == first_named(nv, name@, i as int),
        decreases names@.len() - i,
    {
        match &names[i] {
            Some(n) => {
                if str_eq(n.as_str(), name) {
                    proof {
                        assert(nv[i as int] == Some(name@));
                        if i < caps@.len() {
                            assert(texts_view(caps@)[i as int] == caps@[i as int]@);
                        }
                    }
                    return if i < caps.len() {
                        caps[i].clone()
                    } else {
                        String::new()
                    };
                }
            },
            None => {},
        }
        i = i + 1;
    }
    String::new()
}

/// A text at the start of `rem`, compared byte for byte (and not empty, when
/// `nonempty`): its UTF-8 length and the text as the one group.
pub open spec fn literal_at(val: Seq<char>, rem: Seq<u8>, nonempty: bool) -> Option<(int, Seq<GroupV>)> {
    let b = vstd::utf8::encode_utf8(val);
    if nonempty && b.len() == 0 {
        None
    } else if bytes_prefix(rem, b) {
        Some((b.len() as int, seq![(val, None)]))
    } else {
        None
    }
}

/// Whether `rem` starts with the bytes of `s` (and `s` is not empty, when
/// `nonempty`): the length matched and the group it makes.
fn match_literal(s: &str, rem: &[u8], nonempty: bool) -> (r: Option<(usize, SGroups)>)
    ensures
        r matches Some(x) ==> x.0 <= rem@.len(),
        found_groups(r) == literal_at(s@, rem@, nonempty),
{
    let b = str_to_bytes(s);
    if nonempty && b.len() == 0 {
        return None;
    }
    if starts_with_bytes(rem, b.as_slice()) {
        let mut g: SGroups = Vec::new();
        g.push((s.to_string(), None));
        proof {
            assert(groups_view(g@) =~= seq![(s@, None::<Seq<char>>)]);
        }
        Some((b.len(), g))
    } else {
        None
    }
}

/// `c[i..]` with `$` references filled in: `$` and a reference is the capture
/// it names (nothing when there is none); a `$` that starts no reference stays.
pub open spec fn refs_interpolated(c: Seq<char>, i: int, caps: Seq<Seq<char>>, names: Seq<Option<Seq<char>>>) -> Seq<char>
    decreases c.len() - i,
{
    if i < 0 || i >= c.len() {
        seq![]
    } else if c[i] == '$' {
        let j = ref_end(c, i + 1);
        let piece: Seq<char> = if j == i + 1 {
            seq!['$']
        } else {
            match capture_ref(c.subrange(i + 1, j), caps, names) {
                Some(v) => v,
                None => seq![],
            }
        };
        proof {
            lemma_ref_end(c, i + 1);
        }
        piece + refs_interpolated(c, j, caps, names)
    } else {
        seq![c[i]] + refs_interpolated(c, i + 1, caps, names)
    }
}

/// `$ref` interpolation of an action argument: `$N` is capture `N`, `$name`
/// the capture of that group name, a lone `$` stays, an unknown reference is
/// dropped.
fn interpolate_refs(s: &str, caps: &[String], names: &[Option<String>]) -> (r: String)
    ensures
        r@ == refs_interpolated(s@, 0, texts_view(caps@), names_view(names@)),
{
    let c = str_to_chars(s);
    let ghost cv = texts_view(caps@);
    let ghost nv = names_view(names@);
    let mut out: Vec<char> = Vec::new();
    let mut i: usize = 0;
    while i < c.len()
        invariant
            i <= c@.len(),
            c@ == s@,
            cv == texts_view(caps@),
            nv == names_view(names@),
            refs_interpolated(c@, 0, cv, nv) == out@ + refs_interpolated(c@, i as int, cv, nv),
        decreases c@.len() - i,
    {
        let ch = c[i];
        let ghost before = out@;
        if ch == '$' {
            let mut j = i + 1;
            while j < c.len() && (('0' <= c[j] && c[j] <= '9') || ('a' <= c[j] && c[j] <= 'z') || ('A' <= c[j] && c[j]
                <= 'Z') || c[j] == '_')
                invariant
                    i < j <= c@.len(),
                    ref_end(c@, i + 1) == ref_end(c@, j as int),
                decreases c@.len() - j,
            {
                j = j + 1;
            }
            if j == i + 1 {
                out.push('$');
            } else {
                let token = chars_to_string(vstd::slice::slice_subrange(c.as_slice(), i + 1, j));
                match lookup_capture(token.as_str(), caps, names) {
                    Some(val) => crate::text::push_str(&mut out, val.as_str()),
                    None => {},
                }
                proof {
                    assert(token@ == c@.subrange(i + 1, j as int));
                }
            }
            proof {
                let piece = out@.subrange(before.len() as int, out@.len() as int);
                assert(out@ =~= before + piece);
                assert(before + (piece + refs_interpolated(c@, j as int, cv, nv)) =~= out@ + refs_interpolated(c@, j as int, cv, nv));
            }
            i = j;
        } else {
            out.push(ch);
            proof {
                assert(before + (seq![ch] + refs_interpolated(c@, i + 1, cv, nv)) =~= out@ + refs_interpolated(c@, i + 1, cv, nv));
            }
            i = i + 1;
        }
    }
    proof {
        assert(out@ + Seq::<char>::empty() =~= out@);
    }
    chars_to_string(out.as_slice())
}

/// Where the run of ASCII digits that starts at `j` ends.
pub open spec fn digits_end(c: Seq<char>, j: int) -> int
    decreases c.len() - j,
{
    if 0 <= j < c.len() && '0' <= c[j] <= '9' {
        digits_end(c, j + 1)
    } else {
        j
    }
}

/// The end of a run of digits lies between its start and the end of the text.
pub proof fn lemma_digits_end(c: Seq<char>, j: int)
    requires
        0 <= j,
    ensures
        j <= digits_end(c, j),
        j <= c.len() ==> digits_end(c, j) <= c.len(),
    decreases c.len() - j,
{
    if 0 <= j < c.len() && '0' <= c[j] <= '9' {
        lemma_digits_end(c, j + 1);
    }
}

/// `c[i..]` with trigger references filled in: `\$` is `$`; `$N` is capture
/// `N` (nothing when there is none); a `$` without digits stays.
pub open spec fn digits_interpolated(c: Seq<char>, i: int, caps: Seq<Seq<char>>) -> Seq<char>
    decreases c.len() - i,
{
    if i < 0 || i >= c.len() {
        seq![]
    } else if c[i] == '\\' && i + 1 < c.len() && c[i + 1] == '$' {
        seq!['$'] + digits_interpolated(c, i + 2, caps)
    } else if c[i] == '$' {
        let j = digits_end(c, i + 1);
        let piece: Seq<char> = if j == i + 1 {
            seq!['$']
        } else {
            match parse_int_spec(c.subrange(i + 1, j), 0, usize::MAX as int, false) {
                Some(idx) => if idx < caps.len() { caps[idx] } else { seq![] },
                None => seq![],
            }
        };
        proof {
            lemma_digits_end(c, i + 1);
        }
        piece + digits_interpolated(c, j, caps)
    } else {
        seq![c[i]] + digits_interpolated(c, i + 1, caps)
    }
}

/// Trigger interpolation: `\$` is `$`, `$N` is capture `N`, a `$` without
/// digits stays; an unknown capture is dropped.
fn interpolate_digits(template: &str, caps: &[String]) -> (r: String)
    ensures
        r@ == digits_interpolated(template@, 0, texts_view(caps@)),
{
    let c = str_to_chars(template);
    let ghost cv = texts_view(caps@);
    let mut out: Vec<char> = Vec::new();
    let mut i: usize = 0;
    while i < c.len()
        invariant
            i <= c@.len(),
            c@ == template@,
            cv == texts_view(caps@),
            digits_interpolated(c@, 0, cv) == out@ + digits_interpolated(c@, i as int, cv),
        decreases c@.len() - i,
    {
        let ch = c[i];
        let ghost before = out@;
        if ch == '\\' && i + 1 < c.len() && c[i + 1] == '$' {
            out.push('$');
            proof {
                assert(before + (seq!['$'] + digits_interpolated(c@, i + 2, cv)) =~= out@ + digits_interpolated(c@, i + 2, cv));
            }
            i = i + 2;
        } else if ch == '$' {
            let mut j = i + 1;
            while j < c.len() && '0' <= c[j] && c[j] <= '9'
                invariant
                    i < j <= c@.len(),
                    digits_end(c@, i + 1) == digits_end(c@, j as int),
                decreases c@.len() - j,
            {
                j = j + 1;
            }
            if j == i + 1 {
                out.push('$');
            } else {
                let digits = chars_to_string(vstd::slice::slice_subrange(c.as_slice(), i + 1, j));
                proof {
                    assert(digits@ == c@.subrange(i + 1, j as int));
                }
                match crate::parser::syntax::parse_usize(digits.as_str()) {
                    Some(idx) => {
                        if idx < caps.len() {
                            proof {
                                assert(cv[idx as int] == caps@[idx as int]@);
                            }
                            crate::text::push_str(&mut out, caps[idx].as_str());
                        }
                    },
                    None => {},
                }
            }
            proof {
                let piece = out@.subrange(before.len() as int, out@.len() as int);
                assert(out@ =~= before + piece);
                assert(before + (piece + digits_interpolated(c@, j as int, cv)) =~= out@ + digits_interpolated(c@, j as int, cv));
            }
            i = j;
        } else {
            out.push(ch);
            proof {
                assert(before + (seq![ch] + digits_interpolated(c@, i + 1, cv)) =~= out@ + digits_interpolated(c@, i + 1, cv));
            }
            i = i + 1;
        }
    }
    proof {
        assert(out@ + Seq::<char>::empty() =~= out@);
    }
    chars_to_string(out.as_slice())
}

/// The levels a streaming `do.return` asks for: its first argument read as an
/// `i32`, or 1 when it has none or it does not read.
pub open spec fn stream_levels(args: Seq<Seq<char>>) -> int {
    if args.len() == 0 {
        1
    } else {
        match parse_int_spec(args[0], i64::MIN as int, i64::MAX as int, true) {
            Some(v) => if -2147483648 <= v <= 2147483647 { v } else { 1 },
            None => 1,
        }
    }
}

/// The levels `do.return` asks for: its first argument read as an `i32`, or
/// 1 when it has none or it does not read.
fn return_levels_arg(args: &Vec<String>) -> (r: i32)
    ensures
        r == stream_levels(texts_view(args@)),
{
    if args.len() == 0 {
        return 1;
    }
    proof {
        assert(texts_view(args@)[0] == args@[0]@);
    }
    match crate::parser::syntax::parse_i64(args[0].as_str()) {
        Some(v) => if -2147483648 <= v && v <= 2147483647 {
            v as i32
        } else {
            1
        },
        None => 1,
    }
}

/// The trigger slot an `enqueue_*` action name fills: before, after,
/// on_add, on_leave, then their persistent forms.
pub open spec fn slot_of(name: Seq<char>) -> Option<int> {
    if name == "enqueue_before"@ {
        Some(0)
    } else if name == "enqueue_after"@ {
        Some(1)
    } else if name == "enqueue_on_add"@ {
        Some(2)
    } else if name == "enqueue_on_leave"@ {
        Some(3)
    } else if name == "enqueue_before_persist"@ {
        Some(4)
    } else if name == "enqueue_after_persist"@ {
        Some(5)
    } else if name == "enqueue_on_add_persist"@ {
        Some(6)
    } else if name == "enqueue_on_leave_persist"@ {
        Some(7)
    } else {
        None
    }
}

/// The trigger slot an `enqueue_*` action fills.
fn trigger_slot(name: &str) -> (r: Option<usize>)
    ensures
        r matches Some(t) ==> t < 8,
        match r {
            Some(t) => slot_of(name@) == Some(t as int),
            None => slot_of(name@) is None,
        },
{
    if str_eq(name, "enqueue_before") {
        Some(0)
    } else if str_eq(name, "enqueue_after") {
        Some(1)
    } else if str_eq(name, "enqueue_on_add") {
        Some(2)
    } else if str_eq(name, "enqueue_on_leave") {
        Some(3)
    } else if str_eq(name, "enqueue_before_persist") {
        Some(4)
    } else if str_eq(name, "enqueue_after_persist") {
        Some(5)
    } else if str_eq(name, "enqueue_on_add_persist") {
        Some(6)
    } else if str_eq(name, "enqueue_on_leave_persist") {
        Some(7)
    } else {
        None
    }
}

/// What a raw regex matches at the start of `rem` in a streaming run: its
/// anchored form (case-insensitive for `ci`) is searched in `rem`, the match
/// must start at 0, and every group (group 0 first) comes with its name.
pub open spec fn stream_regex_at(r: Seq<char>, rem: Seq<u8>, ci: bool) -> Option<(int, Seq<GroupV>)> {
    let p = anchored_variant(r, ci);
    match regex_captures_of(p, rem) {
        Some(gs) => match whole_match(gs) {
            Some(end) => Some((end, Seq::new(gs.len(), |k: int| (range_text(rem, gs[k]), regex_group_names(p)[k])))),
            None => None,
        },
        None => None,
    }
}

/// The message for a raw regex whose anchored form does not compile.
pub open spec fn regex_message(r: Seq<char>, ci: bool) -> Seq<char> {
    "Invalid regex '"@ + r + "': "@ + regex_error_text(anchored_variant(r, ci))
}

/// Whether `err` is what a streaming run reports for a raw regex that does
/// not compile.
pub open spec fn regex_failure(err: GelError, r: Seq<char>, ci: bool) -> bool {
    &&& !regex_compiles(anchored_variant(r, ci))
    &&& err matches GelError::Runtime { message, span } && message@ == regex_message(r, ci) && span is None
}

/// A text at the start of `rem`, both lower-cased first: the text's own
/// UTF-8 length (at most `rem`'s) and the text as the one group.
pub open spec fn nocase_at(s: Seq<char>, rem: Seq<u8>) -> Option<(int, Seq<GroupV>)> {
    let cb = vstd::utf8::encode_utf8(lowercase_of(s));
    let kb = vstd::utf8::encode_utf8(lowercase_of(utf8_lossy(rem)));
    let sb = vstd::utf8::encode_utf8(s);
    if bytes_prefix(kb, cb) && sb.len() <= rem.len() {
        Some((sb.len() as int, seq![(s, None)]))
    } else {
        None
    }
}

/// What an expression stands for: a variable its definition, none when it
/// has none.
pub open spec fn stream_target(defs: Seq<(String, Expression)>, e: ExprV) -> Option<ExprV> {
    match e {
        ExprV::Variable(v) => resolve_var(defs, v, chain_fuel(defs)),
        _ => Some(e),
    }
}

/// Whether an expression that stands for a regex has one that compiles.
pub open spec fn stream_compiles(defs: Seq<(String, Expression)>, e: ExprV, ci: bool) -> bool {
    match stream_target(defs, e) {
        Some(ExprV::Regex(r)) => regex_compiles(anchored_variant(r, ci)),
        _ => true,
    }
}

/// Whether `err` is the failure of one of the expressions' regexes.
pub open spec fn stream_failure(defs: Seq<(String, Expression)>, es: Seq<ExprV>, ci: bool, err: GelError) -> bool {
    exists|k: int| 0 <= k < es.len() && (#[trigger] stream_target(defs, es[k]) matches Some(ExprV::Regex(r)) && regex_failure(err, r, ci))
}

/// An expression at the start of `rem` in a streaming run: a regex as
/// above; a string byte for byte (lower-cased for `ci`); a number in decimal;
/// a capture (by number or by name) byte for byte and not empty.
pub open spec fn stream_expr_at(
    defs: Seq<(String, Expression)>,
    e: ExprV,
    rem: Seq<u8>,
    ci: bool,
    caps: Seq<Seq<char>>,
    names: Seq<Option<Seq<char>>>,
) -> Option<(int, Seq<GroupV>)> {
    match stream_target(defs, e) {
        Some(t) => match t {
            ExprV::Regex(r) => stream_regex_at(r, rem, ci),
            ExprV::String(s) => if ci { nocase_at(s, rem) } else { literal_at(s, rem, false) },
            ExprV::Number(n) => literal_at(decimal_int(n as int), rem, false),
            ExprV::Capture(idx) => literal_at(if idx < caps.len() { caps[idx as int] } else { seq![] }, rem, true),
            ExprV::CaptureName(n) => literal_at(named_capture(n, caps, names), rem, true),
            ExprV::Variable(_) => None,
        },
        None => None,
    }
}

/// Expressions `es[k..]` matched one after the other from byte `offset` of
/// `rem`, each seeing the groups before it: the end offset, the texts and
/// names of all the groups.
pub open spec fn stream_seq_at(
    defs: Seq<(String, Expression)>,
    es: Seq<ExprV>,
    k: int,
    rem: Seq<u8>,
    ci: bool,
    offset: int,
    caps: Seq<Seq<char>>,
    names: Seq<Option<Seq<char>>>,
) -> Option<(int, Seq<Seq<char>>, Seq<Option<Seq<char>>>)>
    decreases es.len() - k,
{
    if 0 <= k < es.len() {
        match stream_expr_at(defs, es[k], rem.subrange(offset, rem.len() as int), ci, caps, names) {
            Some(m) => stream_seq_at(
                defs,
                es,
                k + 1,
                rem,
                ci,
                offset + m.0,
                caps + m.1.map_values(|g: GroupV| g.0),
                names + m.1.map_values(|g: GroupV| g.1),
            ),
            None => None,
        }
    } else {
        Some((offset, caps, names))
    }
}

/// The first of the alternatives `alts[i..]` whose expressions match at the
/// start of `rem`.
pub open spec fn stream_alts_at(defs: Seq<(String, Expression)>, alts: Seq<MatchFieldList>, i: int, rem: Seq<u8>, ci: bool) -> Option<
    (int, Seq<Seq<char>>, Seq<Option<Seq<char>>>),
>
    decreases alts.len() - i,
{
    if 0 <= i < alts.len() {
        match stream_seq_at(defs, exprs_view(alts[i].expressions@), 0, rem, ci, 0, seq![], seq![]) {
            Some(m) => Some(m),
            None => stream_alts_at(defs, alts, i + 1, rem, ci),
        }
    } else {
        None
    }
}

/// Whether every regex of the alternatives compiles.
pub open spec fn stream_alts_compile(defs: Seq<(String, Expression)>, alts: Seq<MatchFieldList>, ci: bool) -> bool {
    forall|a: int, k: int|
        0 <= a < alts.len() && 0 <= k < alts[a].expressions@.len() ==> stream_compiles(defs, #[trigger] alts[a].expressions@[k]@, ci)
}

/// Whether `err` is the failure of a regex of one of the alternatives.
pub open spec fn stream_alts_failure(defs: Seq<(String, Expression)>, alts: Seq<MatchFieldList>, ci: bool, err: GelError) -> bool {
    exists|a: int| 0 <= a < alts.len() && stream_failure(defs, exprs_view(#[trigger] alts[a].expressions@), ci, err)
}

/// How far a `skip` moves in a streaming run: a regex literal the fast
/// scanners know by its text is scanned, anything else matched.
pub open spec fn stream_skip_at(defs: Seq<(String, Expression)>, e: ExprV, rem: Seq<u8>) -> Option<int> {
    let plain = match stream_expr_at(defs, e, rem, false, seq![], seq![]) {
        Some(m) => Some(m.0),
        None => None,
    };
    match e {
        ExprV::Regex(r) => match fast_skip_spec(classify_spec(r), rem) {
            Some(n) => Some(n),
            None => plain,
        },
        _ => plain,
    }
}

/// The text an action argument stands for in a streaming run: a string with
/// its `$` references filled in, a number in decimal, a regex as `/p/`, a
/// variable as what it is defined as; anything else (or an undefined
/// variable) the empty text.
pub open spec fn stream_expr_text(defs: Seq<(String, Expression)>, e: ExprV, caps: Seq<Seq<char>>, names: Seq<Option<Seq<char>>>) -> Seq<char> {
    match stream_target(defs, e) {
        Some(t) => match t {
            ExprV::String(s) => refs_interpolated(s, 0, caps, names),
            ExprV::Number(n) => decimal_int(n as int),
            ExprV::Regex(r) => "/"@ + r + "/"@,
            _ => seq![],
        },
        None => seq![],
    }
}

/// An action argument after substitution in a streaming run: a capture (by
/// number or name) becomes the captured text (empty when there is none); a
/// variable defined as a string or a number becomes that text; anything else
/// stays.
pub open spec fn stream_arg(defines: NameMap<Expression>, e: ExprV, scope: Seq<Seq<char>>, names: Seq<Option<Seq<char>>>) -> ExprV {
    match e {
        ExprV::Capture(k) => ExprV::String(if k < scope.len() { scope[k as int] } else { seq![] }),
        ExprV::CaptureName(n) => ExprV::String(named_capture(n, scope, names)),
        ExprV::Variable(v) => match defines.spec_get(v) {
            Some(d) => match d@ {
                ExprV::String(t) => ExprV::String(t),
                ExprV::Number(n) => ExprV::String(decimal_int(n as int)),
                _ => e,
            },
            None => e,
        },
        _ => e,
    }
}

/// An action with each argument substituted as above.
pub open spec fn stream_call(defines: NameMap<Expression>, c: CallV, scope: Seq<Seq<char>>, names: Seq<Option<Seq<char>>>) -> CallV {
    (c.0, c.1.map_values(|e: ExprV| stream_arg(defines, e, scope, names)))
}

/// Whether an event reports how the run stands (`Finished` or `Stalled`)
/// rather than something the actions did.
pub open spec fn is_wait(e: StreamingEvent) -> bool {
    e is Finished || e is Stalled
}

/// Whether `new` is `old` with events added, none of them `Finished` or
/// `Stalled`.
pub open spec fn plain_added(new: Seq<StreamingEvent>, old: Seq<StreamingEvent>) -> bool {
    &&& old.len() <= new.len()
    &&& new.subrange(0, old.len() as int) == old
    &&& forall|k: int| old.len() <= k < new.len() ==> !is_wait(#[trigger] new[k])
}

proof fn lemma_creates_plain(new: Seq<StreamingEvent>, old: Seq<StreamingEvent>, tas: Seq<TriggerAction>, caps: Seq<Seq<char>>)
    requires
        creates(new, old, tas, caps),
    ensures
        plain_added(new, old),
{
    assert forall|k: int| old.len() <= k < new.len() implies !is_wait(#[trigger] new[k]) by {
        assert(create_of(new[old.len() + (k - old.len())], tas[k - old.len()], caps));
    }
}

proof fn lemma_plain_trans(c: Seq<StreamingEvent>, b: Seq<StreamingEvent>, a: Seq<StreamingEvent>)
    requires
        plain_added(c, b),
        plain_added(b, a),
    ensures
        plain_added(c, a),
{
    assert forall|k: int| a.len() <= k < c.len() implies !is_wait(#[trigger] c[k]) by {
        if k < b.len() {
            assert(c[k] == c.subrange(0, b.len() as int)[k]);
        }
    }
    assert(c.subrange(0, a.len() as int) =~= b.subrange(0, a.len() as int));
}

proof fn lemma_plain_push(a: Seq<StreamingEvent>, e: StreamingEvent)
    requires
        !is_wait(e),
    ensures
        plain_added(a.push(e), a),
{
    assert(a.push(e).subrange(0, a.len() as int) =~= a);
}

proof fn lemma_plain_pushed(new: Seq<StreamingEvent>, old: Seq<StreamingEvent>)
    requires
        new.len() == old.len() + 1,
        new.drop_last() == old,
        !is_wait(new.last()),
    ensures
        plain_added(new, old),
{
    assert(new.subrange(0, old.len() as int) =~= old);
}

proof fn lemma_plain_refl(a: Seq<StreamingEvent>)
    ensures
        plain_added(a, a),
{
    assert(a.subrange(0, a.len() as int) =~= a);
}

/// Whether an event is the `Create` of a trigger: its path and value with
/// `$N` filled in from the captures.
pub open spec fn create_of(e: StreamingEvent, ta: TriggerAction, caps: Seq<Seq<char>>) -> bool {
    &&& e matches StreamingEvent::Create { path, value }
    &&& path@ == digits_interpolated(ta.path@, 0, caps)
    &&& opt_text(value) == match ta.value {
        Some(v) => Some(digits_interpolated(v@, 0, caps)),
        None => None,
    }
}

/// Whether `new` is `old` and one `Create` event for a trigger.
pub open spec fn created(new: Seq<StreamingEvent>, old: Seq<StreamingEvent>, ta: &TriggerAction, caps: Seq<Seq<char>>) -> bool {
    &&& new.len() == old.len() + 1
    &&& new.drop_last() == old
    &&& create_of(new.last(), *ta, caps)
}

/// Whether `new` is `old` and then the `Create` events of the triggers, in order.
pub open spec fn creates(new: Seq<StreamingEvent>, old: Seq<StreamingEvent>, tas: Seq<TriggerAction>, caps: Seq<Seq<char>>) -> bool {
    &&& new.len() == old.len() + tas.len()
    &&& new.subrange(0, old.len() as int) == old
    &&& forall|k: int| 0 <= k < tas.len() ==> create_of(#[trigger] new[old.len() + k], tas[k], caps)
}

/// Whether a trigger's regex matches somewhere in `text`.
pub open spec fn fires(t: (CompiledRegex, TriggerAction), text: Seq<u8>) -> bool {
    regex_captures_of(t.0@, text) is Some
}

/// The triggers of a list that do not fire on `text`, in order.
pub open spec fn unfired(list: Seq<(CompiledRegex, TriggerAction)>, text: Seq<u8>) -> Seq<(CompiledRegex, TriggerAction)>
    decreases list.len(),
{
    if list.len() == 0 {
        seq![]
    } else if fires(list.last(), text) {
        unfired(list.drop_last(), text)
    } else {
        unfired(list.drop_last(), text).push(list.last())
    }
}

/// The actions of the triggers of a list that fire on `text`, in order.
pub open spec fn fired(list: Seq<(CompiledRegex, TriggerAction)>, text: Seq<u8>) -> Seq<TriggerAction>
    decreases list.len(),
{
    if list.len() == 0 {
        seq![]
    } else if fires(list.last(), text) {
        fired(list.drop_last(), text).push(list.last().1)
    } else {
        fired(list.drop_last(), text)
    }
}

/// One more `Create` after a run of them.
proof fn lemma_creates_push(e0: Seq<StreamingEvent>, e1: Seq<StreamingEvent>, e2: Seq<StreamingEvent>, tas: Seq<TriggerAction>, ta: TriggerAction, caps: Seq<Seq<char>>)
    requires
        creates(e1, e0, tas, caps),
        e2.len() == e1.len() + 1,
        e2.drop_last() == e1,
        create_of(e2.last(), ta, caps),
    ensures
        creates(e2, e0, tas.push(ta), caps),
{
    assert(e2.subrange(0, e0.len() as int) =~= e1.subrange(0, e0.len() as int));
    assert forall|k: int| 0 <= k < tas.push(ta).len() implies create_of(#[trigger] e2[e0.len() + k], tas.push(ta)[k], caps) by {
        if k < tas.len() {
            assert(e2[e0.len() + k] == e1[e0.len() + k]);
        }
    }
}

/// Two runs of `Create` events one after the other.
proof fn lemma_creates_append(e0: Seq<StreamingEvent>, e1: Seq<StreamingEvent>, e2: Seq<StreamingEvent>, a: Seq<TriggerAction>, b: Seq<TriggerAction>, caps: Seq<Seq<char>>)
    requires
        creates(e1, e0, a, caps),
        creates(e2, e1, b, caps),
    ensures
        creates(e2, e0, a + b, caps),
{
    assert(e2.subrange(0, e0.len() as int) =~= e1.subrange(0, e0.len() as int)) by {
        assert forall|j: int| 0 <= j < e0.len() implies e2.subrange(0, e0.len() as int)[j] == e1.subrange(0, e0.len() as int)[j] by {
            assert(e2.subrange(0, e1.len() as int)[j] == e1[j]);
        }
    }
    assert forall|k: int| 0 <= k < (a + b).len() implies create_of(#[trigger] e2[e0.len() + k], (a + b)[k], caps) by {
        if k < a.len() {
            assert(e2.subrange(0, e1.len() as int)[e0.len() + k] == e1[e0.len() + k]);
        } else {
            assert(e2[e1.len() + (k - a.len())] == e2[e0.len() + k]);
        }
    }
}

/// The trigger lists after an `enqueue_*` action with these arguments: when
/// it has a pattern that compiles and a path, and its name names a slot, that
/// slot gains the trigger (the pattern, the path, the third argument as its
/// value); all else stays.
pub open spec fn registered(
    new: Seq<Vec<(CompiledRegex, TriggerAction)>>,
    old: Seq<Vec<(CompiledRegex, TriggerAction)>>,
    name: Seq<char>,
    args: Seq<Seq<char>>,
) -> bool {
    if args.len() >= 2 && regex_compiles(args[0]) && slot_of(name) is Some {
        let t = slot_of(name)->0;
        &&& new.len() == old.len()
        &&& forall|j: int| 0 <= j < new.len() && j != t ==> #[trigger] new[j] == old[j]
        &&& new[t]@.len() == old[t]@.len() + 1
        &&& new[t]@.drop_last() == old[t]@
        &&& new[t]@.last().0@ == args[0]
        &&& new[t]@.last().1.path@ == args[1]
        &&& opt_text(new[t]@.last().1.value) == if args.len() > 2 { Some(args[2]) } else { None }
    } else {
        new == old
    }
}

/// The texts of an action's arguments in a streaming run.
pub open spec fn stream_args(defs: Seq<(String, Expression)>, a: CallV, caps: Seq<Seq<char>>, names: Seq<Option<Seq<char>>>) -> Seq<Seq<char>> {
    a.1.map_values(|e: ExprV| stream_expr_text(defs, e, caps, names))
}

/// What a list of streaming actions asks for, as (return levels, `do.next`,
/// `do.fail` message), starting from the given values: `do.return` sets the
/// levels and, when they are positive, ends the list; `do.next` is
/// remembered; `do.fail` keeps its message (`fail` without one).
pub open spec fn stream_control(
    defs: Seq<(String, Expression)>,
    acts: Seq<CallV>,
    caps: Seq<Seq<char>>,
    names: Seq<Option<Seq<char>>>,
    levels: int,
    next: bool,
    fail: Option<Seq<char>>,
) -> (int, bool, Option<Seq<char>>)
    decreases acts.len(),
{
    if acts.len() == 0 {
        (levels, next, fail)
    } else {
        let a = acts[0];
        let args = stream_args(defs, a, caps, names);
        if a.0 == "do.return"@ {
            let l = stream_levels(args);
            if l > 0 {
                (l, next, fail)
            } else {
                stream_control(defs, acts.drop_first(), caps, names, l, next, fail)
            }
        } else if a.0 == "do.next"@ {
            stream_control(defs, acts.drop_first(), caps, names, levels, true, fail)
        } else if a.0 == "do.fail"@ {
            stream_control(defs, acts.drop_first(), caps, names, levels, next, Some(if args.len() > 0 { args[0] } else { "fail"@ }))
        } else {
            stream_control(defs, acts.drop_first(), caps, names, levels, next, fail)
        }
    }
}

/// The names of the streaming actions, told apart by their first letters.
proof fn lemma_stream_action_names()
    ensures
        "do.return"@[0] == 'd',
        "do.next"@[0] == 'd',
        "do.fail"@[0] == 'd',
        "out.create"@[0] == 'o',
        "out.add"@[0] == 'o',
        "out.replace"@[0] == 'o',
        "out.add_attribute"@[0] == 'o',
        "out.set_root_name"@[0] == 'o',
        "out.name"@[0] == 'o',
        "out.open"@[0] == 'o',
        "out.enter"@[0] == 'o',
        "out.leave"@[0] == 'o',
        "do.return"@ != "do.next"@,
        "do.return"@ != "do.fail"@,
        "do.next"@ != "do.fail"@,
{
    reveal_strlit("do.return");
    reveal_strlit("do.next");
    reveal_strlit("do.fail");
    reveal_strlit("out.create");
    reveal_strlit("out.add");
    reveal_strlit("out.replace");
    reveal_strlit("out.add_attribute");
    reveal_strlit("out.set_root_name");
    reveal_strlit("out.name");
    reveal_strlit("out.open");
    reveal_strlit("out.enter");
    reveal_strlit("out.leave");
    assert("do.return"@.len() != "do.next"@.len());
    assert("do.return"@.len() != "do.fail"@.len());
    assert("do.next"@[3] != "do.fail"@[3]);
}

/// What the actions of a statement that fired ask for, substituted with the
/// statement's captures and read with the run's last captures.
pub open spec fn fired_control(
    defines: NameMap<Expression>,
    acts: Seq<CallV>,
    scope: Seq<Seq<char>>,
    names: Seq<Option<Seq<char>>>,
    caps: Seq<Seq<char>>,
    cnames: Seq<Option<Seq<char>>>,
) -> (int, bool, Option<Seq<char>>) {
    stream_control(
        defines.entries@,
        acts.map_values(|c: CallV| stream_call(defines, c, scope, names)),
        caps,
        cnames,
        0,
        false,
        None,
    )
}

/// What a lone action statement asks for: the action substituted without
/// captures, read with the run's last captures.
pub open spec fn action_control(
    defines: NameMap<Expression>,
    a: CallV,
    caps: Seq<Seq<char>>,
    cnames: Seq<Option<Seq<char>>>,
) -> (int, bool, Option<Seq<char>>) {
    stream_control(defines.entries@, seq![stream_call(defines, a, seq![], seq![])], caps, cnames, 0, false, None)
}

/// Whether every regex of a statement compiles, as a streaming run anchors it.
pub open spec fn view_compiles(defs: Seq<(String, Expression)>, st: StmtV) -> bool {
    match st {
        StmtV::Match(alts, _, ci) => forall|a: int, k: int|
            0 <= a < alts.len() && 0 <= k < alts[a].0.len() ==> stream_compiles(defs, #[trigger] alts[a].0[k], ci),
        StmtV::When(alts, _) => forall|a: int, k: int|
            0 <= a < alts.len() && 0 <= k < alts[a].0.len() ==> stream_compiles(defs, #[trigger] alts[a].0[k], false),
        StmtV::Skip(e) => stream_compiles(defs, e, false),
        StmtV::Action(_) => true,
    }
}

/// Alternatives with the same views match alike.
proof fn lemma_stream_alts_view(
    defs: Seq<(String, Expression)>,
    a1: Seq<MatchFieldList>,
    a2: Seq<MatchFieldList>,
    i: int,
    rem: Seq<u8>,
    ci: bool,
)
    requires
        alts_view(a1) == alts_view(a2),
        0 <= i,
    ensures
        stream_alts_at(defs, a1, i, rem, ci) == stream_alts_at(defs, a2, i, rem, ci),
    decreases a1.len() - i,
{
    assert(a1.len() == alts_view(a1).len() && a2.len() == alts_view(a2).len());
    if i < a1.len() {
        assert(alts_view(a1)[i] == alt_view(a1[i]));
        assert(alts_view(a2)[i] == alt_view(a2[i]));
        lemma_stream_alts_view(defs, a1, a2, i + 1, rem, ci);
    }
}

/// The alternatives' regexes compile when their views say so.
proof fn lemma_alts_compile(defs: Seq<(String, Expression)>, alts: Seq<MatchFieldList>, ci: bool, st: StmtV)
    requires
        view_compiles(defs, st),
        st matches StmtV::Match(al, _, c) ==> al == alts_view(alts) && c == ci,
        st matches StmtV::When(al, _) ==> al == alts_view(alts) && !ci,
        st is Match || st is When,
    ensures
        stream_alts_compile(defs, alts, ci),
{
    assert forall|a: int, k: int| 0 <= a < alts.len() && 0 <= k < alts[a].expressions@.len() implies stream_compiles(
        defs,
        #[trigger] alts[a].expressions@[k]@,
        ci,
    ) by {
        assert(alts_view(alts)[a] == alt_view(alts[a]));
        assert(alts_view(alts)[a].0[k] == alts[a].expressions@[k]@);
    }
}

/// Whether an event is the one an `out.create`, `out.add` or `out.replace`
/// action reports, with the path and value texts.
pub open spec fn path_event(name: Seq<char>, e: StreamingEvent, path: Seq<char>, v: Option<Seq<char>>) -> bool {
    if name == "out.create"@ {
        e matches StreamingEvent::Create { path: p, value: w } && p@ == path && opt_text(w) == v
    } else if name == "out.add"@ {
        e matches StreamingEvent::Add { path: p, value: w } && p@ == path && opt_text(w) == v
    } else {
        e matches StreamingEvent::Replace { path: p, value: w } && p@ == path && opt_text(w) == v
    }
}

/// The percent-decoded value argument of a path action, if it has one.
pub open spec fn decoded_value(args: Seq<Seq<char>>) -> Option<Seq<char>> {
    if args.len() > 1 { Some(percent_decode_spec(args[1])) } else { None }
}

/// Whether `e1` is `e0` and one more event.
pub open spec fn one_more(e1: Seq<StreamingEvent>, e0: Seq<StreamingEvent>) -> bool {
    e1.len() == e0.len() + 1 && e1.drop_last() == e0
}

/// What one streaming action does to the output tree and the events, in the
/// order the runner tells the action names apart: `create`, `add` and
/// `replace` perform their tree operation on the parsed path (values
/// percent-decoded) and report it first (`create` and `add` then fire the
/// `on_add` triggers, whose `Create` events follow); `add_attribute`,
/// `set_root_name` (or `name`), `open`, `enter` and `leave` perform theirs
/// and report it; `do.run` / `do.grammar` may report how far the sub-grammar
/// moved; every other action changes neither.
pub open spec fn stream_action_effect(
    defs: Seq<(String, Expression)>,
    a: CallV,
    caps: Seq<Seq<char>>,
    names: Seq<Option<Seq<char>>>,
    t0: OutputTree,
    e0: Seq<StreamingEvent>,
    t1: OutputTree,
    e1: Seq<StreamingEvent>,
) -> bool {
    let args = stream_args(defs, a, caps, names);
    if a.0 == "out.create"@ || a.0 == "out.add"@ || a.0 == "out.replace"@ {
        if args.len() > 0 {
            let v = if args.len() > 1 { Some(args[1]) } else { None };
            &&& exists|tm: OutputTree, segs: Seq<PathSegment>|
                #![trigger path_effect(a.0, &tm, &t0, segs, decoded_value(args))]
                segs_of(segs) == parse_path_spec(args[0]) && path_effect(a.0, &tm, &t0, segs, decoded_value(args)) && t1.spec_stack() == tm.spec_stack()
            &&& e1.len() > e0.len()
            &&& e1.subrange(0, e0.len() as int) == e0
            &&& path_event(a.0, e1[e0.len() as int], args[0], v)
        } else {
            t1 == t0 && e1 == e0
        }
    } else if a.0 == "out.add_attribute"@ {
        if args.len() >= 3 {
            &&& exists|segs: Seq<PathSegment>|
                #![trigger attribute_added(&t1, &t0, segs, args[1], args[2])]
                segs_of(segs) == parse_path_spec(args[0]) && attribute_added(&t1, &t0, segs, args[1], args[2])
            &&& one_more(e1, e0)
            &&& e1.last() matches StreamingEvent::AddAttribute { path, name, value } && path@ == args[0] && name@ == args[1] && value@ == args[2]
        } else {
            t1 == t0 && e1 == e0
        }
    } else if a.0 == "out.set_root_name"@ || a.0 == "out.name"@ {
        if args.len() > 0 {
            &&& t1.spec_name(0) == args[0]
            &&& t1.spec_stack() == t0.spec_stack()
            &&& one_more(e1, e0)
            &&& e1.last() matches StreamingEvent::SetRootName { name } && name@ == args[0]
        } else {
            t1 == t0 && e1 == e0
        }
    } else if a.0 == "out.open"@ || a.0 == "out.enter"@ {
        if args.len() > 0 {
            &&& exists|segs: Seq<PathSegment>| #![trigger scope_pushed(t1, t0, segs)] segs_of(segs) == parse_path_spec(args[0]) && scope_pushed(t1, t0, segs)
            &&& one_more(e1, e0)
            &&& if a.0 == "out.open"@ {
                e1.last() matches StreamingEvent::Open { path } && path@ == args[0]
            } else {
                e1.last() matches StreamingEvent::Enter { path } && path@ == args[0]
            }
        } else {
            t1 == t0 && e1 == e0
        }
    } else if a.0 == "out.leave"@ {
        t1.spec_stack() == left_times(t0.spec_stack(), 1) && e1 == e0.push(StreamingEvent::Leave)
    } else if a.0 == "do.return"@ || a.0 == "do.next"@ || a.0 == "do.fail"@ {
        t1 == t0 && e1 == e0
    } else if a.0 == "do.run"@ || a.0 == "do.grammar"@ {
        t1 == t0 && (e1 == e0 || (one_more(e1, e0) && e1.last() is MatchConsumed))
    } else {
        t1 == t0 && e1 == e0
    }
}

/// What a list of streaming actions does to the output tree and the events:
/// each action in turn, up to and with a `do.return` asking for positive
/// levels.
pub open spec fn stream_run_effect(
    defs: Seq<(String, Expression)>,
    acts: Seq<CallV>,
    caps: Seq<Seq<char>>,
    names: Seq<Option<Seq<char>>>,
    t0: OutputTree,
    e0: Seq<StreamingEvent>,
    t1: OutputTree,
    e1: Seq<StreamingEvent>,
) -> bool
    decreases acts.len(),
{
    if acts.len() == 0 {
        t1 == t0 && e1 == e0
    } else if acts[0].0 == "do.return"@ && stream_levels(stream_args(defs, acts[0], caps, names)) > 0 {
        t1 == t0 && e1 == e0
    } else {
        exists|tm: OutputTree, em: Seq<StreamingEvent>|
            #[trigger] stream_action_effect(defs, acts[0], caps, names, t0, e0, tm, em)
                && stream_run_effect(defs, acts.drop_first(), caps, names, tm, em, t1, e1)
    }
}

impl StreamingRunner {
    /// Matches a regex literal at the start of `rem`, compiling it first if it
    /// was not; the length matched and the groups.
    fn eval_regex_streaming(&mut self, r: &String, rem: &[u8], ci: bool) -> (res: Result<Option<(usize, SGroups)>, GelError>)
        requires
            old(self).inv(),
        ensures
            final(self).inv(),
            final(self).spec_pos() == old(self).spec_pos(),
            final(self).spec_buffer() == old(self).spec_buffer(),
            final(self).spec_eof() == old(self).spec_eof(),
            final(self).doc.grammars == old(self).doc.grammars,
            final(self).doc.defines == old(self).doc.defines,
            final(self).statements == old(self).statements,
            res matches Ok(Some(x)) ==> x.0 <= rem@.len(),
            res matches Ok(x) ==> found_groups(x) == stream_regex_at(r@, rem@, ci),
            res matches Err(e) ==> regex_failure(e, r@, ci),
            regex_compiles(anchored_variant(r@, ci)) ==> res is Ok,
    {
        match self.doc.ensure_compiled(r.as_str(), ci) {
            Ok(()) => {},
            Err(e) => { return Err(GelError::runtime(e.as_str(), None)); },
        }
        let idx = match self.doc.pattern_indices.get(r.as_str()) {
            Some(i) => *i,
            None => {
                let mut msg = "Regex index not found: ".to_string();
                msg.append(r.as_str());
                return Err(GelError::runtime(msg.as_str(), None));
            },
        };
        if idx >= self.doc.regex_cache.len() / 2 {
            let mut msg = "Regex missing after ensure: ".to_string();
            msg.append(r.as_str());
            return Err(GelError::runtime(msg.as_str(), None));
        }
        let slot = if ci { idx * 2 + 1 } else { idx * 2 };
        let compiled = match &self.doc.regex_cache[slot] {
            Some(rx) => rx,
            None => {
                let mut msg = "Regex missing after ensure: ".to_string();
                msg.append(r.as_str());
                return Err(GelError::runtime(msg.as_str(), None));
            },
        };
        let ghost p = anchored_variant(r@, ci);
        proof {
            if ci {
                assert(self.doc.regex_cache@[2 * (idx as int) + 1] matches Some(x) && x@ == "(?i)^(?:"@ + self.doc.regex_patterns@[idx as int]@ + ")"@);
            } else {
                assert(self.doc.regex_cache@[2 * (idx as int)] matches Some(x) && x@ == "^(?:"@ + self.doc.regex_patterns@[idx as int]@ + ")"@);
            }
            assert(compiled@ == p);
        }
        match regex_captures(compiled, rem) {
            None => Ok(None),
            Some(groups) => {
                let (s, e) = match groups[0] {
                    Some(g) => g,
                    None => { return Ok(None); },
                };
                if s != 0 {
                    return Ok(None);
                }
                let ghost gs = groups@;
                let names = regex_capture_names(compiled);
                let mut out: SGroups = Vec::new();
                let mut gi: usize = 0;
                while gi < groups.len()
                    invariant
                        gi <= groups@.len(),
                        gs == groups@,
                        compiled@ == p,
                        names@.len() == groups@.len(),
                        forall|i: int| 0 <= i < names@.len() ==> (#[trigger] names@[i] is Some <==> regex_group_names(p)[i] is Some),
                        forall|i: int| 0 <= i < names@.len() ==> (#[trigger] names@[i] matches Some(n) ==> n@ == regex_group_names(p)[i]->0),
                        forall|i: int|
                            0 <= i < groups@.len() ==> (#[trigger] groups@[i] matches Some(g) ==> g.0 <= g.1
                                <= rem@.len()),
                        groups_view(out@) =~= Seq::new(gi as nat, |k: int| (range_text(rem@, gs[k]), regex_group_names(p)[k])),
                    decreases groups@.len() - gi,
                {
                    let t = group_text(rem, groups[gi]);
                    let nm = opt_name(&names, gi);
                    let ghost prev = out@;
                    proof {
                        if names@[gi as int] is Some {
                            assert(opt_text(names@[gi as int]) == regex_group_names(p)[gi as int]);
                        } else {
                            assert(opt_text(names@[gi as int]) == regex_group_names(p)[gi as int]);
                        }
                    }
                    out.push((t, nm));
                    proof {
                        assert(groups_view(out@) =~= groups_view(prev).push((t@, opt_text(nm))));
                    }
                    gi = gi + 1;
                }
                Ok(Some((e, out)))
            },
        }
    }

    /// Matches an expression at the start of `rem`, with the captures so far for
    /// back-references; a variable stands for what it is defined as.
    fn eval_expression_streaming(
        &mut self,
        expr: &Expression,
        rem: &[u8],
        ci: bool,
        caps: &[String],
        names: &[Option<String>],
    ) -> (res: Result<Option<(usize, SGroups)>, GelError>)
        requires
            old(self).inv(),
        ensures
            final(self).inv(),
            final(self).spec_pos() == old(self).spec_pos(),
            final(self).spec_buffer() == old(self).spec_buffer(),
            final(self).spec_eof() == old(self).spec_eof(),
            final(self).doc.grammars == old(self).doc.grammars,
            final(self).doc.defines == old(self).doc.defines,
            final(self).statements == old(self).statements,
            res matches Ok(Some(x)) ==> x.0 <= rem@.len(),
            res matches Ok(x) ==> found_groups(x) == stream_expr_at(old(self).doc.defines.entries@, expr@, rem@, ci, texts_view(caps@), names_view(names@)),
            res matches Err(e) ==> stream_target(old(self).doc.defines.entries@, expr@) matches Some(ExprV::Regex(r)) && regex_failure(e, r, ci),
            stream_compiles(old(self).doc.defines.entries@, expr@, ci) ==> res is Ok,
    {
        let base: Expression = match expr {
            Expression::Variable(v) => match resolve_variable(&self.doc.defines, v.as_str()) {
                Some(e) => e.copy(),
                None => { return Ok(None); },
            },
            other => other.copy(),
        };
        proof {
            assert(stream_target(self.doc.defines.entries@, expr@) == Some(base@));
        }
        match &base {
            Expression::Regex(r) => self.eval_regex_streaming(r, rem, ci),
            Expression::String(s) => {
                if ci {
                    let compare = to_lowercase(s.as_str());
                    let check = to_lowercase(bytes_to_string(rem).as_str());
                    let cb = str_to_bytes(compare.as_str());
                    let kb = str_to_bytes(check.as_str());
                    let sb = str_to_bytes(s.as_str());
                    if starts_with_bytes(kb.as_slice(), cb.as_slice()) && sb.len() <= rem.len() {
                        let mut g: SGroups = Vec::new();
                        g.push((s.clone(), None));
                        proof {
                            assert(groups_view(g@) =~= seq![(s@, None::<Seq<char>>)]);
                        }
                        Ok(Some((sb.len(), g)))
                    } else {
                        Ok(None)
                    }
                } else {
                    Ok(match_literal(s.as_str(), rem, false))
                }
            },
            Expression::Number(n) => {
                let ns = i64_to_string(*n);
                Ok(match_literal(ns.as_str(), rem, false))
            },
            Expression::Capture(idx) => {
                let val = if *idx < caps.len() {
                    proof {
                        assert(texts_view(caps@)[*idx as int] == caps@[*idx as int]@);
                    }
                    caps[*idx].clone()
                } else {
                    String::new()
                };
                Ok(match_literal(val.as_str(), rem, true))
            },
            Expression::CaptureName(name) => {
                let val = capture_by_name(name.as_str(), caps, names);
                Ok(match_literal(val.as_str(), rem, true))
            },
            Expression::Variable(_) => Ok(None),
        }
    }

    /// Matches a field list at the position: each expression after the one
    /// before; the total length and the groups.
    fn eval_field_list_streaming(&mut self, list: &MatchFieldList, ci: bool) -> (res: Result<
        Option<(usize, Vec<String>, Vec<Option<String>>)>,
        GelError,
    >)
        requires
            old(self).inv(),
        ensures
            final(self).inv(),
            final(self).spec_pos() == old(self).spec_pos(),
            final(self).spec_buffer() == old(self).spec_buffer(),
            final(self).spec_eof() == old(self).spec_eof(),
            final(self).doc.grammars == old(self).doc.grammars,
            final(self).doc.defines == old(self).doc.defines,
            final(self).statements == old(self).statements,
            res matches Ok(Some(x)) ==> x.0 <= final(self).spec_buffer().len() - final(self).spec_pos(),
            res matches Ok(x) ==> found_caps(x) == stream_seq_at(old(self).doc.defines.entries@, exprs_view(list.expressions@), 0, old(self).spec_rest(), ci, 0, seq![], seq![]),
            res matches Err(e) ==> stream_failure(old(self).doc.defines.entries@, exprs_view(list.expressions@), ci, e),
            (forall|k: int| 0 <= k < list.expressions@.len() ==> stream_compiles(old(self).doc.defines.entries@, #[trigger] list.expressions@[k]@, ci)) ==> res is Ok,
    {
        let rest = vstd::slice::slice_to_vec(vstd::slice::slice_subrange(self.buffer.as_slice(), self.pos, self.buffer.len()));
        let ghost defs = self.doc.defines.entries@;
        let ghost ev = exprs_view(list.expressions@);
        let total = rest.len();
        let mut offset: usize = 0;
        let mut all_caps: Vec<String> = Vec::new();
        let mut all_names: Vec<Option<String>> = Vec::new();
        let mut i: usize = 0;
        proof {
            assert(texts_view(all_caps@) =~= Seq::<Seq<char>>::empty());
            assert(names_view(all_names@) =~= Seq::<Option<Seq<char>>>::empty());
        }
        while i < list.expressions.len()
            invariant
                self.inv(),
                self.spec_pos() == old(self).spec_pos(),
                self.spec_buffer() == old(self).spec_buffer(),
                self.spec_eof() == old(self).spec_eof(),
                self.doc.grammars == old(self).doc.grammars,
                self.doc.defines == old(self).doc.defines,
                self.statements == old(self).statements,
                defs == old(self).doc.defines.entries@,
                ev == exprs_view(list.expressions@),
                rest@ == old(self).spec_rest(),
                total == rest@.len() == self.buffer@.len() - self.pos,
                offset <= total,
                all_caps@.len() == all_names@.len(),
                i <= list.expressions@.len(),
                stream_seq_at(defs, ev, 0, rest@, ci, 0, seq![], seq![]) == stream_seq_at(
                    defs,
                    ev,
                    i as int,
                    rest@,
                    ci,
                    offset as int,
                    texts_view(all_caps@),
                    names_view(all_names@),
                ),
            decreases list.expressions@.len() - i,
        {
            let rem = vstd::slice::slice_subrange(rest.as_slice(), offset, total);
            proof {
                assert(ev[i as int] == list.expressions@[i as int]@);
            }
            match self.eval_expression_streaming(&list.expressions[i], rem, ci, all_caps.as_slice(), all_names.as_slice()) {
                Err(e) => {
                    proof {
                        assert(stream_failure(defs, ev, ci, e)) by {
                            assert(stream_target(defs, ev[i as int]) matches Some(ExprV::Regex(r)) && regex_failure(e, r, ci));
                        }
                    }
                    return Err(e);
                },
                Ok(None) => { return Ok(None); },
                Ok(Some((n, groups))) => {
                    let ghost c0 = texts_view(all_caps@);
                    let ghost n0 = names_view(all_names@);
                    let ghost gv = groups_view(groups@);
                    offset = offset + n;
                    let mut g: usize = 0;
                    while g < groups.len()
                        invariant
                            g <= groups@.len(),
                            all_caps@.len() == all_names@.len(),
                            gv == groups_view(groups@),
                            texts_view(all_caps@) =~= c0 + gv.subrange(0, g as int).map_values(|x: GroupV| x.0),
                            names_view(all_names@) =~= n0 + gv.subrange(0, g as int).map_values(|x: GroupV| x.1),
                        decreases groups@.len() - g,
                    {
                        let t = groups[g].0.clone();
                        let nm = match &groups[g].1 {
                            Some(n) => Some(n.clone()),
                            None => None,
                        };
                        let ghost pc = all_caps@;
                        let ghost pn = all_names@;
                        all_caps.push(t);
                        all_names.push(nm);
                        proof {
                            assert(gv.subrange(0, g + 1) =~= gv.subrange(0, g as int).push(gv[g as int]));
                            assert(texts_view(all_caps@) =~= texts_view(pc).push(t@));
                            assert(names_view(all_names@) =~= names_view(pn).push(opt_text(nm)));
                        }
                        g = g + 1;
                    }
                    proof {
                        assert(gv.subrange(0, gv.len() as int) =~= gv);
                    }
                },
            }
            i = i + 1;
        }
        Ok(Some((offset, all_caps, all_names)))
    }

    /// A match statement: the first alternative that matches, with its length
    /// and groups.
    fn eval_match_streaming(&mut self, m: &MatchStatement) -> (res: Result<
        Option<(usize, Vec<String>, Vec<Option<String>>)>,
        GelError,
    >)
        requires
            old(self).inv(),
        ensures
            final(self).inv(),
            final(self).spec_pos() == old(self).spec_pos(),
            final(self).spec_buffer() == old(self).spec_buffer(),
            final(self).spec_eof() == old(self).spec_eof(),
            final(self).doc.grammars == old(self).doc.grammars,
            final(self).doc.defines == old(self).doc.defines,
            final(self).statements == old(self).statements,
            res matches Ok(Some(x)) ==> x.0 <= final(self).spec_buffer().len() - final(self).spec_pos(),
            res matches Ok(x) ==> found_caps(x) == stream_alts_at(old(self).doc.defines.entries@, m.match_list.alternatives@, 0, old(self).spec_rest(), m.case_insensitive),
            res matches Err(e) ==> stream_alts_failure(old(self).doc.defines.entries@, m.match_list.alternatives@, m.case_insensitive, e),
            stream_alts_compile(old(self).doc.defines.entries@, m.match_list.alternatives@, m.case_insensitive) ==> res is Ok,
    {
        let ghost defs = self.doc.defines.entries@;
        let ghost alts = m.match_list.alternatives@;
        let mut a: usize = 0;
        while a < m.match_list.alternatives.len()
            invariant
                self.inv(),
                self.spec_pos() == old(self).spec_pos(),
                self.spec_buffer() == old(self).spec_buffer(),
                self.spec_eof() == old(self).spec_eof(),
                self.doc.grammars == old(self).doc.grammars,
                self.doc.defines == old(self).doc.defines,
                self.statements == old(self).statements,
                self.spec_rest() == old(self).spec_rest(),
                defs == old(self).doc.defines.entries@,
                alts == m.match_list.alternatives@,
                a <= m.match_list.alternatives@.len(),
                stream_alts_at(defs, alts, 0, self.spec_rest(), m.case_insensitive) == stream_alts_at(defs, alts, a as int, self.spec_rest(), m.case_insensitive),
            decreases m.match_list.alternatives@.len() - a,
        {
            match self.eval_field_list_streaming(&m.match_list.alternatives[a], m.case_insensitive) {
                Err(e) => {
                    proof {
                        assert(stream_failure(defs, exprs_view(alts[a as int].expressions@), m.case_insensitive, e));
                    }
                    return Err(e);
                },
                Ok(Some(x)) => { return Ok(Some(x)); },
                Ok(None) => {},
            }
            a = a + 1;
        }
        Ok(None)
    }

    /// A when statement: the groups of the first alternative that matches.
    fn eval_when_streaming(&mut self, w: &WhenStatement) -> (res: Result<Option<(Vec<String>, Vec<Option<String>>)>, GelError>)
        requires
            old(self).inv(),
        ensures
            final(self).inv(),
            final(self).spec_pos() == old(self).spec_pos(),
            final(self).spec_buffer() == old(self).spec_buffer(),
            final(self).spec_eof() == old(self).spec_eof(),
            final(self).doc.grammars == old(self).doc.grammars,
            final(self).doc.defines == old(self).doc.defines,
            final(self).statements == old(self).statements,
            res matches Ok(Some(x)) ==> stream_alts_at(old(self).doc.defines.entries@, w.match_list.alternatives@, 0, old(self).spec_rest(), false)
                matches Some(f) && f.1 == texts_view(x.0@) && f.2 == names_view(x.1@),
            res matches Ok(None) ==> stream_alts_at(old(self).doc.defines.entries@, w.match_list.alternatives@, 0, old(self).spec_rest(), false) is None,
            res matches Err(e) ==> stream_alts_failure(old(self).doc.defines.entries@, w.match_list.alternatives@, false, e),
            stream_alts_compile(old(self).doc.defines.entries@, w.match_list.alternatives@, false) ==> res is Ok,
    {
        let ghost defs = self.doc.defines.entries@;
        let ghost alts = w.match_list.alternatives@;
        let mut a: usize = 0;
        while a < w.match_list.alternatives.len()
            invariant
                self.inv(),
                self.spec_pos() == old(self).spec_pos(),
                self.spec_buffer() == old(self).spec_buffer(),
                self.spec_eof() == old(self).spec_eof(),
                self.doc.grammars == old(self).doc.grammars,
                self.doc.defines == old(self).doc.defines,
                self.statements == old(self).statements,
                self.spec_rest() == old(self).spec_rest(),
                defs == old(self).doc.defines.entries@,
                alts == w.match_list.alternatives@,
                a <= w.match_list.alternatives@.len(),
                stream_alts_at(defs, alts, 0, self.spec_rest(), false) == stream_alts_at(defs, alts, a as int, self.spec_rest(), false),
            decreases w.match_list.alternatives@.len() - a,
        {
            match self.eval_field_list_streaming(&w.match_list.alternatives[a], false) {
                Err(e) => {
                    proof {
                        assert(stream_failure(defs, exprs_view(alts[a as int].expressions@), false, e));
                    }
                    return Err(e);
                },
                Ok(Some((_, caps, names))) => { return Ok(Some((caps, names))); },
                Ok(None) => {},
            }
            a = a + 1;
        }
        Ok(None)
    }

    /// A skip statement: how far it skips (the fast scanners first).
    fn eval_skip_streaming(&mut self, s: &SkipStatement) -> (res: Result<Option<usize>, GelError>)
        requires
            old(self).inv(),
        ensures
            final(self).inv(),
            final(self).spec_pos() == old(self).spec_pos(),
            final(self).spec_buffer() == old(self).spec_buffer(),
            final(self).spec_eof() == old(self).spec_eof(),
            final(self).doc.grammars == old(self).doc.grammars,
            final(self).doc.defines == old(self).doc.defines,
            final(self).statements == old(self).statements,
            res matches Ok(Some(n)) ==> n <= final(self).spec_buffer().len() - final(self).spec_pos(),
            res matches Ok(x) ==> stream_skip_at(old(self).doc.defines.entries@, s.pattern@, old(self).spec_rest()) == match x {
                Some(n) => Some(n as int),
                None => None::<int>,
            },
            res matches Err(e) ==> stream_target(old(self).doc.defines.entries@, s.pattern@) matches Some(ExprV::Regex(r)) && regex_failure(e, r, false),
            stream_compiles(old(self).doc.defines.entries@, s.pattern@, false) ==> res is Ok,
    {
        let rest = vstd::slice::slice_to_vec(vstd::slice::slice_subrange(self.buffer.as_slice(), self.pos, self.buffer.len()));
        match &s.pattern {
            Expression::Regex(r) => {
                match try_fast_skip(r.as_str(), rest.as_slice()) {
                    Some(n) => { return Ok(Some(n)); },
                    None => {},
                }
            },
            _ => {},
        }
        let empty_caps: Vec<String> = Vec::new();
        let empty_names: Vec<Option<String>> = Vec::new();
        proof {
            assert(texts_view(empty_caps@) =~= Seq::<Seq<char>>::empty());
            assert(names_view(empty_names@) =~= Seq::<Option<Seq<char>>>::empty());
        }
        match self.eval_expression_streaming(&s.pattern, rest.as_slice(), false, empty_caps.as_slice(), empty_names.as_slice()) {
            Err(e) => Err(e),
            Ok(None) => Ok(None),
            Ok(Some((n, _))) => Ok(Some(n)),
        }
    }

    /// The text an action argument stands for: strings with their `$`
    /// references filled in, numbers in decimal, regexes as `/p/`, variables
    /// as what they are defined as; captures stand for nothing.
    fn expr_to_string_streaming(&self, expr: &Expression) -> (r: String)
        ensures
            r@ == stream_expr_text(self.doc.defines.entries@, expr@, texts_view(self.last_captures@), names_view(self.last_capture_names@)),
    {
        let base: &Expression = match expr {
            Expression::Variable(v) => match resolve_variable(&self.doc.defines, v.as_str()) {
                Some(e) => e,
                None => { return String::new(); },
            },
            other => other,
        };
        match base {
            Expression::String(s) => interpolate_refs(
                s.as_str(),
                self.last_captures.as_slice(),
                self.last_capture_names.as_slice(),
            ),
            Expression::Number(n) => i64_to_string(*n),
            Expression::Regex(r) => {
                let mut t = "/".to_string();
                t.append(r.as_str());
                t.append("/");
                t
            },
            _ => String::new(),
        }
    }

    /// An action with its capture references replaced by the captured texts
    /// and its variables by their string or number definitions.
    fn substitute_action_streaming(&self, action: &FunctionCall, scope: &[String], names: &[Option<String>]) -> (r: FunctionCall)
        ensures
            r@ == stream_call(self.doc.defines, action@, texts_view(scope@), names_view(names@)),
    {
        let ghost sv = texts_view(scope@);
        let ghost nv = names_view(names@);
        let mut args: Vec<Expression> = Vec::new();
        let mut i: usize = 0;
        while i < action.args.len()
            invariant
                i <= action.args@.len(),
                args@.len() == i,
                sv == texts_view(scope@),
                nv == names_view(names@),
                exprs_view(args@) =~= exprs_view(action.args@).subrange(0, i as int).map_values(
                    |e: ExprV| stream_arg(self.doc.defines, e, sv, nv),
                ),
            decreases action.args@.len() - i,
        {
            let arg = &action.args[i];
            let new_arg = match arg {
                Expression::Capture(idx) => Expression::String(
                    if *idx < scope.len() {
                        proof {
                            assert(sv[*idx as int] == scope@[*idx as int]@);
                        }
                        scope[*idx].clone()
                    } else {
                        String::new()
                    },
                ),
                Expression::CaptureName(n) => Expression::String(capture_by_name(n.as_str(), scope, names)),
                Expression::Variable(v) => match self.doc.defines.get(v.as_str()) {
                    Some(Expression::String(s)) => Expression::String(s.clone()),
                    Some(Expression::Number(n)) => Expression::String(i64_to_string(*n)),
                    _ => arg.copy(),
                },
                _ => arg.copy(),
            };
            let ghost prev = args@;
            args.push(new_arg);
            proof {
                assert(exprs_view(action.args@).subrange(0, i + 1) =~= exprs_view(action.args@).subrange(0, i as int).push(arg@));
                assert(exprs_view(args@) =~= exprs_view(prev).push(new_arg@));
            }
            i = i + 1;
        }
        proof {
            assert(exprs_view(action.args@).subrange(0, action.args@.len() as int) =~= exprs_view(action.args@));
        }
        FunctionCall { name: action.name.clone(), args }
    }

    /// Each action substituted as above.
    fn substitute_actions_streaming(&self, actions: &Vec<FunctionCall>, scope: &[String], names: &[Option<String>]) -> (r: Vec<FunctionCall>)
        ensures
            calls_view(r@) == calls_view(actions@).map_values(|c: CallV| stream_call(self.doc.defines, c, texts_view(scope@), names_view(names@))),
    {
        let ghost sv = texts_view(scope@);
        let ghost nv = names_view(names@);
        let mut out: Vec<FunctionCall> = Vec::new();
        let mut i: usize = 0;
        while i < actions.len()
            invariant
                i <= actions@.len(),
                out@.len() == i,
                sv == texts_view(scope@),
                nv == names_view(names@),
                calls_view(out@) =~= calls_view(actions@).subrange(0, i as int).map_values(|c: CallV| stream_call(self.doc.defines, c, sv, nv)),
            decreases actions@.len() - i,
        {
            let c = self.substitute_action_streaming(&actions[i], scope, names);
            let ghost prev = out@;
            out.push(c);
            proof {
                assert(calls_view(actions@).subrange(0, i + 1) =~= calls_view(actions@).subrange(0, i as int).push(actions@[i as int]@));
                assert(calls_view(out@) =~= calls_view(prev).push(c@));
            }
            i = i + 1;
        }
        proof {
            assert(calls_view(actions@).subrange(0, actions@.len() as int) =~= calls_view(actions@));
        }
        out
    }

    /// Fires the triggers of a kind against the last match text: each
    /// single-shot one that matches creates its path and is dropped, each
    /// persistent one that matches creates its path and stays.
    fn fire_triggers_streaming(&mut self, kind: usize, events: &mut Vec<StreamingEvent>)
        requires
            old(self).inv(),
            kind < 4,
        ensures
            final(self).inv(),
            final(self).spec_pos() == old(self).spec_pos(),
            final(self).spec_buffer() == old(self).spec_buffer(),
            final(self).spec_eof() == old(self).spec_eof(),
            final(self).doc.grammars == old(self).doc.grammars,
            final(self).statements == old(self).statements,
            final(self).triggers@[kind as int]@ == unfired(old(self).triggers@[kind as int]@, vstd::utf8::encode_utf8(old(self).last_match_text@)),
            forall|j: int| 0 <= j < 8 && j != kind ==> #[trigger] final(self).triggers@[j] == old(self).triggers@[j],
            creates(
                final(events)@,
                old(events)@,
                fired(old(self).triggers@[kind as int]@, vstd::utf8::encode_utf8(old(self).last_match_text@))
                    + fired(old(self).triggers@[kind + 4]@, vstd::utf8::encode_utf8(old(self).last_match_text@)),
                texts_view(old(self).last_captures@),
            ),
            final(self).spec_tree().spec_stack() == old(self).spec_tree().spec_stack(),
            final(self).error == old(self).error,
            final(self).actions == old(self).actions,
            final(self).doc == old(self).doc,
            final(self).last_capture_names == old(self).last_capture_names,
            final(self).last_captures == old(self).last_captures,
            final(self).last_match_text == old(self).last_match_text,
            plain_added(final(events)@, old(events)@),
    {
        let text = str_to_bytes(self.last_match_text.as_str());
        let ghost caps = texts_view(self.last_captures@);
        let ghost e0 = events@;
        let ghost orig = self.triggers@[kind as int]@;
        let ghost porig = self.triggers@[kind + 4]@;
        let single = kind;
        let persist = kind + 4;
        let mut kept: Vec<(CompiledRegex, TriggerAction)> = Vec::new();
        let mut fired_acts: Vec<TriggerAction> = Vec::new();
        let mut taken: Vec<(CompiledRegex, TriggerAction)> = Vec::new();
        std::mem::swap(&mut taken, &mut self.triggers[single]);
        proof {
            assert(taken@ == orig);
            assert(orig.subrange(0, 0) =~= Seq::<(CompiledRegex, TriggerAction)>::empty());
            assert(orig.subrange(0, orig.len() as int) =~= orig);
        }
        let ghost t1 = self.triggers@;
        while taken.len() > 0
            invariant
                self.inv(),
                self.spec_pos() == old(self).spec_pos(),
                self.spec_buffer() == old(self).spec_buffer(),
                self.spec_eof() == old(self).spec_eof(),
                self.doc.grammars == old(self).doc.grammars,
                self.statements == old(self).statements,
                self.triggers@ == t1,
                self.tree == old(self).tree,
                self.last_captures == old(self).last_captures,
                self.error == old(self).error,
                self.actions == old(self).actions,
                self.last_capture_names == old(self).last_capture_names,
                self.doc == old(self).doc,
                self.last_match_text == old(self).last_match_text,
                events@ == e0,
                text@ == vstd::utf8::encode_utf8(old(self).last_match_text@),
                taken@.len() <= orig.len(),
                taken@ == orig.subrange(orig.len() - taken@.len(), orig.len() as int),
                kept@ == unfired(orig.subrange(0, orig.len() - taken@.len()), text@),
                fired_acts@ == fired(orig.subrange(0, orig.len() - taken@.len()), text@),
            decreases taken@.len(),
        {
            let ghost c = orig.len() - taken@.len();
            let (rx, ta) = taken.remove(0);
            proof {
                assert(orig.subrange(0, c + 1).drop_last() =~= orig.subrange(0, c));
                assert(orig.subrange(0, c + 1).last() == orig[c]);
                assert(taken@ =~= orig.subrange(c + 1, orig.len() as int));
            }
            if regex_captures(&rx, text.as_slice()).is_some() {
                fired_acts.push(ta);
            } else {
                kept.push((rx, ta));
            }
        }
        self.triggers.set(single, kept);
        let ghost t2 = self.triggers@;
        proof {
            assert(events@.subrange(0, e0.len() as int) =~= e0);
            assert(fired_acts@.subrange(0, 0) =~= Seq::<TriggerAction>::empty());
        }
        let mut i: usize = 0;
        while i < fired_acts.len()
            invariant
                self.inv(),
                self.spec_pos() == old(self).spec_pos(),
                self.spec_buffer() == old(self).spec_buffer(),
                self.spec_eof() == old(self).spec_eof(),
                self.doc.grammars == old(self).doc.grammars,
                self.statements == old(self).statements,
                self.triggers@ == t2,
                self.tree.spec_stack() == old(self).tree.spec_stack(),
                self.last_captures == old(self).last_captures,
                self.error == old(self).error,
                self.actions == old(self).actions,
                self.last_capture_names == old(self).last_capture_names,
                self.doc == old(self).doc,
                self.last_match_text == old(self).last_match_text,
                caps == texts_view(old(self).last_captures@),
                i <= fired_acts@.len(),
                creates(events@, e0, fired_acts@.subrange(0, i as int), caps),
            decreases fired_acts@.len() - i,
        {
            let ghost before = events@;
            self.create_from_trigger(&fired_acts[i], events);
            proof {
                lemma_creates_push(e0, before, events@, fired_acts@.subrange(0, i as int), fired_acts@[i as int], caps);
                assert(fired_acts@.subrange(0, i + 1) =~= fired_acts@.subrange(0, i as int).push(fired_acts@[i as int]));
            }
            i = i + 1;
        }
        let ghost e1 = events@;
        proof {
            assert(fired_acts@.subrange(0, fired_acts@.len() as int) =~= fired_acts@);
            assert(porig.subrange(0, 0) =~= Seq::<(CompiledRegex, TriggerAction)>::empty());
            assert(events@.subrange(0, e1.len() as int) =~= e1);
        }
        let ghost trig = self.triggers;
        let mut p: usize = 0;
        while p < self.triggers[persist].len()
            invariant
                self.triggers == trig,
                trig@ == t2,
                self.inv(),
                self.spec_pos() == old(self).spec_pos(),
                self.spec_buffer() == old(self).spec_buffer(),
                self.spec_eof() == old(self).spec_eof(),
                self.doc.grammars == old(self).doc.grammars,
                self.statements == old(self).statements,
                self.tree.spec_stack() == old(self).tree.spec_stack(),
                self.last_captures == old(self).last_captures,
                self.error == old(self).error,
                self.actions == old(self).actions,
                self.last_capture_names == old(self).last_capture_names,
                self.doc == old(self).doc,
                self.last_match_text == old(self).last_match_text,
                caps == texts_view(old(self).last_captures@),
                text@ == vstd::utf8::encode_utf8(old(self).last_match_text@),
                persist < 8,
                persist == kind + 4,
                porig == t2[persist as int]@,
                p <= porig.len(),
                creates(events@, e1, fired(porig.subrange(0, p as int), text@), caps),
            decreases self.triggers@[persist as int]@.len() - p,
        {
            proof {
                assert(porig.subrange(0, p + 1).drop_last() =~= porig.subrange(0, p as int));
                assert(porig.subrange(0, p + 1).last() == porig[p as int]);
            }
            if regex_captures(&self.triggers[persist][p].0, text.as_slice()).is_some() {
                let path = interpolate_digits(self.triggers[persist][p].1.path.as_str(), self.last_captures.as_slice());
                let value = match &self.triggers[persist][p].1.value {
                    Some(v) => Some(interpolate_digits(v.as_str(), self.last_captures.as_slice())),
                    None => None,
                };
                let ghost before = events@;
                self.emit_create(path, value, events);
                proof {
                    assert(events@.drop_last() =~= before);
                    lemma_creates_push(e1, before, events@, fired(porig.subrange(0, p as int), text@), porig[p as int].1, caps);
                }
            }
            p = p + 1;
        }
        proof {
            assert(porig.subrange(0, porig.len() as int) =~= porig);
            assert(t2[persist as int] == old(self).triggers@[kind + 4]);
            lemma_creates_append(e0, e1, events@, fired_acts@, fired(porig, text@), caps);
            lemma_creates_plain(events@, e0, fired_acts@ + fired(porig, text@), caps);
        }
    }

    /// Creates a trigger's path (with its value), `$N` filled in from the
    /// last captures.
    fn create_from_trigger(&mut self, ta: &TriggerAction, events: &mut Vec<StreamingEvent>)
        requires
            old(self).inv(),
        ensures
            created(final(events)@, old(events)@, ta, texts_view(old(self).last_captures@)),
            final(self).spec_tree().spec_stack() == old(self).spec_tree().spec_stack(),
            final(self).error == old(self).error,
            final(self).actions == old(self).actions,
            final(self).doc == old(self).doc,
            final(self).last_capture_names == old(self).last_capture_names,
            final(self).last_captures == old(self).last_captures,
            final(self).last_match_text == old(self).last_match_text,
            final(self).triggers == old(self).triggers,
            final(self).inv(),
            final(self).spec_pos() == old(self).spec_pos(),
            final(self).spec_buffer() == old(self).spec_buffer(),
            final(self).spec_eof() == old(self).spec_eof(),
            final(self).doc.grammars == old(self).doc.grammars,
            final(self).statements == old(self).statements,
    {
        let path = interpolate_digits(ta.path.as_str(), self.last_captures.as_slice());
        let value = match &ta.value {
            Some(v) => Some(interpolate_digits(v.as_str(), self.last_captures.as_slice())),
            None => None,
        };
        self.emit_create(path, value, events);
        proof {
            assert(events@.drop_last() =~= old(events)@);
        }
    }

    /// Records a `Create` event and creates the path in the tree.
    fn emit_create(&mut self, path: String, value: Option<String>, events: &mut Vec<StreamingEvent>)
        requires
            old(self).inv(),
        ensures
            final(events)@ == old(events)@.push(StreamingEvent::Create { path: path, value: value }),
            final(self).spec_tree().spec_stack() == old(self).spec_tree().spec_stack(),
            final(self).error == old(self).error,
            final(self).actions == old(self).actions,
            final(self).doc == old(self).doc,
            final(self).last_capture_names == old(self).last_capture_names,
            final(self).last_captures == old(self).last_captures,
            final(self).last_match_text == old(self).last_match_text,
            final(self).triggers == old(self).triggers,
            final(self).inv(),
            final(self).spec_pos() == old(self).spec_pos(),
            final(self).spec_buffer() == old(self).spec_buffer(),
            final(self).spec_eof() == old(self).spec_eof(),
            final(self).doc.grammars == old(self).doc.grammars,
            final(self).statements == old(self).statements,
    {
        let v_ref: Option<&str> = match &value {
            Some(v) => Some(v.as_str()),
            None => None,
        };
        self.tree.exec(RuntimeAction::OutCreate { path: path.as_str(), value: v_ref });
        events.push(StreamingEvent::Create { path, value });
    }

    /// Registers an `enqueue_*` trigger: pattern, path and optional value.
    fn register_trigger_streaming(&mut self, name: &str, args: &Vec<String>)
        requires
            old(self).inv(),
        ensures
            registered(final(self).triggers@, old(self).triggers@, name@, texts_view(args@)),
            final(self).error == old(self).error,
            final(self).actions == old(self).actions,
            final(self).doc == old(self).doc,
            final(self).last_capture_names == old(self).last_capture_names,
            final(self).last_captures == old(self).last_captures,
            final(self).last_match_text == old(self).last_match_text,
            final(self).tree == old(self).tree,
            final(self).inv(),
            final(self).spec_pos() == old(self).spec_pos(),
            final(self).spec_buffer() == old(self).spec_buffer(),
            final(self).spec_eof() == old(self).spec_eof(),
            final(self).doc.grammars == old(self).doc.grammars,
            final(self).statements == old(self).statements,
    {
        if args.len() < 2 {
            return;
        }
        proof {
            assert(texts_view(args@)[0] == args@[0]@);
            assert(texts_view(args@)[1] == args@[1]@);
            if args@.len() > 2 {
                assert(texts_view(args@)[2] == args@[2]@);
            }
        }
        let rx = match compile_regex(args[0].as_str()) {
            Ok(r) => r,
            Err(_) => { return; },
        };
        let ta = TriggerAction {
            path: args[1].clone(),
            value: if args.len() > 2 {
                Some(args[2].clone())
            } else {
                None
            },
        };
        match trigger_slot(name) {
            Some(t) => {
                let mut list: Vec<(CompiledRegex, TriggerAction)> = Vec::new();
                let ghost before = self.triggers@;
                std::mem::swap(&mut list, &mut self.triggers[t]);
                let ghost prev = list@;
                list.push((rx, ta));
                self.triggers.set(t, list);
                proof {
                    assert(prev == before[t as int]@);
                    assert(self.triggers@[t as int]@.drop_last() =~= before[t as int]@);
                }
            },
            None => {},
        }
    }

    /// Runs a sub-grammar over the unread input; what it consumes is
    /// consumed here too.
    fn run_sub_grammar(&mut self, grammar: &str, events: &mut Vec<StreamingEvent>)
        requires
            old(self).inv(),
        ensures
            final(events)@ == old(events)@ || final(events)@ == old(events)@.push(
                StreamingEvent::MatchConsumed { pos: old(self).pos, len: (final(self).pos - old(self).pos) as usize },
            ),
            !valid_utf8(old(self).spec_rest()) || old(self).doc.grammars.spec_get(grammar@) is None ==> final(self).spec_pos()
                == old(self).spec_pos() && final(events)@ == old(events)@,
            valid_utf8(old(self).spec_rest()) && old(self).doc.grammars.spec_get(grammar@) is Some ==> final(events)@.len() == old(events)@.len() + 1,
            final(self).tree == old(self).tree,
            final(self).triggers == old(self).triggers,
            final(self).error == old(self).error,
            final(self).actions == old(self).actions,
            final(self).doc == old(self).doc,
            final(self).last_capture_names == old(self).last_capture_names,
            final(self).last_captures == old(self).last_captures,
            final(self).last_match_text == old(self).last_match_text,
            final(self).inv(),
            final(self).spec_pos() >= old(self).spec_pos(),
            final(self).spec_buffer() == old(self).spec_buffer(),
            final(self).spec_eof() == old(self).spec_eof(),
            final(self).doc.grammars == old(self).doc.grammars,
            final(self).statements == old(self).statements,
            plain_added(final(events)@, old(events)@),
    {
        proof {
            lemma_plain_refl(events@);
        }
        let rest = vstd::slice::slice_subrange(self.buffer.as_slice(), self.pos, self.buffer.len());
        let input = match utf8_decode(rest) {
            Some(s) => s,
            None => {
                self.traces.push("sub-grammar error: input is not valid UTF-8".to_string());
                return;
            },
        };
        let mut sub_doc = copy_document(&self.doc);
        proof {
            crate::parser::ast::lemma_same_key_views(sub_doc.grammars.entries@, self.doc.grammars.entries@, grammar@);
            if valid_utf8(rest@) {
                vstd::utf8::decode_utf8_encode_utf8(rest@);
            }
        }
        match execute(&mut sub_doc, grammar, input.as_str()) {
            Ok(sub) => {
                let c = sub.consumed;
                if c <= self.buffer.len() - self.pos {
                    let start = self.pos;
                    self.pos = self.pos + c;
                    self.consumed = self.consumed + c;
                    events.push(StreamingEvent::MatchConsumed { pos: start, len: c });
                    proof {
                        lemma_plain_push(old(events)@, StreamingEvent::MatchConsumed { pos: start, len: c });
                    }
                }
            },
            Err(e) => {
                let mut msg = "sub-grammar error: ".to_string();
                msg.append(e.to_string().as_str());
                self.traces.push(msg);
            },
        }
    }

    /// Runs a list of actions, recording the events.  Returns the return
    /// levels asked for, whether `do.next` ran, the `do.fail` message and how
    /// many scopes `out.open` / `out.enter` opened.
    fn execute_runtime_actions_streaming(&mut self, actions: &Vec<FunctionCall>, events: &mut Vec<StreamingEvent>) -> (r: (
        i32,
        bool,
        Option<String>,
        usize,
    ))
        requires
            old(self).inv(),
        ensures
            final(self).inv(),
            final(self).spec_pos() >= old(self).spec_pos(),
            final(self).spec_buffer() == old(self).spec_buffer(),
            final(self).spec_eof() == old(self).spec_eof(),
            final(self).doc.grammars == old(self).doc.grammars,
            final(self).statements == old(self).statements,
            r.3 <= actions@.len(),
            (r.0 as int, r.1, opt_text(r.2)) == stream_control(
                old(self).doc.defines.entries@,
                calls_view(actions@),
                texts_view(old(self).last_captures@),
                names_view(old(self).last_capture_names@),
                0,
                false,
                None,
            ),
            final(self).error == old(self).error,
            final(self).actions == old(self).actions,
            final(self).doc == old(self).doc,
            final(self).last_captures == old(self).last_captures,
            final(self).last_capture_names == old(self).last_capture_names,
            stream_run_effect(
                old(self).doc.defines.entries@,
                calls_view(actions@),
                texts_view(old(self).last_captures@),
                names_view(old(self).last_capture_names@),
                old(self).tree,
                old(events)@,
                final(self).tree,
                final(events)@,
            ),
            plain_added(final(events)@, old(events)@),
    {
        let ghost t_start = self.tree;
        let ghost e_start = events@;
        let ghost defs = self.doc.defines.entries@;
        let ghost acts = calls_view(actions@);
        let ghost caps = texts_view(self.last_captures@);
        let ghost nms = names_view(self.last_capture_names@);
        let ghost ctl0 = stream_control(defs, acts, caps, nms, 0, false, None);
        proof {
            assert(acts.subrange(0, acts.len() as int) =~= acts);
            lemma_plain_refl(e_start);
        }
        let mut return_levels: i32 = 0;
        let mut did_next = false;
        let mut fail_error: Option<String> = None;
        let mut auto_leaves: usize = 0;
        let mut i: usize = 0;
        while i < actions.len()
            invariant_except_break
                return_levels <= 0,
                forall|t: OutputTree, e: Seq<StreamingEvent>|
                    stream_run_effect(defs, acts.subrange(i as int, acts.len() as int), caps, nms, self.tree, events@, t, e)
                        ==> #[trigger] stream_run_effect(defs, acts, caps, nms, t_start, e_start, t, e),
                ctl0 == stream_control(
                    defs,
                    acts.subrange(i as int, acts.len() as int),
                    caps,
                    nms,
                    return_levels as int,
                    did_next,
                    opt_text(fail_error),
                ),
            invariant
                self.inv(),
                self.spec_pos() >= old(self).spec_pos(),
                self.spec_buffer() == old(self).spec_buffer(),
                self.spec_eof() == old(self).spec_eof(),
                self.doc.grammars == old(self).doc.grammars,
                self.statements == old(self).statements,
                i <= actions@.len(),
                auto_leaves <= i,
                self.doc == old(self).doc,
                self.last_captures == old(self).last_captures,
                self.error == old(self).error,
                self.actions == old(self).actions,
                self.last_capture_names == old(self).last_capture_names,
                defs == old(self).doc.defines.entries@,
                acts == calls_view(actions@),
                caps == texts_view(old(self).last_captures@),
                nms == names_view(old(self).last_capture_names@),
                ctl0 == stream_control(defs, acts, caps, nms, 0, false, None),
                t_start == old(self).tree,
                e_start == old(events)@,
                plain_added(events@, e_start),
            ensures
                plain_added(events@, e_start),
                ctl0 == (return_levels as int, did_next, opt_text(fail_error)),
                stream_run_effect(defs, acts, caps, nms, t_start, e_start, self.tree, events@),
            decreases actions@.len() - i,
        {
            let action = &actions[i];
            let ghost rest = acts.subrange(i as int, acts.len() as int);
            let ghost av = stream_args(defs, action@, caps, nms);
            let ghost t_cur = self.tree;
            let ghost e_cur = events@;
            proof {
                lemma_plain_refl(e_cur);
            }
            proof {
                lemma_stream_action_names();
                assert(rest.drop_first() =~= acts.subrange(i + 1, acts.len() as int));
                assert(rest[0] == action@);
            }
            let mut args: Vec<String> = Vec::new();
            let mut k: usize = 0;
            while k < action.args.len()
                invariant
                    k <= action.args@.len(),
                    self.doc.defines.entries@ == defs,
                    texts_view(self.last_captures@) == caps,
                    names_view(self.last_capture_names@) == nms,
                    texts_view(args@) =~= exprs_view(action.args@).subrange(0, k as int).map_values(
                        |e: ExprV| stream_expr_text(defs, e, caps, nms),
                    ),
                decreases action.args@.len() - k,
            {
                let t = self.expr_to_string_streaming(&action.args[k]);
                let ghost prev = args@;
                args.push(t);
                proof {
                    assert(exprs_view(action.args@).subrange(0, k + 1) =~= exprs_view(action.args@).subrange(0, k as int).push(action.args@[k as int]@));
                    assert(texts_view(args@) =~= texts_view(prev).push(t@));
                }
                k = k + 1;
            }
            proof {
                assert(exprs_view(action.args@).subrange(0, action.args@.len() as int) =~= exprs_view(action.args@));
                assert(texts_view(args@) == av);
            }
            let name = action.name.as_str();
            if str_eq(name, "out.create") || str_eq(name, "out.add") || str_eq(name, "out.replace") {
                if args.len() > 0 {
                    let path = args[0].clone();
                    let value: Option<String> = if args.len() > 1 {
                        Some(args[1].clone())
                    } else {
                        None
                    };
                    let v_ref: Option<&str> = match &value {
                        Some(v) => Some(v.as_str()),
                        None => None,
                    };
                    let ghost dv = decoded_value(av);
                    proof {
                        assert(av[0] == args@[0]@);
                        if args@.len() > 1 {
                            assert(av[1] == args@[1]@);
                        }
                        assert(value_view(v_ref) == dv);
                    }
                    if str_eq(name, "out.create") {
                        self.tree.exec(RuntimeAction::OutCreate { path: path.as_str(), value: v_ref });
                        let ghost tm = self.tree;
                        proof {
                            let segs = choose|segs: Seq<PathSegment>| segs_of(segs) == parse_path_spec(path@) && path_effect(action@.0, &tm, &t_cur, segs, dv);
                            assert(path_effect(action@.0, &tm, &t_cur, segs, dv));
                        }
                        events.push(StreamingEvent::Create { path, value });
                        let ghost e_mid = events@;
                        proof {
                            assert(e_mid.drop_last() =~= e_cur);
                            lemma_plain_pushed(e_mid, e_cur);
                        }
                        self.fire_triggers_streaming(2, events);
                        proof {
                            lemma_plain_trans(events@, e_mid, e_cur);
                            assert(events@.subrange(0, e_mid.len() as int) == e_mid);
                            assert(events@[e_cur.len() as int] == e_mid[e_cur.len() as int]);
                            assert(events@.subrange(0, e_cur.len() as int) =~= e_cur);
                            assert(path_event(action@.0, events@[e_cur.len() as int], av[0], if av.len() > 1 { Some(av[1]) } else { None }));
                            assert(self.tree.spec_stack() == tm.spec_stack());
                            assert(stream_action_effect(defs, action@, caps, nms, t_cur, e_cur, self.tree, events@));
                        }
                    } else if str_eq(name, "out.add") {
                        self.tree.exec(RuntimeAction::OutAdd { path: path.as_str(), value: v_ref });
                        let ghost tm = self.tree;
                        proof {
                            let segs = choose|segs: Seq<PathSegment>| segs_of(segs) == parse_path_spec(path@) && path_effect(action@.0, &tm, &t_cur, segs, dv);
                            assert(path_effect(action@.0, &tm, &t_cur, segs, dv));
                        }
                        events.push(StreamingEvent::Add { path, value });
                        let ghost e_mid = events@;
                        proof {
                            assert(e_mid.drop_last() =~= e_cur);
                            lemma_plain_pushed(e_mid, e_cur);
                        }
                        self.fire_triggers_streaming(2, events);
                        proof {
                            lemma_plain_trans(events@, e_mid, e_cur);
                            assert(events@.subrange(0, e_mid.len() as int) == e_mid);
                            assert(events@[e_cur.len() as int] == e_mid[e_cur.len() as int]);
                            assert(events@.subrange(0, e_cur.len() as int) =~= e_cur);
                            assert(path_event(action@.0, events@[e_cur.len() as int], av[0], if av.len() > 1 { Some(av[1]) } else { None }));
                            assert(self.tree.spec_stack() == tm.spec_stack());
                            assert(stream_action_effect(defs, action@, caps, nms, t_cur, e_cur, self.tree, events@));
                        }
                    } else {
                        self.tree.exec(RuntimeAction::OutReplace { path: path.as_str(), value: v_ref });
                        let ghost tm = self.tree;
                        proof {
                            let segs = choose|segs: Seq<PathSegment>| segs_of(segs) == parse_path_spec(path@) && path_effect(action@.0, &tm, &t_cur, segs, dv);
                            assert(path_effect(action@.0, &tm, &t_cur, segs, dv));
                        }
                        events.push(StreamingEvent::Replace { path, value });
                        proof {
                            assert(events@.drop_last() =~= e_cur);
                            lemma_plain_pushed(events@, e_cur);
                            assert(events@.subrange(0, e_cur.len() as int) =~= e_cur);
                            assert(path_event(action@.0, events@[e_cur.len() as int], av[0], if av.len() > 1 { Some(av[1]) } else { None }));
                            assert(stream_action_effect(defs, action@, caps, nms, t_cur, e_cur, self.tree, events@));
                        }
                    }
                }
            } else if str_eq(name, "out.add_attribute") {
                if args.len() >= 3 {
                    proof {
                        assert(av[0] == args@[0]@);
                        assert(av[1] == args@[1]@);
                        assert(av[2] == args@[2]@);
                    }
                    self.tree.exec(
                        RuntimeAction::OutAddAttribute {
                            path: args[0].as_str(),
                            name: args[1].as_str(),
                            value: args[2].as_str(),
                        },
                    );
                    let ghost tm = self.tree;
                    proof {
                        let segs = choose|segs: Seq<PathSegment>| segs_of(segs) == parse_path_spec(args@[0]@) && attribute_added(&tm, &t_cur, segs, args@[1]@, args@[2]@);
                        assert(attribute_added(&tm, &t_cur, segs, av[1], av[2]));
                    }
                    events.push(
                        StreamingEvent::AddAttribute {
                            path: args[0].clone(),
                            name: args[1].clone(),
                            value: args[2].clone(),
                        },
                    );
                    proof { assert(events@.drop_last() =~= e_cur); lemma_plain_pushed(events@, e_cur); }
                }
                proof { assert(stream_action_effect(defs, action@, caps, nms, t_cur, e_cur, self.tree, events@)); }
            } else if str_eq(name, "out.set_root_name") || str_eq(name, "out.name") {
                if args.len() > 0 {
                    proof {
                        assert(av[0] == args@[0]@);
                    }
                    self.tree.exec(RuntimeAction::OutSetRootName { name: args[0].as_str() });
                    events.push(StreamingEvent::SetRootName { name: args[0].clone() });
                    proof { assert(events@.drop_last() =~= e_cur); lemma_plain_pushed(events@, e_cur); }
                }
                proof { assert(stream_action_effect(defs, action@, caps, nms, t_cur, e_cur, self.tree, events@)); }
            } else if str_eq(name, "out.open") {
                if args.len() > 0 {
                    proof {
                        assert(av[0] == args@[0]@);
                    }
                    self.tree.exec(RuntimeAction::OutOpen { path: args[0].as_str() });
                    let ghost tm = self.tree;
                    proof {
                        let segs = choose|segs: Seq<PathSegment>| segs_of(segs) == parse_path_spec(args@[0]@) && scope_pushed(tm, t_cur, segs);
                        assert(scope_pushed(tm, t_cur, segs));
                    }
                    events.push(StreamingEvent::Open { path: args[0].clone() });
                    proof { assert(events@.drop_last() =~= e_cur); lemma_plain_pushed(events@, e_cur); }
                    auto_leaves = auto_leaves + 1;
                }
                proof { assert(stream_action_effect(defs, action@, caps, nms, t_cur, e_cur, self.tree, events@)); }
            } else if str_eq(name, "out.enter") {
                if args.len() > 0 {
                    proof {
                        assert(av[0] == args@[0]@);
                    }
                    self.tree.exec(RuntimeAction::OutEnter { path: args[0].as_str() });
                    let ghost tm = self.tree;
                    proof {
                        let segs = choose|segs: Seq<PathSegment>| segs_of(segs) == parse_path_spec(args@[0]@) && scope_pushed(tm, t_cur, segs);
                        assert(scope_pushed(tm, t_cur, segs));
                    }
                    events.push(StreamingEvent::Enter { path: args[0].clone() });
                    proof { assert(events@.drop_last() =~= e_cur); lemma_plain_pushed(events@, e_cur); }
                    auto_leaves = auto_leaves + 1;
                }
                proof { assert(stream_action_effect(defs, action@, caps, nms, t_cur, e_cur, self.tree, events@)); }
            } else if str_eq(name, "out.leave") {
                events.push(StreamingEvent::Leave);
                proof {
                    assert(events@.drop_last() =~= e_cur);
                    lemma_plain_pushed(events@, e_cur);
                }
                self.tree.leave();
                proof {
                    let st = t_cur.spec_stack();
                    assert(left_times(st, 1) == left_times(if st.len() > 1 { st.drop_last() } else { st }, 0));
                }
                proof { assert(stream_action_effect(defs, action@, caps, nms, t_cur, e_cur, self.tree, events@)); }
            } else if str_eq(name, "do.return") {
                return_levels = return_levels_arg(&args);
                proof { assert(stream_action_effect(defs, action@, caps, nms, t_cur, e_cur, self.tree, events@)); }
            } else if str_eq(name, "do.next") {
                did_next = true;
                proof { assert(stream_action_effect(defs, action@, caps, nms, t_cur, e_cur, self.tree, events@)); }
            } else if str_eq(name, "do.fail") {
                proof {
                    if args@.len() > 0 {
                        assert(av[0] == args@[0]@);
                    }
                }
                fail_error = Some(
                    if args.len() > 0 {
                        args[0].clone()
                    } else {
                        "fail".to_string()
                    },
                );
                proof { assert(stream_action_effect(defs, action@, caps, nms, t_cur, e_cur, self.tree, events@)); }
            } else if str_eq(name, "do.run") || str_eq(name, "do.grammar") {
                if args.len() > 0 {
                    self.run_sub_grammar(args[0].as_str(), events);
                    proof {
                        if events@ != e_cur {
                            assert(events@.drop_last() =~= e_cur);
                        }
                        lemma_plain_trans(events@, e_cur, e_cur);
                    }
                }
                proof { assert(stream_action_effect(defs, action@, caps, nms, t_cur, e_cur, self.tree, events@)); }
            } else if trigger_slot(name).is_some() {
                self.register_trigger_streaming(name, &args);
                proof { assert(stream_action_effect(defs, action@, caps, nms, t_cur, e_cur, self.tree, events@)); }
            } else {
                let mut msg = "unknown action: ".to_string();
                msg.append(name);
                self.traces.push(msg);
                proof { assert(stream_action_effect(defs, action@, caps, nms, t_cur, e_cur, self.tree, events@)); }
            }
            proof {
                lemma_plain_trans(events@, e_cur, e_start);
            }
            proof {
                assert(stream_action_effect(defs, action@, caps, nms, t_cur, e_cur, self.tree, events@));
                if action@.0 == "do.return"@ && stream_levels(av) > 0 {
                    assert(stream_run_effect(defs, rest, caps, nms, t_cur, e_cur, t_cur, e_cur));
                } else {
                    assert forall|t: OutputTree, e: Seq<StreamingEvent>|
                        stream_run_effect(defs, rest.drop_first(), caps, nms, self.tree, events@, t, e) implies #[trigger] stream_run_effect(
                        defs,
                        acts,
                        caps,
                        nms,
                        t_start,
                        e_start,
                        t,
                        e,
                    ) by {
                        assert(stream_run_effect(defs, rest, caps, nms, t_cur, e_cur, t, e));
                    }
                }
            }
            i = i + 1;
            if return_levels > 0 {
                break;
            }
        }
        (return_levels, did_next, fail_error, auto_leaves)
    }

    /// The common tail of a match or a `when` that fired: `before` triggers,
    /// the actions, automatic leaves, a failure message, then (unless the
    /// grammar returned) the capture scope, the actions, the `after` triggers.
    fn fire_actions(
        &mut self,
        acts: &Vec<FunctionCall>,
        scope: Vec<String>,
        names: Vec<Option<String>>,
        events: &mut Vec<StreamingEvent>,
    ) -> (returned: bool)
        requires
            old(self).inv(),
        ensures
            returned == (fired_control(
                old(self).doc.defines,
                calls_view(acts@),
                texts_view(scope@),
                names_view(names@),
                texts_view(old(self).last_captures@),
                names_view(old(self).last_capture_names@),
            ).0 > 0),
            returned ==> final(events)@.len() > 0 && final(events)@.last() == (StreamingEvent::Finished { consumed: final(self).pos }),
            opt_text(final(self).error) == match fired_control(
                old(self).doc.defines,
                calls_view(acts@),
                texts_view(scope@),
                names_view(names@),
                texts_view(old(self).last_captures@),
                names_view(old(self).last_capture_names@),
            ).2 {
                Some(m) => Some(m),
                None => opt_text(old(self).error),
            },
            !returned ==> calls_view(final(self).actions@) == calls_view(old(self).actions@) + calls_view(acts@).map_values(
                |c: CallV| stream_call(old(self).doc.defines, c, texts_view(scope@), names_view(names@)),
            ),
            final(self).doc == old(self).doc,
            final(self).last_captures == old(self).last_captures,
            final(self).last_capture_names == old(self).last_capture_names,
            final(self).inv(),
            final(self).spec_pos() >= old(self).spec_pos(),
            final(self).spec_buffer() == old(self).spec_buffer(),
            final(self).spec_eof() == old(self).spec_eof(),
            final(self).doc.grammars == old(self).doc.grammars,
            final(self).statements == old(self).statements,
            if returned { plain_added(final(events)@.drop_last(), old(events)@) } else { plain_added(final(events)@, old(events)@) },
    {
        self.fire_triggers_streaming(0, events);
        let ghost e1 = events@;
        let substituted = self.substitute_actions_streaming(acts, scope.as_slice(), names.as_slice());
        let (return_levels, _did_next, fail_error, auto_leaves) = self.execute_runtime_actions_streaming(
            &substituted,
            events,
        );
        proof {
            lemma_plain_trans(events@, e1, old(events)@);
        }
        let ghost err0 = self.error;
        let ghost acts0 = self.actions@;
        let mut k: usize = 0;
        while k < auto_leaves
            invariant
                self.doc == old(self).doc,
                self.last_captures == old(self).last_captures,
                self.last_capture_names == old(self).last_capture_names,
                self.error == err0,
                self.actions@ == acts0,
                self.inv(),
                self.spec_pos() >= old(self).spec_pos(),
                self.spec_buffer() == old(self).spec_buffer(),
                self.spec_eof() == old(self).spec_eof(),
                self.doc.grammars == old(self).doc.grammars,
                self.statements == old(self).statements,
                plain_added(events@, old(events)@),
            decreases auto_leaves - k,
        {
            let ghost ek = events@;
            self.fire_triggers_streaming(3, events);
            let ghost ek2 = events@;
            self.tree.leave();
            events.push(StreamingEvent::Leave);
            proof {
                assert(events@.drop_last() =~= ek2);
                lemma_plain_pushed(events@, ek2);
                lemma_plain_trans(events@, ek2, ek);
                lemma_plain_trans(events@, ek, old(events)@);
            }
            k = k + 1;
        }
        match fail_error {
            Some(e) => { self.error = Some(e); },
            None => {},
        }
        let ghost final_err = self.error;
        if return_levels > 0 {
            let ghost ef = events@;
            events.push(StreamingEvent::Finished { consumed: self.consumed });
            proof {
                assert(events@.drop_last() =~= ef);
            }
            return true;
        }
        if scope.len() > 0 {
            self.capture_history.push(scope);
            self.capture_names_history.push(names);
        }
        let mut j: usize = 0;
        proof {
            assert(calls_view(substituted@).subrange(0, 0) =~= Seq::<CallV>::empty());
            assert(calls_view(self.actions@) =~= calls_view(acts0) + calls_view(substituted@).subrange(0, 0));
        }
        while j < substituted.len()
            invariant
                plain_added(events@, old(events)@),
                self.doc == old(self).doc,
                self.last_captures == old(self).last_captures,
                self.last_capture_names == old(self).last_capture_names,
                opt_text(self.error) == opt_text(final_err),
                calls_view(self.actions@) =~= calls_view(acts0) + calls_view(substituted@).subrange(0, j as int),
                self.inv(),
                self.spec_pos() >= old(self).spec_pos(),
                self.spec_buffer() == old(self).spec_buffer(),
                self.spec_eof() == old(self).spec_eof(),
                self.doc.grammars == old(self).doc.grammars,
                self.statements == old(self).statements,
                j <= substituted@.len(),
            decreases substituted@.len() - j,
        {
            let c = substituted[j].copy();
            let ghost prev = self.actions@;
            self.actions.push(c);
            proof {
                assert(calls_view(substituted@).subrange(0, j + 1) =~= calls_view(substituted@).subrange(0, j as int).push(substituted@[j as int]@));
                assert(calls_view(self.actions@) =~= calls_view(prev).push(c@));
            }
            j = j + 1;
        }
        proof {
            assert(calls_view(substituted@).subrange(0, substituted@.len() as int) =~= calls_view(substituted@));
        }
        let ghost ea = events@;
        self.fire_triggers_streaming(1, events);
        proof {
            lemma_plain_trans(events@, ea, old(events)@);
        }
        false
    }

    /// A `match` statement at the position: on a non-empty match, consumes it,
    /// takes its captures and fires the actions.
    fn try_match(&mut self, m: &MatchStatement, events: &mut Vec<StreamingEvent>) -> (r: Result<Outcome, GelError>)
        requires
            old(self).inv(),
        ensures
            final(self).doc.defines == old(self).doc.defines,
            final(self).inv(),
            final(self).spec_pos() >= old(self).spec_pos(),
            final(self).spec_buffer() == old(self).spec_buffer(),
            final(self).spec_eof() == old(self).spec_eof(),
            final(self).doc.grammars == old(self).doc.grammars,
            final(self).statements == old(self).statements,
            r matches Ok(Outcome::NoMatch) ==> final(self).spec_pos() == old(self).spec_pos(),
            r matches Ok(Outcome::Restart) ==> final(self).spec_pos() > old(self).spec_pos(),
            r matches Ok(Outcome::Returned) ==> final(events)@.len() > 0,
            r matches Ok(Outcome::Returned) ==> final(events)@.last() == (StreamingEvent::Finished { consumed: final(self).pos }),
            r matches Err(e) ==> e is Runtime,
            r matches Ok(Outcome::NoMatch) <==> r is Ok && match stream_alts_at(old(self).doc.defines.entries@, m.match_list.alternatives@, 0, old(self).spec_rest(), m.case_insensitive) {
                Some(x) => x.0 == 0,
                None => true,
            },
            (r is Ok && !(r->Ok_0 is NoMatch)) ==> (stream_alts_at(old(self).doc.defines.entries@, m.match_list.alternatives@, 0, old(self).spec_rest(), m.case_insensitive) matches Some(x)
                && old(self).spec_pos() + x.0 <= final(self).spec_pos()
                && texts_view(final(self).last_captures@) == x.1
                && names_view(final(self).last_capture_names@) == x.2),
            r matches Ok(Outcome::Restart) ==> (stream_alts_at(old(self).doc.defines.entries@, m.match_list.alternatives@, 0, old(self).spec_rest(), m.case_insensitive) matches Some(x)
                && final(events)@.last() == (StreamingEvent::MatchConsumed { pos: old(self).pos, len: x.0 as usize })),
            r matches Err(e) ==> stream_alts_failure(old(self).doc.defines.entries@, m.match_list.alternatives@, m.case_insensitive, e),
            stream_alts_compile(old(self).doc.defines.entries@, m.match_list.alternatives@, m.case_insensitive) ==> r is Ok,
            if r matches Ok(Outcome::Returned) { plain_added(final(events)@.drop_last(), old(events)@) } else { plain_added(final(events)@, old(events)@) },
    {
        proof {
            lemma_plain_refl(events@);
        }
        let start = self.pos;
        let (len, scope, names) = match self.eval_match_streaming(m) {
            Err(e) => { return Err(e); },
            Ok(None) => { return Ok(Outcome::NoMatch); },
            Ok(Some(x)) => x,
        };
        if len == 0 {
            return Ok(Outcome::NoMatch);
        }
        let blen = self.buffer.len();
        let bytes = vstd::slice::slice_subrange(self.buffer.as_slice(), self.pos, self.pos + len);
        self.last_match_text = bytes_to_string(bytes);
        self.pos = self.pos + len;
        self.consumed = self.consumed + len;
        self.last_captures = clone_strings(&scope);
        self.last_capture_names = clone_opt_strings(&names);
        if self.fire_actions(&m.actions, scope, names, events) {
            return Ok(Outcome::Returned);
        }
        let ghost em = events@;
        events.push(StreamingEvent::MatchConsumed { pos: start, len });
        proof {
            assert(events@.drop_last() =~= em);
            lemma_plain_pushed(events@, em);
            lemma_plain_trans(events@, em, old(events)@);
        }
        let mut msg = "match consumed ".to_string();
        msg.append(usize_to_string(len).as_str());
        msg.append(" chars");
        self.traces.push(msg);
        Ok(Outcome::Restart)
    }

    /// A `when` statement at the position: when an alternative matches, takes
    /// its captures and fires the actions without consuming.
    fn try_when(&mut self, w: &WhenStatement, events: &mut Vec<StreamingEvent>) -> (r: Result<Outcome, GelError>)
        requires
            old(self).inv(),
        ensures
            final(self).doc.defines == old(self).doc.defines,
            final(self).inv(),
            final(self).spec_pos() >= old(self).spec_pos(),
            final(self).spec_buffer() == old(self).spec_buffer(),
            final(self).spec_eof() == old(self).spec_eof(),
            final(self).doc.grammars == old(self).doc.grammars,
            final(self).statements == old(self).statements,
            r matches Ok(Outcome::NoMatch) ==> final(self).spec_pos() == old(self).spec_pos(),
            r matches Ok(Outcome::Returned) ==> final(events)@.len() > 0,
            r matches Ok(Outcome::Returned) ==> final(events)@.last() == (StreamingEvent::Finished { consumed: final(self).pos }),
            r matches Err(e) ==> e is Runtime,
            r matches Ok(Outcome::NoMatch) <==> r is Ok && stream_alts_at(old(self).doc.defines.entries@, w.match_list.alternatives@, 0, old(self).spec_rest(), false) is None,
            (r is Ok && !(r->Ok_0 is NoMatch)) ==> (stream_alts_at(old(self).doc.defines.entries@, w.match_list.alternatives@, 0, old(self).spec_rest(), false) matches Some(x)
                && texts_view(final(self).last_captures@) == x.1
                && names_view(final(self).last_capture_names@) == x.2),
            r matches Ok(Outcome::Restart) ==> final(events)@.last() == StreamingEvent::WhenFired,
            r matches Err(e) ==> stream_alts_failure(old(self).doc.defines.entries@, w.match_list.alternatives@, false, e),
            stream_alts_compile(old(self).doc.defines.entries@, w.match_list.alternatives@, false) ==> r is Ok,
            if r matches Ok(Outcome::Returned) { plain_added(final(events)@.drop_last(), old(events)@) } else { plain_added(final(events)@, old(events)@) },
    {
        proof {
            lemma_plain_refl(events@);
        }
        let (scope, names) = match self.eval_when_streaming(w) {
            Err(e) => { return Err(e); },
            Ok(None) => { return Ok(Outcome::NoMatch); },
            Ok(Some(x)) => x,
        };
        self.last_match_text = String::new();
        self.last_captures = clone_strings(&scope);
        self.last_capture_names = clone_opt_strings(&names);
        if self.fire_actions(&w.actions, scope, names, events) {
            return Ok(Outcome::Returned);
        }
        let ghost em = events@;
        events.push(StreamingEvent::WhenFired);
        proof {
            assert(events@.drop_last() =~= em);
            lemma_plain_pushed(events@, em);
            lemma_plain_trans(events@, em, old(events)@);
        }
        self.traces.push("when triggered".to_string());
        Ok(Outcome::Restart)
    }

    /// A `skip` statement at the position: moves past what it matches.
    fn try_skip(&mut self, s: &SkipStatement) -> (r: Result<Outcome, GelError>)
        requires
            old(self).inv(),
        ensures
            final(self).doc.defines == old(self).doc.defines,
            final(self).inv(),
            final(self).spec_pos() >= old(self).spec_pos(),
            final(self).spec_buffer() == old(self).spec_buffer(),
            final(self).spec_eof() == old(self).spec_eof(),
            final(self).doc.grammars == old(self).doc.grammars,
            final(self).statements == old(self).statements,
            r matches Ok(Outcome::NoMatch) ==> final(self).spec_pos() == old(self).spec_pos(),
            r matches Ok(Outcome::Restart) ==> final(self).spec_pos() > old(self).spec_pos(),
            !(r matches Ok(Outcome::Returned)),
            r matches Err(e) ==> e is Runtime,
            r matches Ok(Outcome::Restart) <==> (r is Ok && (stream_skip_at(old(self).doc.defines.entries@, s.pattern@, old(self).spec_rest()) matches Some(n) && n > 0)),
            r matches Ok(Outcome::Restart) ==> (stream_skip_at(old(self).doc.defines.entries@, s.pattern@, old(self).spec_rest()) matches Some(n)
                && final(self).spec_pos() == old(self).spec_pos() + n),
            r matches Err(e) ==> (stream_target(old(self).doc.defines.entries@, s.pattern@) matches Some(ExprV::Regex(p)) && regex_failure(e, p, false)),
            stream_compiles(old(self).doc.defines.entries@, s.pattern@, false) ==> r is Ok,
    {
        match self.eval_skip_streaming(s) {
            Err(e) => Err(e),
            Ok(Some(len)) => {
                let blen = self.buffer.len();
                if len > 0 {
                    self.pos = self.pos + len;
                    self.consumed = self.consumed + len;
                    let mut msg = "skip consumed ".to_string();
                    msg.append(usize_to_string(len).as_str());
                    msg.append(" chars");
                    self.traces.push(msg);
                    Ok(Outcome::Restart)
                } else {
                    Ok(Outcome::NoMatch)
                }
            },
            Ok(None) => Ok(Outcome::NoMatch),
        }
    }

    /// An action statement: runs the action alone.
    fn try_action(&mut self, a: &FunctionCall, events: &mut Vec<StreamingEvent>) -> (r: Outcome)
        requires
            old(self).inv(),
        ensures
            final(self).doc.defines == old(self).doc.defines,
            final(self).inv(),
            final(self).spec_pos() >= old(self).spec_pos(),
            final(self).spec_buffer() == old(self).spec_buffer(),
            final(self).spec_eof() == old(self).spec_eof(),
            final(self).doc.grammars == old(self).doc.grammars,
            final(self).statements == old(self).statements,
            r is Returned ==> final(events)@.len() > 0,
            r is NoMatch ==> final(self).spec_pos() == old(self).spec_pos(),
            r is Returned <==> action_control(old(self).doc.defines, a@, texts_view(old(self).last_captures@), names_view(old(self).last_capture_names@)).0 > 0,
            r is Returned ==> final(events)@.last() == (StreamingEvent::Finished { consumed: final(self).pos }),
            r is NoMatch ==> !action_control(old(self).doc.defines, a@, texts_view(old(self).last_captures@), names_view(old(self).last_capture_names@)).1
                && calls_view(final(self).actions@) == calls_view(old(self).actions@).push(stream_call(old(self).doc.defines, a@, seq![], seq![])),
            r is Restart ==> action_control(old(self).doc.defines, a@, texts_view(old(self).last_captures@), names_view(old(self).last_capture_names@)).1
                || final(self).spec_pos() > old(self).spec_pos(),
            opt_text(final(self).error) == match action_control(old(self).doc.defines, a@, texts_view(old(self).last_captures@), names_view(old(self).last_capture_names@)).2 {
                Some(m) => Some(m),
                None => opt_text(old(self).error),
            },
            if r is Returned { plain_added(final(events)@.drop_last(), old(events)@) } else { plain_added(final(events)@, old(events)@) },
    {
        let before = self.pos;
        let no_caps: Vec<String> = Vec::new();
        let no_names: Vec<Option<String>> = Vec::new();
        proof {
            assert(texts_view(no_caps@) =~= Seq::<Seq<char>>::empty());
            assert(names_view(no_names@) =~= Seq::<Option<Seq<char>>>::empty());
        }
        let substituted = self.substitute_action_streaming(a, no_caps.as_slice(), no_names.as_slice());
        let mut one: Vec<FunctionCall> = Vec::new();
        one.push(substituted.copy());
        proof {
            assert(calls_view(one@) =~= seq![substituted@]);
        }
        let (return_levels, did_next, fail_error, auto_leaves) = self.execute_runtime_actions_streaming(&one, events);
        let ghost err0 = self.error;
        let ghost acts0 = self.actions@;
        let mut k: usize = 0;
        while k < auto_leaves
            invariant
                self.error == err0,
                self.actions@ == acts0,
                self.doc == old(self).doc,
                acts0 == old(self).actions@,
                self.inv(),
                self.spec_pos() >= old(self).spec_pos(),
                self.spec_buffer() == old(self).spec_buffer(),
                self.spec_eof() == old(self).spec_eof(),
                self.doc.grammars == old(self).doc.grammars,
                self.statements == old(self).statements,
                plain_added(events@, old(events)@),
            decreases auto_leaves - k,
        {
            let ghost ek = events@;
            self.fire_triggers_streaming(3, events);
            let ghost ek2 = events@;
            self.tree.leave();
            events.push(StreamingEvent::Leave);
            proof {
                assert(events@.drop_last() =~= ek2);
                lemma_plain_pushed(events@, ek2);
                lemma_plain_trans(events@, ek2, ek);
                lemma_plain_trans(events@, ek, old(events)@);
            }
            k = k + 1;
        }
        match fail_error {
            Some(e) => { self.error = Some(e); },
            None => {},
        }
        if return_levels > 0 {
            let ghost ef = events@;
            events.push(StreamingEvent::Finished { consumed: self.consumed });
            proof {
                assert(events@.drop_last() =~= ef);
            }
            return Outcome::Returned;
        }
        if did_next || self.pos > before {
            return Outcome::Restart;
        }
        let ghost prev = self.actions@;
        self.actions.push(substituted);
        proof {
            assert(calls_view(self.actions@) =~= calls_view(prev).push(substituted@));
        }
        let mut msg = "action ".to_string();
        msg.append(a.name.as_str());
        msg.append(" invoked");
        self.traces.push(msg);
        Outcome::NoMatch
    }

    /// Pushes the event for a run that cannot go on now: `Finished` at the end
    /// of the input, else `Stalled`.
    fn push_wait_event(&self, events: &mut Vec<StreamingEvent>)
        requires
            self.inv(),
        ensures
            final(events)@ == old(events)@.push(self.wait_event()),
    {
        if self.eof {
            events.push(StreamingEvent::Finished { consumed: self.consumed });
        } else {
            events.push(StreamingEvent::Stalled { pos: self.pos, remaining: self.buffer.len() - self.pos });
        }
    }

    /// Runs the grammar over the input at hand until it waits for more input,
    /// ends, or returns; the events of the run, the last one `Finished` or
    /// `Stalled`.  A pass that fires only statements that consume nothing
    /// ends the step as a pass where nothing matched does (such a pass would
    /// fire the same way forever).
    pub fn step(&mut self) -> (r: Result<Vec<StreamingEvent>, GelError>)
        requires
            old(self).inv(),
        ensures
            final(self).inv(),
            final(self).spec_pos() >= old(self).spec_pos(),
            final(self).spec_buffer() == old(self).spec_buffer(),
            final(self).spec_eof() == old(self).spec_eof(),
            r matches Ok(ev) ==> ev@.len() > 0,
            r matches Err(e) ==> e is Runtime,
            final(self).spec_pos() <= final(self).spec_buffer().len(),
            r matches Ok(ev) ==> ev@.last() == (StreamingEvent::Finished { consumed: final(self).spec_pos() as usize })
                || (!final(self).spec_eof() && ev@.last() == (StreamingEvent::Stalled {
                pos: final(self).spec_pos() as usize,
                remaining: (final(self).spec_buffer().len() - final(self).spec_pos()) as usize,
            })),
            final(self).spec_eof() ==> (r matches Ok(ev) ==> ev@.last() is Finished),
            old(self).spec_regexes_compile() ==> r is Ok,
            r is Ok ==> final(self).spec_pos() >= old(self).spec_pos() + old(self).spec_first_advance(),
            r matches Ok(ev) ==> forall|k: int| 0 <= k < ev@.len() - 1 ==> !is_wait(#[trigger] ev@[k]),
    {
        let mut events: Vec<StreamingEvent> = Vec::new();
        let ghost fa = old(self).spec_first_advance();
        let ghost mut first_done = false;
        let ghost e0 = Seq::<StreamingEvent>::empty();
        proof {
            assert(events@ =~= e0);
            lemma_plain_refl(e0);
        }
        loop
            invariant_except_break
                plain_added(events@, e0),
            invariant
                e0 == Seq::<StreamingEvent>::empty(),
                fa == old(self).spec_first_advance(),
                !first_done ==> self.spec_pos() == old(self).spec_pos() && self.buffer == old(self).buffer && self.pos == old(self).pos,
                first_done ==> self.spec_pos() >= old(self).spec_pos() + fa,
                self.inv(),
                self.spec_pos() >= old(self).spec_pos(),
                self.spec_buffer() == old(self).spec_buffer(),
                self.spec_eof() == old(self).spec_eof(),
                self.doc.defines == old(self).doc.defines,
                self.doc.grammars == old(self).doc.grammars,
                self.statements == old(self).statements,
            ensures
                self.inv(),
                self.spec_pos() >= old(self).spec_pos(),
                self.spec_buffer() == old(self).spec_buffer(),
                self.spec_eof() == old(self).spec_eof(),
                events@.len() > 0,
                events@.last() == self.wait_event(),
                plain_added(events@.drop_last(), e0),
                self.spec_pos() >= old(self).spec_pos() + fa,
            decreases self.buffer@.len() - self.pos,
        {
            let start = self.pos;
            if self.pos >= self.buffer.len() {
                let ghost ew = events@;
                self.push_wait_event(&mut events);
                proof {
                    assert(events@.drop_last() =~= ew);
                }
                break;
            }
            let mut progressed = false;
            let mut k: usize = 0;
            while k < self.statements.len()
                invariant
                    plain_added(events@, e0),
                    e0 == Seq::<StreamingEvent>::empty(),
                    self.inv(),
                    self.spec_pos() >= start,
                    start >= old(self).spec_pos(),
                    self.spec_buffer() == old(self).spec_buffer(),
                    self.spec_eof() == old(self).spec_eof(),
                    !progressed ==> self.spec_pos() == start,
                    k <= self.statements@.len(),
                    self.doc.defines == old(self).doc.defines,
                    self.doc.grammars == old(self).doc.grammars,
                    self.statements == old(self).statements,
                    fa == old(self).spec_first_advance(),
                    !first_done ==> k == 0 && self.spec_pos() == old(self).spec_pos() && self.buffer == old(self).buffer && self.pos == old(self).pos && start == old(self).pos,
                    first_done ==> self.spec_pos() >= old(self).spec_pos() + fa,
                    self.spec_pos() < self.spec_buffer().len() || first_done,
                ensures
                    !first_done ==> self.statements@.len() == 0,
                decreases self.statements@.len() - k,
            {
                let (g, s) = self.statements[k];
                let stmt = copy_statement(&self.doc.grammars.entries[g].1.statements[s]);
                proof {
                    if old(self).spec_regexes_compile() {
                        assert(view_compiles(self.doc.defines.entries@, stmt_view(stmt)));
                        if stmt is Match {
                            assert(stmt_view(stmt) == StmtV::Match(alts_view(stmt->Match_0.match_list.alternatives@), calls_view(stmt->Match_0.actions@), stmt->Match_0.case_insensitive));
                            lemma_alts_compile(self.doc.defines.entries@, stmt->Match_0.match_list.alternatives@, stmt->Match_0.case_insensitive, stmt_view(stmt));
                        }
                        if stmt is When {
                            assert(stmt_view(stmt) == StmtV::When(alts_view(stmt->When_0.match_list.alternatives@), calls_view(stmt->When_0.actions@)));
                            lemma_alts_compile(self.doc.defines.entries@, stmt->When_0.match_list.alternatives@, false, stmt_view(stmt));
                        }
                    }
                }
                let ghost was_first = !first_done;
                let ghost adv: int = match &stmt {
                    Statement::Match(m) => match stream_alts_at(
                        self.doc.defines.entries@,
                        m.match_list.alternatives@,
                        0,
                        self.spec_rest(),
                        m.case_insensitive,
                    ) {
                        Some(x) => x.0,
                        None => 0,
                    },
                    Statement::Skip(sk) => match stream_skip_at(self.doc.defines.entries@, sk.pattern@, self.spec_rest()) {
                        Some(n) => n,
                        None => 0,
                    },
                    _ => 0,
                };
                proof {
                    if !first_done {
                        let gs = self.statements@[0];
                        let orig = self.doc.grammars.entries@[gs.0 as int].1.statements@[gs.1 as int];
                        assert(self.spec_rest() == old(self).spec_rest());
                        assert(stmt_view(stmt) == stmt_view(orig));
                        if stmt is Match {
                            assert(orig is Match);
                            lemma_stream_alts_view(
                                self.doc.defines.entries@,
                                stmt->Match_0.match_list.alternatives@,
                                orig->Match_0.match_list.alternatives@,
                                0,
                                old(self).spec_rest(),
                                stmt->Match_0.case_insensitive,
                            );
                        } else if stmt is Skip {
                            assert(orig is Skip);
                        } else {
                            assert(!(orig is Match) && !(orig is Skip));
                        }
                        assert(adv == fa);
                    }
                }
                let ghost ev_pre = events@;
                let outcome = match &stmt {
                    Statement::Match(m) => self.try_match(m, &mut events),
                    Statement::When(w) => self.try_when(w, &mut events),
                    Statement::Skip(sk) => self.try_skip(sk),
                    Statement::Action(a) => Ok(self.try_action(a, &mut events)),
                };
                proof {
                    if was_first && outcome is Ok {
                        assert(self.spec_pos() >= old(self).spec_pos() + adv);
                    }
                    first_done = true;
                }
                proof {
                    lemma_plain_refl(ev_pre);
                    if outcome matches Ok(Outcome::Returned) {
                        lemma_plain_trans(events@.drop_last(), ev_pre, e0);
                    } else if outcome is Ok {
                        lemma_plain_trans(events@, ev_pre, e0);
                    }
                }
                match outcome {
                    Err(e) => { return Err(e); },
                    Ok(Outcome::Returned) => {
                        proof {
                            assert forall|j: int| 0 <= j < events@.len() - 1 implies !is_wait(#[trigger] events@[j]) by {
                                assert(events@.drop_last()[j] == events@[j]);
                            }
                        }
                        return Ok(events);
                    },
                    Ok(Outcome::Restart) => {
                        progressed = true;
                        break;
                    },
                    Ok(Outcome::NoMatch) => {
                        if self.pos > start {
                            progressed = true;
                            break;
                        }
                    },
                }
                k = k + 1;
            }
            proof {
                if !first_done {
                    assert(self.statements@.len() == 0);
                    assert(fa == 0);
                }
            }
            if !progressed || self.pos == start {
                if self.eof {
                    let mut msg = "no match found in grammar ".to_string();
                    msg.append(self.grammar_name.as_str());
                    msg.append(", pos ");
                    msg.append(usize_to_string(self.pos).as_str());
                    self.traces.push(msg);
                }
                let ghost ew = events@;
                self.push_wait_event(&mut events);
                proof {
                    assert(events@.drop_last() =~= ew);
                }
                break;
            }
        }
        proof {
            assert forall|j: int| 0 <= j < events@.len() - 1 implies !is_wait(#[trigger] events@[j]) by {
                assert(events@.drop_last()[j] == events@[j]);
            }
        }
        Ok(events)
    }

    /// Ends the input, runs what is left and returns the run as an execution
    /// result (its tree not yet flattened).
    pub fn finish(self) -> (r: Result<ExecutionResult, GelError>)
        requires
            self.inv(),
        ensures
            r matches Ok(res) ==> res.output.wf() && res.consumed >= self.spec_pos() && res.consumed
                <= self.spec_buffer().len() && res.flat is None,
            r matches Ok(res) ==> res.consumed >= self.spec_pos() + self.spec_first_advance(),
            r matches Err(e) ==> e is Runtime,
    {
        let mut me = self;
        me.eof = true;
        proof {
            assert(me.spec_first_advance() == self.spec_first_advance());
        }
        match me.step() {
            Err(e) => { return Err(e); },
            Ok(_) => {},
        }
        Ok(
            ExecutionResult {
                consumed: me.consumed,
                actions: me.actions,
                traces: me.traces,
                diagnostics: me.diagnostics,
                capture_history: me.capture_history,
                capture_names_history: me.capture_names_history,
                output: me.tree,
                flat: None,
                error: me.error,
            },
        )
    }
}

/// A copy of a list of strings.
fn clone_strings(v: &Vec<String>) -> (r: Vec<String>)
    ensures
        texts_view(r@) == texts_view(v@),
{
    let mut out: Vec<String> = Vec::new();
    let mut i: usize = 0;
    while i < v.len()
        invariant
            i <= v@.len(),
            texts_view(out@) =~= texts_view(v@).subrange(0, i as int),
        decreases v@.len() - i,
    {
        let t = v[i].clone();
        let ghost prev = out@;
        out.push(t);
        proof {
            assert(texts_view(out@) =~= texts_view(prev).push(t@));
        }
        i = i + 1;
    }
    proof {
        assert(texts_view(v@).subrange(0, v@.len() as int) =~= texts_view(v@));
    }
    out
}

/// A copy of a list of optional strings.
fn clone_opt_strings(v: &Vec<Option<String>>) -> (r: Vec<Option<String>>)
    ensures
        names_view(r@) == names_view(v@),
{
    let mut out: Vec<Option<String>> = Vec::new();
    let mut i: usize = 0;
    while i < v.len()
        invariant
            i <= v@.len(),
            names_view(out@) =~= names_view(v@).subrange(0, i as int),
        decreases v@.len() - i,
    {
        let t = match &v[i] {
            Some(s) => Some(s.clone()),
            None => None,
        };
        let ghost prev = out@;
        out.push(t);
        proof {
            assert(names_view(out@) =~= names_view(prev).push(opt_text(t)));
        }
        i = i + 1;
    }
    proof {
        assert(names_view(v@).subrange(0, v@.len() as int) =~= names_view(v@));
    }
    out
}

} // verus!
