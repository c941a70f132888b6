//! What the runner's matchers match at the start of the remaining input: an
//! expression, a field list, the alternatives of a statement, a `skip`
//! pattern.  Each gives the number of bytes matched and what was captured.

use vstd::prelude::*;
use crate::bytes::{bytes_prefix, bytes_prefix_nocase};
use crate::exec::skip::fast_skip_spec;
use crate::parser::ast::{exprs_view, CallV, ExprV, FastPathKind, GelDocument, MatchFieldList};
use crate::parser::compile::{chain_fuel, resolve_var};
use crate::parser::syntax::{all_digits, parse_int_spec};
use crate::exec::out::pct_encode_bytes;
use crate::pattern::{regex_captures_of, regex_group_count, regex_group_names};
use crate::text::{decimal_int, utf8_lossy};

verus! {

/// How many bytes of the remaining input a regular expression is matched against.
pub const REGEX_WINDOW: usize = 1000;

/// A captured group: its text and its name.
pub type GroupV = (Seq<char>, Option<Seq<char>>);

/// The text of an optional string.
pub open spec fn opt_text(o: Option<String>) -> Option<Seq<char>> {
    match o {
        Some(s) => Some(s@),
        None => None,
    }
}

/// The texts of a list of strings.
pub open spec fn texts_view(v: Seq<String>) -> Seq<Seq<char>> {
    v.map_values(|s: String| s@)
}

/// The texts of a list of optional strings.
pub open spec fn names_view(v: Seq<Option<String>>) -> Seq<Option<Seq<char>>> {
    v.map_values(|o: Option<String>| opt_text(o))
}

/// A list of groups by their texts and names.
pub open spec fn groups_view(g: Seq<(String, Option<String>)>) -> Seq<GroupV> {
    g.map_values(|p: (String, Option<String>)| (p.0@, opt_text(p.1)))
}

/// A matcher's answer by its views: bytes matched and groups.
pub open spec fn found_groups(res: Option<(usize, Vec<(String, Option<String>)>)>) -> Option<(int, Seq<GroupV>)> {
    match res {
        Some(x) => Some((x.0 as int, groups_view(x.1@))),
        None => None,
    }
}

/// A field-list matcher's answer by its views: bytes matched, group texts and names.
pub open spec fn found_caps(res: Option<(usize, Vec<String>, Vec<Option<String>>)>) -> Option<
    (int, Seq<Seq<char>>, Seq<Option<Seq<char>>>),
> {
    match res {
        Some(x) => Some((x.0 as int, texts_view(x.1@), names_view(x.2@))),
        None => None,
    }
}

/// The first [`REGEX_WINDOW`] bytes of `rem` (all of it when shorter).
pub open spec fn window_of(rem: Seq<u8>) -> Seq<u8> {
    rem.subrange(0, if rem.len() < REGEX_WINDOW { rem.len() as int } else { REGEX_WINDOW as int })
}

/// The text of a group's byte range in `w`; empty for a group that took no part.
pub open spec fn range_text(w: Seq<u8>, g: Option<(usize, usize)>) -> Seq<char> {
    match g {
        Some(r) => utf8_lossy(w.subrange(r.0 as int, r.1 as int)),
        None => seq![],
    }
}

/// Where the whole match of a regex search ends, when it starts at the
/// beginning of the text searched.
pub open spec fn whole_match(gs: Seq<Option<(usize, usize)>>) -> Option<int> {
    if gs.len() > 0 {
        match gs[0] {
            Some(g0) => if g0.0 == 0 {
                Some(g0.1 as int)
            } else {
                None
            },
            None => None,
        }
    } else {
        None
    }
}

/// Whether `rem` starts with the bytes `b` (ASCII letters without case for `ci`).
pub open spec fn prefix_at(b: Seq<u8>, rem: Seq<u8>, ci: bool) -> bool {
    if ci {
        bytes_prefix_nocase(rem, b)
    } else {
        bytes_prefix(rem, b)
    }
}

/// A text at the start of `rem`: its UTF-8 length, the text as the one group.
pub open spec fn text_at(val: Seq<char>, rem: Seq<u8>, ci: bool) -> Option<(int, Seq<GroupV>)> {
    let b = vstd::utf8::encode_utf8(val);
    if prefix_at(b, rem, ci) {
        Some((b.len() as int, seq![(val, None)]))
    } else {
        None
    }
}

/// A regex literal at the start of `rem`: the pattern is looked up among the
/// document's patterns, its compiled form (the case-insensitive one for `ci`)
/// searched in the window, and the match must start at 0.  Group 0 is the
/// matched text; the inner groups follow with their names when the regex has any.
pub open spec fn regex_at(doc: GelDocument, r: Seq<char>, rem: Seq<u8>, ci: bool) -> Option<(int, Seq<GroupV>)> {
    match doc.pattern_indices.spec_get(r) {
        Some(idx) => if idx < doc.regex_cache@.len() / 2 {
            match doc.regex_cache@[if ci { 2 * idx + 1 } else { 2 * idx }] {
                Some(rx) => {
                    let w = window_of(rem);
                    match regex_captures_of(rx@, w) {
                        Some(gs) => match whole_match(gs) {
                            Some(end) => {
                                let first: GroupV = (utf8_lossy(w.subrange(0, end)), None);
                                let inner: Seq<GroupV> = if regex_group_count(rx@) > 1 {
                                    Seq::new(
                                        (gs.len() - 1) as nat,
                                        |k: int| (range_text(w, gs[k + 1]), regex_group_names(rx@)[k + 1]),
                                    )
                                } else {
                                    seq![]
                                };
                                Some((end, seq![first] + inner))
                            },
                            None => None,
                        },
                        None => None,
                    }
                },
                None => None,
            }
        } else {
            None
        },
        None => None,
    }
}

/// The first index from `i` on of a group named `name`.
pub open spec fn first_named(names: Seq<Option<Seq<char>>>, name: Seq<char>, i: int) -> Option<int>
    decreases names.len() - i,
{
    if i < 0 || i >= names.len() {
        None
    } else if names[i] == Some(name) {
        Some(i)
    } else {
        first_named(names, name, i + 1)
    }
}

/// An expression other than a variable at the start of `rem`, given the groups
/// captured before it: a literal or a number by its text, a capture reference by
/// the text captured.
pub open spec fn base_at(
    doc: GelDocument,
    e: ExprV,
    rem: Seq<u8>,
    ci: bool,
    caps: Seq<Seq<char>>,
    names: Seq<Option<Seq<char>>>,
) -> Option<(int, Seq<GroupV>)> {
    match e {
        ExprV::Regex(r) => regex_at(doc, r, rem, ci),
        ExprV::String(s) => text_at(s, rem, ci),
        ExprV::Number(n) => text_at(decimal_int(n as int), rem, false),
        ExprV::Capture(idx) => if idx < caps.len() {
            text_at(caps[idx as int], rem, ci)
        } else {
            None
        },
        ExprV::CaptureName(name) => match first_named(names, name, 0) {
            Some(i) => if i < caps.len() {
                text_at(caps[i], rem, ci)
            } else {
                None
            },
            None => None,
        },
        ExprV::Variable(_) => None,
    }
}

/// An expression at the start of `rem`; a variable stands for what its
/// definition resolves to.
pub open spec fn expr_at_input(
    doc: GelDocument,
    e: ExprV,
    rem: Seq<u8>,
    ci: bool,
    caps: Seq<Seq<char>>,
    names: Seq<Option<Seq<char>>>,
) -> Option<(int, Seq<GroupV>)> {
    match e {
        ExprV::Variable(v) => match resolve_var(doc.defines.entries@, v, chain_fuel(doc.defines.entries@)) {
            Some(r) => base_at(doc, r, rem, ci, caps, names),
            None => None,
        },
        _ => base_at(doc, e, rem, ci, caps, names),
    }
}

/// Expressions `es[k..]` matched one after the other from byte `offset` of
/// `rem`, each seeing the groups captured before it: the end offset and the
/// texts and names of all the groups.
pub open spec fn seq_at(
    doc: GelDocument,
    es: Seq<ExprV>,
    k: int,
    rem: Seq<u8>,
    ci: bool,
    offset: int,
    caps: Seq<Seq<char>>,
    names: Seq<Option<Seq<char>>>,
) -> Option<(int, Seq<Seq<char>>, Seq<Option<Seq<char>>>)>
    decreases es.len() - k,
{
    if 0 <= k < es.len() {
        match expr_at_input(doc, es[k], rem.subrange(offset, rem.len() as int), ci, caps, names) {
            Some(m) => seq_at(
                doc,
                es,
                k + 1,
                rem,
                ci,
                offset + m.0,
                caps + m.1.map_values(|g: GroupV| g.0),
                names + m.1.map_values(|g: GroupV| g.1),
            ),
            None => None,
        }
    } else {
        Some((offset, caps, names))
    }
}

/// A field list at the start of `rem`: refused when the input does not start
/// with its literal prefix; else its combined regex when it has one (groups
/// without names, group 0 alone when there is no inner group), else its
/// expressions one after the other.
pub open spec fn field_list_at(doc: GelDocument, fl: MatchFieldList, rem: Seq<u8>, ci: bool) -> Option<
    (int, Seq<Seq<char>>, Seq<Option<Seq<char>>>),
> {
    let prefix_ok = match fl.literal_prefix {
        Some(p) => prefix_at(vstd::utf8::encode_utf8(p@), rem, ci),
        None => true,
    };
    if !prefix_ok {
        None
    } else {
        match fl.compiled_regex {
            Some(rx) => {
                let w = window_of(rem);
                match regex_captures_of(rx@, w) {
                    Some(gs) => match whole_match(gs) {
                        Some(end) => {
                            let caps: Seq<Seq<char>> = if gs.len() > 1 {
                                Seq::new((gs.len() - 1) as nat, |k: int| range_text(w, gs[k + 1]))
                            } else {
                                seq![utf8_lossy(w.subrange(0, end))]
                            };
                            Some((end, caps, Seq::new(caps.len(), |k: int| None::<Seq<char>>)))
                        },
                        None => None,
                    },
                    None => None,
                }
            },
            None => seq_at(doc, exprs_view(fl.expressions@), 0, rem, ci, 0, seq![], seq![]),
        }
    }
}

/// The first of the alternatives `alts[i..]` that matches at the start of `rem`.
pub open spec fn alts_at(doc: GelDocument, alts: Seq<MatchFieldList>, i: int, rem: Seq<u8>, ci: bool) -> Option<
    (int, Seq<Seq<char>>, Seq<Option<Seq<char>>>),
>
    decreases alts.len() - i,
{
    if 0 <= i < alts.len() {
        match field_list_at(doc, alts[i], rem, ci) {
            Some(m) => Some(m),
            None => alts_at(doc, alts, i + 1, rem, ci),
        }
    } else {
        None
    }
}

/// The raw pattern a `skip` expression stands for, when it is a regex literal
/// or a variable that resolves to one.
pub open spec fn skip_pattern(doc: GelDocument, e: ExprV) -> Option<Seq<char>> {
    match e {
        ExprV::Regex(r) => Some(r),
        ExprV::Variable(v) => match resolve_var(doc.defines.entries@, v, chain_fuel(doc.defines.entries@)) {
            Some(ExprV::Regex(r)) => Some(r),
            _ => None,
        },
        _ => None,
    }
}

/// The fast-path kind the document recorded for a raw pattern.
pub open spec fn kind_of_pattern(doc: GelDocument, p: Seq<char>) -> FastPathKind {
    match doc.pattern_indices.spec_get(p) {
        Some(idx) => if idx < doc.fast_path_kinds@.len() {
            doc.fast_path_kinds@[idx as int]
        } else {
            FastPathKind::Unclassified
        },
        None => FastPathKind::Unclassified,
    }
}

/// How far a `skip` pattern reaches at the start of `rem`: by the byte scan of
/// its fast-path kind when that scan answers, else by matching the expression.
pub open spec fn skip_at(doc: GelDocument, e: ExprV, rem: Seq<u8>) -> Option<int> {
    let plain = match expr_at_input(doc, e, rem, false, seq![], seq![]) {
        Some(m) => Some(m.0),
        None => None,
    };
    match skip_pattern(doc, e) {
        Some(p) => match fast_skip_spec(kind_of_pattern(doc, p), rem) {
            Some(n) => Some(n),
            None => plain,
        },
        None => plain,
    }
}

/// Whether a character may continue a `$name` / `$N` reference.
pub open spec fn is_ref_char(c: char) -> bool {
    ('0' <= c <= '9') || ('a' <= c <= 'z') || ('A' <= c <= 'Z') || c == '_'
}

/// The capture a reference names: `N` (all digits) by its number, else the
/// first group with that name; nothing when there is no such capture.
pub open spec fn capture_ref(token: Seq<char>, caps: Seq<Seq<char>>, names: Seq<Option<Seq<char>>>) -> Option<Seq<char>> {
    if all_digits(token) {
        match parse_int_spec(token, 0, usize::MAX as int, false) {
            Some(idx) => if idx < caps.len() {
                Some(caps[idx])
            } else {
                None
            },
            None => None,
        }
    } else {
        match first_named(names, token, 0) {
            Some(i) => if i < caps.len() {
                Some(caps[i])
            } else {
                None
            },
            None => None,
        }
    }
}

/// Where a reference that starts at `j` ends.
pub open spec fn ref_end(c: Seq<char>, j: int) -> int
    decreases c.len() - j,
{
    if 0 <= j < c.len() && is_ref_char(c[j]) {
        ref_end(c, j + 1)
    } else {
        j
    }
}

pub proof fn lemma_ref_end(c: Seq<char>, j: int)
    requires
        0 <= j,
    ensures
        j <= ref_end(c, j),
        j <= c.len() ==> ref_end(c, j) <= c.len(),
    decreases c.len() - j,
{
    if 0 <= j < c.len() && is_ref_char(c[j]) {
        lemma_ref_end(c, j + 1);
    }
}

/// `c[i..]` with references replaced: `\$` is a `$`; `$` and a reference
/// is the capture it names (percent-encoded when `encode`; nothing when there
/// is no such capture); a `$` that starts no reference stays.
pub open spec fn interpolated(
    c: Seq<char>,
    i: int,
    caps: Seq<Seq<char>>,
    names: Seq<Option<Seq<char>>>,
    encode: bool,
) -> Seq<char>
    decreases c.len() - i,
{
    if i < 0 || i >= c.len() {
        seq![]
    } else if c[i] == '\\' && i + 1 < c.len() && c[i + 1] == '$' {
        seq!['$'] + interpolated(c, i + 2, caps, names, encode)
    } else if c[i] == '$' {
        let j = ref_end(c, i + 1);
        let piece: Seq<char> = if j == i + 1 {
            seq!['$']
        } else {
            match capture_ref(c.subrange(i + 1, j), caps, names) {
                Some(v) => if encode {
                    pct_encode_bytes(vstd::utf8::encode_utf8(v))
                } else {
                    v
                },
                None => seq![],
            }
        };
        proof {
            lemma_ref_end(c, i + 1);
        }
        piece + interpolated(c, j, caps, names, encode)
    } else {
        seq![c[i]] + interpolated(c, i + 1, caps, names, encode)
    }
}

/// A captured text as an action argument takes it: percent-encoded.
pub open spec fn encoded(v: Seq<char>) -> Seq<char> {
    pct_encode_bytes(vstd::utf8::encode_utf8(v))
}

/// An action argument with a capture reference replaced by the captured text
/// (percent-encoded; empty when there is no such capture).
pub open spec fn substituted_arg(e: ExprV, scope: Seq<Seq<char>>, names: Seq<Option<Seq<char>>>) -> ExprV {
    match e {
        ExprV::Capture(k) => ExprV::String(if k < scope.len() {
            encoded(scope[k as int])
        } else {
            seq![]
        }),
        ExprV::CaptureName(n) => ExprV::String(match first_named(names, n, 0) {
            Some(k) => if k < scope.len() {
                encoded(scope[k])
            } else {
                seq![]
            },
            None => seq![],
        }),
        _ => e,
    }
}

/// A call with its capture arguments replaced (see [`substituted_arg`]).
pub open spec fn substituted_call(c: CallV, scope: Seq<Seq<char>>, names: Seq<Option<Seq<char>>>) -> CallV {
    (c.0, c.1.map_values(|e: ExprV| substituted_arg(e, scope, names)))
}

/// The text a literal stands for as an action argument, given the last
/// captures: a string with its references interpolated (when it holds a `$`),
/// a number in decimal, a regex as `/pattern/`; anything else is empty.
pub open spec fn literal_text(e: ExprV, caps: Seq<Seq<char>>, names: Seq<Option<Seq<char>>>) -> Seq<char> {
    match e {
        ExprV::String(s) => if s.contains('$') {
            interpolated(s, 0, caps, names, true)
        } else {
            s
        },
        ExprV::Number(n) => decimal_int(n as int),
        ExprV::Regex(r) => seq!['/'] + r + seq!['/'],
        _ => seq![],
    }
}

/// The text an expression stands for as an action argument: a variable as
/// what its definition resolves to (empty when it resolves to nothing), any
/// other expression as a literal (see [`literal_text`]).
pub open spec fn expr_text(doc: GelDocument, e: ExprV, caps: Seq<Seq<char>>, names: Seq<Option<Seq<char>>>) -> Seq<char> {
    match e {
        ExprV::Variable(v) => match resolve_var(doc.defines.entries@, v, chain_fuel(doc.defines.entries@)) {
            Some(r) => literal_text(r, caps, names),
            None => seq![],
        },
        _ => literal_text(e, caps, names),
    }
}

} // verus!
