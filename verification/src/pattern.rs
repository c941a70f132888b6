//! Compiled regular expressions, from the `regex` crate.
//!
//! What a regular expression matches takes pages to state; the functions here
//! give those results names (`regex_compiles`, `regex_captures_of`, ...), which
//! depend on the pattern text and the haystack alone.  The library matches
//! against the UTF-8 bytes of its input, through `regex::bytes::Regex`.

use vstd::prelude::*;

verus! {

#[verifier::external_type_specification]
#[verifier::external_body]
pub struct ExBytesRegex(regex::bytes::Regex);

/// Whether `regex::bytes::Regex::new` accepts the pattern.
pub uninterp spec fn regex_compiles(pattern: Seq<char>) -> bool;

/// The `Display` text of the error `regex::bytes::Regex::new` reports for the pattern.
pub uninterp spec fn regex_error_text(pattern: Seq<char>) -> Seq<char>;

/// `Regex::captures` on `text`: `None` when the pattern does not match anywhere,
/// else the byte range of each capture group (group 0 is the whole match), `None`
/// for a group that did not take part in the match.
pub uninterp spec fn regex_captures_of(pattern: Seq<char>, text: Seq<u8>) -> Option<
    Seq<Option<(usize, usize)>>,
>;

/// `Regex::captures_len`: the number of capture groups, group 0 included.
pub uninterp spec fn regex_group_count(pattern: Seq<char>) -> nat;

/// `Regex::capture_names`: the name of each capture group, if it has one.
pub uninterp spec fn regex_group_names(pattern: Seq<char>) -> Seq<Option<Seq<char>>>;

/// The characters a pattern must escape to match them literally:
/// `\ . + * ? ( ) | [ ] { } ^ $ # & - ~`.
pub open spec fn is_meta_char(c: char) -> bool {
    c == '\\' || c == '.' || c == '+' || c == '*' || c == '?' || c == '(' || c == ')' || c == '|' || c == '['
        || c == ']' || c == '{' || c == '}' || c == '^' || c == '$' || c == '#' || c == '&' || c == '-' || c == '~'
}

/// The pattern that matches the text literally, as `regex::escape` writes
/// it: a backslash before each meta character.
pub open spec fn regex_escaped(text: Seq<char>) -> Seq<char>
    decreases text.len(),
{
    if text.len() == 0 {
        Seq::empty()
    } else {
        let c = text.last();
        regex_escaped(text.drop_last()) + if is_meta_char(c) {
            seq!['\\', c]
        } else {
            seq![c]
        }
    }
}

/// A regular expression together with the pattern text it was compiled from.
#[derive(Debug)]
pub struct CompiledRegex {
    source: String,
    rx: regex::bytes::Regex,
}

impl View for CompiledRegex {
    type V = Seq<char>;

    closed spec fn view(&self) -> Seq<char> {
        self.source@
    }
}

/// `regex::bytes::Regex::new`: compiles the pattern, or reports why it cannot.
#[verifier::external_body]
pub(crate) fn compile_regex(pattern: &str) -> (r: Result<CompiledRegex, String>)
    ensures
        r is Ok <==> regex_compiles(pattern@),
        r matches Ok(c) ==> c@ == pattern@,
        r matches Err(e) ==> e@ == regex_error_text(pattern@),
{
    match regex::bytes::Regex::new(pattern) {
        Ok(rx) => Ok(CompiledRegex { source: pattern.to_string(), rx }),
        Err(e) => Err(e.to_string()),
    }
}

/// `Regex::clone`: the same compiled expression.
#[verifier::external_body]
pub(crate) fn clone_regex(rx: &CompiledRegex) -> (r: CompiledRegex)
    ensures
        r@ == rx@,
{
    CompiledRegex { source: rx.source.clone(), rx: rx.rx.clone() }
}

/// `Regex::captures` on `text`, each group as a byte range.
#[verifier::external_body]
pub(crate) fn regex_captures(rx: &CompiledRegex, text: &[u8]) -> (r: Option<Vec<Option<(usize, usize)>>>)
    ensures
        r is Some <==> regex_captures_of(rx@, text@) is Some,
        r matches Some(groups) ==> {
            &&& groups@ == regex_captures_of(rx@, text@)->0
            &&& groups@.len() == regex_group_count(rx@)
            &&& groups@.len() >= 1
            &&& groups@[0] is Some
            &&& forall|i: int|
                0 <= i < groups@.len() ==> (#[trigger] groups@[i] matches Some(g) ==> g.0 <= g.1
                    <= text@.len())
        },
{
    rx.rx.captures(text).map(|c| c.iter().map(|g| g.map(|m| (m.start(), m.end()))).collect())
}

/// `Regex::captures_len`.
#[verifier::external_body]
pub(crate) fn regex_captures_len(rx: &CompiledRegex) -> (r: usize)
    ensures
        r == regex_group_count(rx@),
        r >= 1,
{
    rx.rx.captures_len()
}

/// `Regex::capture_names`, collected.
#[verifier::external_body]
pub(crate) fn regex_capture_names(rx: &CompiledRegex) -> (r: Vec<Option<String>>)
    ensures
        r@.len() == regex_group_count(rx@),
        forall|i: int|
            0 <= i < r@.len() ==> (#[trigger] r@[i] is Some <==> regex_group_names(rx@)[i] is Some),
        forall|i: int|
            0 <= i < r@.len() ==> (#[trigger] r@[i] matches Some(n) ==> n@ == regex_group_names(
                rx@,
            )[i]->0),
{
    rx.rx.capture_names().map(|n| n.map(|s| s.to_string())).collect()
}

/// `regex::escape`.
#[verifier::external_body]
pub(crate) fn escape_literal(text: &str) -> (r: String)
    ensures
        r@ == regex_escaped(text@),
{
    regex::escape(text)
}

} // verus!
