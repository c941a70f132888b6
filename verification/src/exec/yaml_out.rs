//! YAML text: PyYAML-style quoting of keys and values, the plain scalars of
//! the diagnostic envelope, and the recognizers they rest on (Rust's float
//! syntax, `YYYY-MM-DD` dates).

use vstd::prelude::*;
use crate::exec::out::{FlatNode, FlatTree, flat_node_wf, group_end, has_text, node_attrs, node_has_text, node_text, run_end, lemma_run_end_bounds};
use crate::exec::runner::ExecutionResult;
use crate::parser::ast::{Expression, FunctionCall};
use crate::text::{char_is_whitespace, decimal, decimal_int, i64_to_decimal, push_all, push_str, str_eq, str_to_chars, unicode_whitespace, usize_to_decimal};

verus! {

// ---------------------------------------------------------------------------
// Character-level helpers
// ---------------------------------------------------------------------------

/// `s` with every `c` replaced by `r`.
pub open spec fn replace_all_char(s: Seq<char>, c: char, r: Seq<char>) -> Seq<char>
    decreases s.len(),
{
    if s.len() == 0 {
        Seq::empty()
    } else {
        replace_all_char(s.drop_last(), c, r) + (if s.last() == c {
            r
        } else {
            seq![s.last()]
        })
    }
}

/// Appends `s` to `out`, every `c` replaced by `r`.
pub fn push_replacing(out: &mut Vec<char>, s: &[char], c: char, r: &[char])
    ensures
        final(out)@ == old(out)@ + replace_all_char(s@, c, r@),
{
    let ghost start = out@;
    let mut i: usize = 0;
    while i < s.len()
        invariant
            i <= s@.len(),
            out@ == start + replace_all_char(s@.subrange(0, i as int), c, r@),
        decreases s@.len() - i,
    {
        if s[i] == c {
            push_all(out, r);
        } else {
            out.push(s[i]);
        }
        proof {
            assert(s@.subrange(0, i + 1).drop_last() =~= s@.subrange(0, i as int));
        }
        i = i + 1;
        proof {
            assert(out@ =~= start + replace_all_char(s@.subrange(0, i as int), c, r@));
        }
    }
    proof {
        assert(s@.subrange(0, s@.len() as int) =~= s@);
    }
}

/// Whether `c` occurs in `s`.
pub fn contains_char(s: &[char], c: char) -> (r: bool)
    ensures
        r == s@.contains(c),
{
    let mut i: usize = 0;
    while i < s.len()
        invariant
            i <= s@.len(),
            forall|k: int| 0 <= k < i ==> s@[k] != c,
        decreases s@.len() - i,
    {
        if s[i] == c {
            return true;
        }
        i = i + 1;
    }
    false
}

// ---------------------------------------------------------------------------
// Plain scalars of the envelope
// ---------------------------------------------------------------------------

/// Characters that make an envelope scalar need double quotes.
pub open spec fn yaml_special(c: char) -> bool {
    unicode_whitespace(c) || c == ':' || c == '-' || c == '#' || c == ',' || c == '[' || c == ']' || c == '{'
        || c == '}'
}

/// An envelope scalar: as it is, or double-quoted with `"` escaped as `\"`
/// when it holds whitespace or one of `: - # , [ ] { }`.
pub open spec fn yaml_scalar_spec(s: Seq<char>) -> Seq<char> {
    if exists|i: int| 0 <= i < s.len() && #[trigger] yaml_special(s[i]) {
        seq!['"'] + replace_all_char(s, '"', seq!['\\', '"']) + seq!['"']
    } else {
        s
    }
}

/// Appends the envelope scalar of `s` (see [`yaml_scalar_spec`]).
pub fn push_yaml_scalar(out: &mut Vec<char>, s: &str)
    ensures
        final(out)@ == old(out)@ + yaml_scalar_spec(s@),
{
    let v = str_to_chars(s);
    let mut special = false;
    let mut i: usize = 0;
    while i < v.len()
        invariant
            i <= v@.len(),
            v@ == s@,
            special <==> exists|k: int| 0 <= k < i && #[trigger] yaml_special(v@[k]),
        decreases v@.len() - i,
    {
        let c = v[i];
        let ws = char_is_whitespace(c);
        if ws || c == ':' || c == '-' || c == '#' || c == ',' || c == '[' || c == ']' || c == '{' || c == '}' {
            special = true;
        }
        proof {
            if special {
                if yaml_special(c) {
                    assert(yaml_special(v@[i as int]));
                }
            } else {
                assert forall|k: int| 0 <= k < i + 1 implies !#[trigger] yaml_special(v@[k]) by {
                    if k == i {
                        assert(v@[k] == c);
                    }
                }
            }
        }
        i = i + 1;
    }
    if special {
        out.push('"');
        let esc = ['\\', '"'];
        push_replacing(out, v.as_slice(), '"', esc.as_slice());
        out.push('"');
        proof {
            assert(esc@ =~= seq!['\\', '"']);
        }
    } else {
        push_all(out, v.as_slice());
    }
}

// ---------------------------------------------------------------------------
// Rust's float syntax
// ---------------------------------------------------------------------------

/// An ASCII decimal digit.
pub open spec fn is_digit_char(c: char) -> bool {
    '0' <= c && c <= '9'
}

/// ASCII lower case of a character (other characters unchanged).
pub open spec fn ascii_lower_char(c: char) -> char {
    if 'A' <= c && c <= 'Z' {
        ((c as u32) + 32) as char
    } else {
        c
    }
}

/// Number of consecutive digits of `s` from index `i`.
pub open spec fn digit_run(s: Seq<char>, i: int) -> int
    decreases s.len() - i,
{
    if 0 <= i < s.len() && is_digit_char(s[i]) {
        1 + digit_run(s, i + 1)
    } else {
        0
    }
}

/// `s[i..]` is empty or an exponent `e`/`E`, an optional sign, one digit or
/// more.
pub open spec fn exponent_ok(s: Seq<char>, i: int) -> bool {
    i == s.len() || (0 <= i < s.len() && (s[i] == 'e' || s[i] == 'E') && {
        let j = if i + 1 < s.len() && (s[i + 1] == '+' || s[i + 1] == '-') {
            i + 2
        } else {
            i + 1
        };
        digit_run(s, j) >= 1 && j + digit_run(s, j) == s.len()
    })
}

/// `s[i..]` is a decimal number: `Digit+`, `Digit+ '.' Digit*` or
/// `Digit* '.' Digit+`, then an optional exponent.
pub open spec fn number_ok(s: Seq<char>, i: int) -> bool {
    let a = digit_run(s, i);
    let p = i + a;
    if 0 <= p < s.len() && s[p] == '.' {
        let b = digit_run(s, p + 1);
        a + b >= 1 && exponent_ok(s, p + 1 + b)
    } else {
        a >= 1 && exponent_ok(s, p)
    }
}

/// `s[i..]` is the word `w`, ASCII letters compared without case.
pub open spec fn word_at(s: Seq<char>, i: int, w: Seq<char>) -> bool {
    &&& 0 <= i <= s.len()
    &&& s.len() - i == w.len()
    &&& forall|k: int| 0 <= k < w.len() ==> ascii_lower_char(#[trigger] s[i + k]) == w[k]
}

/// What `str::parse::<f64>` accepts: an optional sign, then `inf`,
/// `infinity`, `nan` (any case) or a decimal number.
pub open spec fn looks_like_number_spec(s: Seq<char>) -> bool {
    let i: int = if s.len() > 0 && (s[0] == '+' || s[0] == '-') {
        1
    } else {
        0
    };
    ||| word_at(s, i, seq!['i', 'n', 'f'])
    ||| word_at(s, i, seq!['i', 'n', 'f', 'i', 'n', 'i', 't', 'y'])
    ||| word_at(s, i, seq!['n', 'a', 'n'])
    ||| number_ok(s, i)
}

proof fn lemma_digit_run_bounds(s: Seq<char>, i: int)
    ensures
        digit_run(s, i) >= 0,
        0 <= i <= s.len() ==> i + digit_run(s, i) <= s.len(),
        forall|k: int| i <= k < i + digit_run(s, i) ==> is_digit_char(#[trigger] s[k]),
        0 <= i + digit_run(s, i) < s.len() && 0 <= i ==> !is_digit_char(s[i + digit_run(s, i)]),
    decreases s.len() - i,
{
    if 0 <= i < s.len() && is_digit_char(s[i]) {
        lemma_digit_run_bounds(s, i + 1);
    }
}

/// The number of digits of `v` from index `i`.
fn digit_run_at(v: &[char], i: usize) -> (n: usize)
    requires
        i <= v@.len(),
    ensures
        n == digit_run(v@, i as int),
        i + n <= v@.len(),
{
    let mut j = i;
    while j < v.len() && '0' <= v[j] && v[j] <= '9'
        invariant
            i <= j <= v@.len(),
            digit_run(v@, i as int) == (j - i) + digit_run(v@, j as int),
        decreases v@.len() - j,
    {
        j = j + 1;
    }
    proof {
        lemma_digit_run_bounds(v@, i as int);
    }
    j - i
}

fn exponent_ok_at(v: &[char], i: usize) -> (r: bool)
    requires
        i <= v@.len(),
    ensures
        r == exponent_ok(v@, i as int),
{
    if i == v.len() {
        return true;
    }
    if v[i] != 'e' && v[i] != 'E' {
        return false;
    }
    let j = if i + 1 < v.len() && (v[i + 1] == '+' || v[i + 1] == '-') {
        i + 2
    } else {
        i + 1
    };
    let d = digit_run_at(v, j);
    d >= 1 && j + d == v.len()
}

fn number_ok_at(v: &[char], i: usize) -> (r: bool)
    requires
        i <= v@.len(),
    ensures
        r == number_ok(v@, i as int),
{
    let len = v.len();
    let a = digit_run_at(v, i);
    let p = i + a;
    if p < v.len() && v[p] == '.' {
        let b = digit_run_at(v, p + 1);
        a + b >= 1 && exponent_ok_at(v, p + 1 + b)
    } else {
        a >= 1 && exponent_ok_at(v, p)
    }
}

fn lower_char(c: char) -> (r: char)
    ensures
        r == ascii_lower_char(c),
{
    if 'A' <= c && c <= 'Z' {
        (((c as u32) + 32) as u8) as char
    } else {
        c
    }
}

fn word_at_exec(v: &[char], i: usize, w: &[char]) -> (r: bool)
    requires
        i <= v@.len(),
    ensures
        r == word_at(v@, i as int, w@),
{
    let len = v.len();
    if len - i != w.len() {
        return false;
    }
    let mut k: usize = 0;
    while k < w.len()
        invariant
            k <= w@.len(),
            i <= v@.len(),
            len == v@.len(),
            v@.len() - i == w@.len(),
            forall|m: int| 0 <= m < k ==> ascii_lower_char(#[trigger] v@[i + m]) == w@[m],
        decreases w@.len() - k,
    {
        if lower_char(v[i + k]) != w[k] {
            return false;
        }
        k = k + 1;
    }
    true
}

/// Whether `s` reads as a float (see [`looks_like_number_spec`]).
pub fn looks_like_number(s: &[char]) -> (r: bool)
    ensures
        r == looks_like_number_spec(s@),
{
    let i: usize = if s.len() > 0 && (s[0] == '+' || s[0] == '-') {
        1
    } else {
        0
    };
    let inf = ['i', 'n', 'f'];
    let infinity = ['i', 'n', 'f', 'i', 'n', 'i', 't', 'y'];
    let nan = ['n', 'a', 'n'];
    proof {
        assert(inf@ =~= seq!['i', 'n', 'f']);
        assert(infinity@ =~= seq!['i', 'n', 'f', 'i', 'n', 'i', 't', 'y']);
        assert(nan@ =~= seq!['n', 'a', 'n']);
    }
    word_at_exec(s, i, inf.as_slice()) || word_at_exec(s, i, infinity.as_slice()) || word_at_exec(
        s,
        i,
        nan.as_slice(),
    ) || number_ok_at(s, i)
}

/// A `YYYY-MM-DD` date: ten characters, dashes at 4 and 7, digits elsewhere.
pub open spec fn looks_like_date_spec(s: Seq<char>) -> bool {
    &&& s.len() == 10
    &&& s[4] == '-'
    &&& s[7] == '-'
    &&& forall|k: int| 0 <= k < 10 && k != 4 && k != 7 ==> is_digit_char(#[trigger] s[k])
}

/// Whether `s` reads as a date (see [`looks_like_date_spec`]).
pub fn looks_like_date(s: &[char]) -> (r: bool)
    ensures
        r == looks_like_date_spec(s@),
{
    if s.len() != 10 || s[4] != '-' || s[7] != '-' {
        return false;
    }
    let mut k: usize = 0;
    while k < 10
        invariant
            k <= 10,
            s@.len() == 10,
            forall|m: int| 0 <= m < k && m != 4 && m != 7 ==> is_digit_char(#[trigger] s@[m]),
        decreases 10 - k,
    {
        if k != 4 && k != 7 && !('0' <= s[k] && s[k] <= '9') {
            return false;
        }
        k = k + 1;
    }
    true
}

// ---------------------------------------------------------------------------
// PyYAML-style quoting of the data tree
// ---------------------------------------------------------------------------

/// A mapping key: single-quoted when it starts with `@` or `#`.
pub open spec fn yaml_quote_key_spec(k: Seq<char>) -> Seq<char> {
    if k.len() > 0 && (k[0] == '@' || k[0] == '#') {
        seq!['\''] + k + seq!['\'']
    } else {
        k
    }
}

/// Appends the quoted key (see [`yaml_quote_key_spec`]).
pub fn push_yaml_key(out: &mut Vec<char>, k: &str)
    ensures
        final(out)@ == old(out)@ + yaml_quote_key_spec(k@),
{
    let v = str_to_chars(k);
    let q = v.len() > 0 && (v[0] == '@' || v[0] == '#');
    if q {
        out.push('\'');
    }
    push_all(out, v.as_slice());
    if q {
        out.push('\'');
    }
    proof {
        if !q {
            assert(old(out)@ + k@ =~= out@);
        }
    }
}

/// The words YAML reads as booleans or null.
pub open spec fn is_yaml_keyword(s: Seq<char>) -> bool {
    ||| s == "true"@ || s == "false"@ || s == "yes"@ || s == "no"@ || s == "null"@
    ||| s == "True"@ || s == "False"@ || s == "Yes"@ || s == "No"@ || s == "Null"@
    ||| s == "TRUE"@ || s == "FALSE"@ || s == "YES"@ || s == "NO"@ || s == "NULL"@
    ||| s == "on"@ || s == "off"@ || s == "On"@ || s == "Off"@ || s == "ON"@ || s == "OFF"@
}

fn yaml_keyword(s: &str) -> (r: bool)
    ensures
        r == is_yaml_keyword(s@),
{
    str_eq(s, "true") || str_eq(s, "false") || str_eq(s, "yes") || str_eq(s, "no") || str_eq(s, "null")
        || str_eq(s, "True") || str_eq(s, "False") || str_eq(s, "Yes") || str_eq(s, "No") || str_eq(s, "Null")
        || str_eq(s, "TRUE") || str_eq(s, "FALSE") || str_eq(s, "YES") || str_eq(s, "NO") || str_eq(s, "NULL")
        || str_eq(s, "on") || str_eq(s, "off") || str_eq(s, "On") || str_eq(s, "Off") || str_eq(s, "ON")
        || str_eq(s, "OFF")
}

/// Whether a value must be quoted: it holds `: # ' "` or a line break, starts
/// or ends with a space, starts with one of `{ [ * & ! % | > @`, or reads as a
/// number, a date, a boolean or null.
pub open spec fn yaml_needs_quoting(s: Seq<char>) -> bool {
    ||| s.contains(':') || s.contains('#') || s.contains('\'') || s.contains('"')
    ||| s.contains('\n') || s.contains('\r')
    ||| s.len() > 0 && (s[0] == ' ' || s.last() == ' ')
    ||| s.len() > 0 && (s[0] == '{' || s[0] == '[' || s[0] == '*' || s[0] == '&' || s[0] == '!'
        || s[0] == '%' || s[0] == '|' || s[0] == '>' || s[0] == '@')
    ||| looks_like_number_spec(s)
    ||| looks_like_date_spec(s)
    ||| is_yaml_keyword(s)
}

/// A scalar value: `''` when empty; as it is when it needs no quoting; else
/// single-quoted, or double-quoted when it holds `'` but no `"`, or
/// single-quoted with `'` doubled when it holds both.
pub open spec fn yaml_quote_value_spec(s: Seq<char>) -> Seq<char> {
    if s.len() == 0 {
        seq!['\'', '\'']
    } else if !yaml_needs_quoting(s) {
        s
    } else if !s.contains('\'') {
        seq!['\''] + s + seq!['\'']
    } else if !s.contains('"') {
        seq!['"'] + s + seq!['"']
    } else {
        seq!['\''] + replace_all_char(s, '\'', seq!['\'', '\'']) + seq!['\'']
    }
}

/// A value shaped like a `YYYY-MM-DD` date (ten characters, `-` at 4 and 7,
/// ASCII digits elsewhere) is written single-quoted, so that a YAML reader
/// keeps it a string rather than loading a date.
pub proof fn lemma_date_value_single_quoted(s: Seq<char>)
    requires
        s.len() == 10,
        s[4] == '-',
        s[7] == '-',
        forall|k: int| 0 <= k < 10 && k != 4 && k != 7 ==> '0' <= #[trigger] s[k] && s[k] <= '9',
    ensures
        yaml_quote_value_spec(s) == seq!['\''] + s + seq!['\''],
{
    assert(looks_like_date_spec(s));
    assert(!s.contains('\'')) by {
        assert forall|i: int| 0 <= i < s.len() implies s[i] != '\'' by {
            if i != 4 && i != 7 {
                assert('0' <= s[i] && s[i] <= '9');
            }
        }
    }
    assert(yaml_needs_quoting(s));
}

/// A value that a YAML reader would load as something other than a string (a
/// number, a date, a boolean or null) is written in quotes, so it is read back
/// as a string.
pub proof fn lemma_non_string_scalar_quoted(s: Seq<char>)
    requires
        looks_like_number_spec(s) || looks_like_date_spec(s) || is_yaml_keyword(s),
    ensures
        ({
            let w = yaml_quote_value_spec(s);
            &&& w.len() >= 2
            &&& w[0] == '\'' || w[0] == '"'
            &&& w[w.len() - 1] == w[0]
        }),
{
    assert(yaml_needs_quoting(s));
    let w = yaml_quote_value_spec(s);
    if s.len() > 0 {
        if !s.contains('\'') {
            assert(w[0] == '\'' && w[w.len() - 1] == '\'');
        } else if !s.contains('"') {
            assert(w[0] == '"' && w[w.len() - 1] == '"');
        } else {
            let body = replace_all_char(s, '\'', seq!['\'', '\'']);
            assert(w == seq!['\''] + body + seq!['\'']);
            assert(w[0] == '\'' && w[w.len() - 1] == '\'');
        }
    }
}

/// Appends the quoted value (see [`yaml_quote_value_spec`]).
pub fn push_yaml_value(out: &mut Vec<char>, s: &str)
    ensures
        final(out)@ == old(out)@ + yaml_quote_value_spec(s@),
        ({
            let t = s@;
            &&& t.len() == 10
            &&& t[4] == '-'
            &&& t[7] == '-'
            &&& forall|k: int| 0 <= k < 10 && k != 4 && k != 7 ==> '0' <= #[trigger] t[k] && t[k] <= '9'
        }) ==> final(out)@ == old(out)@ + (seq!['\''] + s@ + seq!['\'']),
{
    proof {
        let t = s@;
        if t.len() == 10 && t[4] == '-' && t[7] == '-' && forall|k: int|
            0 <= k < 10 && k != 4 && k != 7 ==> '0' <= #[trigger] t[k] && t[k] <= '9' {
            lemma_date_value_single_quoted(t);
        }
    }
    let v = str_to_chars(s);
    let n = v.len();
    if n == 0 {
        out.push('\'');
        out.push('\'');
        return;
    }
    let has_sq = contains_char(v.as_slice(), '\'');
    let has_dq = contains_char(v.as_slice(), '"');
    let needs = contains_char(v.as_slice(), ':') || contains_char(v.as_slice(), '#') || has_sq || has_dq
        || contains_char(v.as_slice(), '\n') || contains_char(v.as_slice(), '\r') || v[0] == ' ' || v[n - 1]
        == ' ' || v[0] == '{' || v[0] == '[' || v[0] == '*' || v[0] == '&' || v[0] == '!' || v[0] == '%' || v[0]
        == '|' || v[0] == '>' || v[0] == '@' || looks_like_number(v.as_slice()) || looks_like_date(v.as_slice())
        || yaml_keyword(s);
    proof {
        assert(v@.last() == v@[n - 1]);
    }
    if !needs {
        push_all(out, v.as_slice());
    } else if !has_sq {
        out.push('\'');
        push_all(out, v.as_slice());
        out.push('\'');
    } else if !has_dq {
        out.push('"');
        push_all(out, v.as_slice());
        out.push('"');
    } else {
        out.push('\'');
        let dbl = ['\'', '\''];
        push_replacing(out, v.as_slice(), '\'', dbl.as_slice());
        out.push('\'');
        proof {
            assert(dbl@ =~= seq!['\'', '\'']);
        }
    }
}

} // verus!

verus! {

// ---------------------------------------------------------------------------
// The data tree, PyYAML style
// ---------------------------------------------------------------------------

/// `n` spaces.
pub open spec fn spaces(n: nat) -> Seq<char> {
    Seq::new(n, |i: int| ' ')
}

/// The indentation before a mapping entry: two spaces a level, none for the
/// first entry of a mapping that opens on a `- ` line.
pub open spec fn yaml_lead(skip: bool, indent: usize) -> Seq<char> {
    if skip {
        Seq::empty()
    } else {
        spaces((2 * indent) as nat)
    }
}

/// `i + k`, saturating at `usize::MAX`.
pub open spec fn sat_add(i: usize, k: usize) -> usize {
    if i + k > usize::MAX {
        usize::MAX
    } else {
        (i + k) as usize
    }
}

/// The attribute entries `'@key': value`, one a line.
pub open spec fn yaml_attr_lines(a: Seq<(String, String)>, indent: usize, inline: bool) -> Seq<char>
    decreases a.len(),
{
    if a.len() == 0 {
        Seq::empty()
    } else {
        yaml_attr_lines(a.drop_last(), indent, inline) + yaml_lead(inline && a.len() == 1, indent) + seq![
            '\'',
            '@',
        ] + a.last().0@ + seq!['\'', ':', ' '] + yaml_quote_value_spec(a.last().1@) + seq!['\n']
    }
}

/// The text entry `'#text': value`, when the node has a text.
pub open spec fn yaml_text_line(n: FlatNode, indent: usize, skip: bool) -> Seq<char> {
    if node_has_text(n) {
        yaml_lead(skip, indent) + seq!['\'', '#', 't', 'e', 'x', 't', '\'', ':', ' '] + yaml_quote_value_spec(
            node_text(n),
        ) + seq!['\n']
    } else {
        Seq::empty()
    }
}

/// Node `idx` as a YAML mapping: its attributes, its text, then each run of
/// same-named children under its name (a single child as a nested mapping,
/// a longer run as a list); `{}` for a node with none of these.
pub open spec fn yaml_node(t: FlatTree, idx: int, indent: usize, inline: bool) -> Seq<char>
    decreases t.nodes@.len() - idx, 2int,
{
    if 0 <= idx < t.nodes@.len() {
        let n = t.nodes@[idx];
        let a = node_attrs(t, n);
        if a.len() == 0 && !node_has_text(n) && n.children_len == 0 {
            seq!['{', '}']
        } else {
            let cs = n.children_start as int;
            let ce = cs + n.children_len;
            yaml_attr_lines(a, indent, inline) + yaml_text_line(n, indent, inline && a.len() == 0) + (if n.children_len
                > 0 && idx < cs && ce <= t.nodes@.len() {
                yaml_groups(t, cs, ce, indent, inline && a.len() == 0 && !node_has_text(n))
            } else {
                Seq::empty()
            })
        }
    } else {
        Seq::empty()
    }
}

/// The runs of same-named nodes `g .. ce`, each under its (quoted) name.
pub open spec fn yaml_groups(t: FlatTree, g: int, ce: int, indent: usize, skip: bool) -> Seq<char>
    decreases t.nodes@.len() - g + 1, 1int,
{
    if 0 <= g < ce <= t.nodes@.len() {
        let e = run_end(t.nodes@, g, g + 1, ce);
        if g < e <= ce {
            yaml_lead(skip, indent) + yaml_quote_key_spec(t.nodes@[g].name@) + seq![':', '\n'] + (if e - g == 1 {
                yaml_node(t, g, sat_add(indent, 1), false)
            } else {
                yaml_items(t, g, e, indent)
            }) + yaml_groups(t, e, ce, indent, false)
        } else {
            Seq::empty()
        }
    } else {
        Seq::empty()
    }
}

/// The nodes `k .. e` as list items `- mapping`.
pub open spec fn yaml_items(t: FlatTree, k: int, e: int, indent: usize) -> Seq<char>
    decreases t.nodes@.len() - k + 1, 0int,
{
    if 0 <= k < e <= t.nodes@.len() {
        spaces((2 * indent) as nat) + seq!['-', ' '] + yaml_node(t, k, sat_add(indent, 2), true) + yaml_items(
            t,
            k + 1,
            e,
            indent,
        )
    } else {
        Seq::empty()
    }
}

/// Appends [`yaml_lead`].
fn push_yaml_lead(out: &mut Vec<char>, skip: bool, indent: usize)
    ensures
        final(out)@ == old(out)@ + yaml_lead(skip, indent),
{
    if skip {
        assert(old(out)@ + yaml_lead(skip, indent) =~= old(out)@);
        return;
    }
    let ghost start = out@;
    let mut k: usize = 0;
    while k < indent
        invariant
            k <= indent,
            out@ == start + spaces((2 * k) as nat),
        decreases indent - k,
    {
        out.push(' ');
        out.push(' ');
        k = k + 1;
        assert(out@ =~= start + spaces((2 * k) as nat));
    }
}

/// Appends [`yaml_attr_lines`].
fn push_yaml_attr_lines(out: &mut Vec<char>, attrs: &[(String, String)], indent: usize, inline: bool)
    ensures
        final(out)@ == old(out)@ + yaml_attr_lines(attrs@, indent, inline),
{
    let ghost start = out@;
    let mut a: usize = 0;
    while a < attrs.len()
        invariant
            a <= attrs@.len(),
            out@ == start + yaml_attr_lines(attrs@.subrange(0, a as int), indent, inline),
        decreases attrs@.len() - a,
    {
        let ghost before = out@;
        push_yaml_lead(out, inline && a == 0, indent);
        out.push('\'');
        out.push('@');
        push_str(out, attrs[a].0.as_str());
        out.push('\'');
        out.push(':');
        out.push(' ');
        push_yaml_value(out, attrs[a].1.as_str());
        out.push('\n');
        proof {
            let sub = attrs@.subrange(0, a + 1);
            assert(sub.drop_last() =~= attrs@.subrange(0, a as int));
            assert(sub.last() == attrs@[a as int]);
            assert(out@ =~= before + yaml_lead(inline && sub.len() == 1, indent) + seq!['\'', '@'] + sub.last().0@
                + seq!['\'', ':', ' '] + yaml_quote_value_spec(sub.last().1@) + seq!['\n']);
        }
        a = a + 1;
    }
    proof {
        assert(attrs@.subrange(0, attrs@.len() as int) =~= attrs@);
    }
}

/// Appends [`yaml_text_line`].
fn push_yaml_text_line(out: &mut Vec<char>, node: &FlatNode, indent: usize, skip: bool)
    ensures
        final(out)@ == old(out)@ + yaml_text_line(*node, indent, skip),
{
    if has_text(node) {
        push_yaml_lead(out, skip, indent);
        out.push('\'');
        out.push('#');
        out.push('t');
        out.push('e');
        out.push('x');
        out.push('t');
        out.push('\'');
        out.push(':');
        out.push(' ');
        match &node.text {
            Some(t) => push_yaml_value(out, t.as_str()),
            None => {},
        }
        out.push('\n');
        assert(out@ =~= old(out)@ + yaml_text_line(*node, indent, skip));
    } else {
        assert(out@ =~= old(out)@ + yaml_text_line(*node, indent, skip));
    }
}

/// Appends [`yaml_items`].
fn push_yaml_items(flat: &FlatTree, g: usize, e: usize, out: &mut Vec<char>, indent: usize)
    requires
        flat.wf(),
        g < e <= flat.nodes@.len(),
    ensures
        final(out)@ == old(out)@ + yaml_items(*flat, g as int, e as int, indent),
    decreases flat.nodes@.len() - g + 1, 0int,
{
    let ghost head = out@;
    let mut k = g;
    while k < e
        invariant
            flat.wf(),
            g <= k <= e <= flat.nodes@.len(),
            head + yaml_items(*flat, g as int, e as int, indent) == out@ + yaml_items(*flat, k as int, e as int, indent),
        decreases e - k,
    {
        let ghost b2 = out@;
        push_yaml_lead(out, false, indent);
        out.push('-');
        out.push(' ');
        tree_yaml_node(flat, k, out, indent.saturating_add(2), true);
        proof {
            let it = yaml_items(*flat, k as int, e as int, indent);
            let nd = yaml_node(*flat, k as int, sat_add(indent, 2), true);
            assert(it == spaces((2 * indent) as nat) + seq!['-', ' '] + nd + yaml_items(*flat, k + 1, e as int, indent));
            assert(out@ =~= b2 + spaces((2 * indent) as nat) + seq!['-', ' '] + nd);
            assert(b2 + it =~= out@ + yaml_items(*flat, k + 1, e as int, indent));
        }
        k = k + 1;
    }
    proof {
        assert(out@ + yaml_items(*flat, e as int, e as int, indent) =~= out@);
    }
}

/// Appends [`yaml_groups`].
fn push_yaml_groups(flat: &FlatTree, cs: usize, ce: usize, out: &mut Vec<char>, indent: usize, skip0: bool)
    requires
        flat.wf(),
        cs < ce <= flat.nodes@.len(),
    ensures
        final(out)@ == old(out)@ + yaml_groups(*flat, cs as int, ce as int, indent, skip0),
    decreases flat.nodes@.len() - cs + 1, 1int,
{
    let ghost start = out@;
    let mut skip = skip0;
    let mut g = cs;
    while g < ce
        invariant
            flat.wf(),
            cs <= g <= ce <= flat.nodes@.len(),
            start + yaml_groups(*flat, cs as int, ce as int, indent, skip0) == out@ + yaml_groups(
                *flat,
                g as int,
                ce as int,
                indent,
                skip,
            ),
        decreases ce - g,
    {
        let ghost before = out@;
        let e = group_end(flat, g, ce);
        push_yaml_lead(out, skip, indent);
        push_yaml_key(out, flat.nodes[g].name.as_str());
        out.push(':');
        out.push('\n');
        let ghost head = out@;
        if e - g == 1 {
            tree_yaml_node(flat, g, out, indent.saturating_add(1), false);
        } else {
            push_yaml_items(flat, g, e, out, indent);
        }
        proof {
            let body = if e - g == 1 {
                yaml_node(*flat, g as int, sat_add(indent, 1), false)
            } else {
                yaml_items(*flat, g as int, e as int, indent)
            };
            assert(out@ =~= head + body);
            let gs = yaml_groups(*flat, g as int, ce as int, indent, skip);
            assert(gs == yaml_lead(skip, indent) + yaml_quote_key_spec(flat.nodes@[g as int].name@) + seq![':', '\n']
                + body + yaml_groups(*flat, e as int, ce as int, indent, false));
            assert(before + gs =~= out@ + yaml_groups(*flat, e as int, ce as int, indent, false));
        }
        skip = false;
        g = e;
    }
    proof {
        assert(out@ + yaml_groups(*flat, ce as int, ce as int, indent, skip) =~= out@);
    }
}

/// Appends the YAML mapping of node `idx` (see [`yaml_node`]).
#[verifier::rlimit(50)]
#[verifier::spinoff_prover]
fn tree_yaml_node(flat: &FlatTree, idx: usize, out: &mut Vec<char>, indent: usize, inline: bool)
    requires
        flat.wf(),
        idx < flat.nodes@.len(),
    ensures
        final(out)@ == old(out)@ + yaml_node(*flat, idx as int, indent, inline),
    decreases flat.nodes@.len() - idx, 2int,
{
    let node = &flat.nodes[idx];
    proof {
        assert(flat_node_wf(flat.nodes@[idx as int], idx as int, flat.nodes@.len() as int, flat.attrs@.len() as int));
    }
    let attrs = flat.attrs_of(node);
    let text = has_text(node);
    if attrs.len() == 0 && !text && node.children_len == 0 {
        out.push('{');
        out.push('}');
        return;
    }
    let ghost start = out@;
    push_yaml_attr_lines(out, attrs, indent, inline);
    push_yaml_text_line(out, node, indent, inline && attrs.len() == 0);
    let ghost after_text = out@;
    if node.children_len > 0 {
        let cs = node.children_start as usize;
        let ce = cs + node.children_len as usize;
        push_yaml_groups(flat, cs, ce, out, indent, inline && attrs.len() == 0 && !text);
    }
    proof {
        if node.children_len == 0 {
            assert(out@ =~= after_text);
        }
        assert(out@ =~= start + yaml_attr_lines(attrs@, indent, inline) + yaml_text_line(*node, indent, inline
            && attrs@.len() == 0) + (if node.children_len > 0 && idx < node.children_start && node.children_start
            + node.children_len <= flat.nodes@.len() {
            yaml_groups(
                *flat,
                node.children_start as int,
                node.children_start + node.children_len,
                indent,
                inline && attrs@.len() == 0 && !node_has_text(*node),
            )
        } else {
            Seq::empty()
        }));
    }
}

/// The data tree as PyYAML writes it: the root's mapping and a final line
/// break.
pub open spec fn tree_yaml_spec(t: FlatTree) -> Seq<char> {
    yaml_node(t, 0, 0, false) + seq!['\n']
}

/// The data tree as YAML (see [`tree_yaml_spec`]).
pub fn tree_yaml(flat: &FlatTree) -> (r: String)
    requires
        flat.wf(),
    ensures
        r@ == tree_yaml_spec(*flat),
{
    let mut out: Vec<char> = Vec::new();
    tree_yaml_node(flat, 0, &mut out, 0, false);
    out.push('\n');
    crate::text::chars_to_string(out.as_slice())
}

} // verus!

verus! {

// ---------------------------------------------------------------------------
// The diagnostic envelope
// ---------------------------------------------------------------------------

/// An action argument in the envelope: text as a scalar, numbers as they are,
/// captures as `"$name"`.
pub open spec fn yaml_arg(e: Expression) -> Seq<char> {
    match e {
        Expression::String(s) => yaml_scalar_spec(s@),
        Expression::Regex(r) => yaml_scalar_spec(r@),
        Expression::Number(n) => decimal_int(n as int),
        Expression::Variable(v) => yaml_scalar_spec(v@),
        Expression::Capture(i) => "\"$"@ + decimal(i as nat) + "\""@,
        Expression::CaptureName(n) => "\"$"@ + n@ + "\""@,
    }
}

/// The argument lines `- arg` of an action.
pub open spec fn yaml_args(a: Seq<Expression>) -> Seq<char>
    decreases a.len(),
{
    if a.len() == 0 {
        Seq::empty()
    } else {
        yaml_args(a.drop_last()) + "        - "@ + yaml_arg(a.last()) + "\n"@
    }
}

/// One action: `- name: ...`, then its arguments as a list when it has any.
pub open spec fn yaml_action(f: FunctionCall) -> Seq<char> {
    "    - name: "@ + yaml_scalar_spec(f.name@) + (if f.args@.len() == 0 {
        "\n"@
    } else {
        "\n      args:\n"@ + yaml_args(f.args@)
    })
}

/// The actions, one after the other.
pub open spec fn yaml_actions(a: Seq<FunctionCall>) -> Seq<char>
    decreases a.len(),
{
    if a.len() == 0 {
        Seq::empty()
    } else {
        yaml_actions(a.drop_last()) + yaml_action(a.last())
    }
}

/// The trace lines `- trace`.
pub open spec fn yaml_traces(t: Seq<String>) -> Seq<char>
    decreases t.len(),
{
    if t.len() == 0 {
        Seq::empty()
    } else {
        yaml_traces(t.drop_last()) + "    - "@ + yaml_scalar_spec(t.last()@) + "\n"@
    }
}

/// Scalars joined by `, `.
pub open spec fn yaml_join(v: Seq<Seq<char>>) -> Seq<char>
    decreases v.len(),
{
    if v.len() == 0 {
        Seq::empty()
    } else if v.len() == 1 {
        yaml_scalar_spec(v[0])
    } else {
        yaml_join(v.drop_last()) + ", "@ + yaml_scalar_spec(v.last())
    }
}

/// The texts of a list of strings.
pub open spec fn strings_view(v: Seq<String>) -> Seq<Seq<char>> {
    Seq::new(v.len(), |j: int| v[j]@)
}

/// The texts of a list of optional strings, a missing one empty.
pub open spec fn opt_strings_view(v: Seq<Option<String>>) -> Seq<Seq<char>> {
    Seq::new(
        v.len(),
        |j: int|
            match v[j] {
                Some(s) => s@,
                None => Seq::empty(),
            },
    )
}

/// The capture scopes as flow lists `- [a, b]`.
pub open spec fn yaml_history(h: Seq<Vec<String>>) -> Seq<char>
    decreases h.len(),
{
    if h.len() == 0 {
        Seq::empty()
    } else {
        yaml_history(h.drop_last()) + "    - ["@ + yaml_join(strings_view(h.last()@)) + "]\n"@
    }
}

/// The capture-name scopes as flow lists, a missing name empty.
pub open spec fn yaml_names_history(h: Seq<Vec<Option<String>>>) -> Seq<char>
    decreases h.len(),
{
    if h.len() == 0 {
        Seq::empty()
    } else {
        yaml_names_history(h.drop_last()) + "    - ["@ + yaml_join(opt_strings_view(h.last()@)) + "]\n"@
    }
}

/// A list section: `[]` when empty.
pub open spec fn yaml_section(n: nat, items: Seq<char>) -> Seq<char> {
    if n == 0 {
        "    []\n"@
    } else {
        items
    }
}

/// The `attribute: key: value` lines of a node in the envelope.
pub open spec fn yaml_env_attrs(a: Seq<(String, String)>, indent: usize) -> Seq<char>
    decreases a.len(),
{
    if a.len() == 0 {
        Seq::empty()
    } else {
        yaml_env_attrs(a.drop_last(), indent) + spaces((2 * indent) as nat) + "  attribute: "@ + yaml_scalar_spec(
            a.last().0@,
        ) + ": "@ + yaml_scalar_spec(a.last().1@) + "\n"@
    }
}

/// The `text:` line of a node in the envelope, present even for an empty text.
pub open spec fn yaml_env_text(n: FlatNode, indent: usize) -> Seq<char> {
    match n.text {
        Some(x) => spaces((2 * indent) as nat) + "  text: "@ + yaml_scalar_spec(x@) + "\n"@,
        None => Seq::empty(),
    }
}

/// Node `idx` in the envelope: `- name:`, one `attribute:` line a pair, its
/// text, then `children:` and each child two levels deeper.
pub open spec fn yaml_env_node(t: FlatTree, idx: int, indent: usize) -> Seq<char>
    decreases t.nodes@.len() - idx, 1int,
{
    if 0 <= idx < t.nodes@.len() {
        let n = t.nodes@[idx];
        let cs = n.children_start as int;
        let ce = cs + n.children_len;
        spaces((2 * indent) as nat) + "- name: "@ + yaml_scalar_spec(n.name@) + "\n"@ + yaml_env_attrs(
            node_attrs(t, n),
            indent,
        ) + yaml_env_text(n, indent) + (if n.children_len > 0 && idx < cs && ce <= t.nodes@.len() {
            spaces((2 * indent) as nat) + "  children:\n"@ + yaml_env_children(t, cs, ce, sat_add(indent, 2))
        } else {
            Seq::empty()
        })
    } else {
        Seq::empty()
    }
}

/// The nodes `k .. ce` in the envelope.
pub open spec fn yaml_env_children(t: FlatTree, k: int, ce: int, indent: usize) -> Seq<char>
    decreases t.nodes@.len() - k + 1, 0int,
{
    if 0 <= k < ce <= t.nodes@.len() {
        yaml_env_node(t, k, indent) + yaml_env_children(t, k + 1, ce, indent)
    } else {
        Seq::empty()
    }
}

/// The diagnostic envelope as YAML: `consumed`, `actions`, `traces`,
/// `capture_history`, `capture_names_history`, `error`, then the tree under
/// `output`.
pub open spec fn yaml_envelope(x: ExecutionResult, t: FlatTree) -> Seq<char> {
    "execution:\n  consumed: "@ + decimal(x.consumed as nat) + "\n  actions:\n"@ + yaml_section(
        x.actions@.len(),
        yaml_actions(x.actions@),
    ) + "  traces:\n"@ + yaml_section(x.traces@.len(), yaml_traces(x.traces@)) + "  capture_history:\n"@
        + yaml_section(x.capture_history@.len(), yaml_history(x.capture_history@)) + "  capture_names_history:\n"@
        + yaml_section(x.capture_names_history@.len(), yaml_names_history(x.capture_names_history@)) + "  error: "@
        + (match x.error {
        Some(e) => yaml_scalar_spec(e@),
        None => "null"@,
    }) + "\n  output:\n"@ + yaml_env_node(t, 0, 2)
}

fn push_yaml_arg(out: &mut Vec<char>, e: &Expression)
    ensures
        final(out)@ == old(out)@ + yaml_arg(*e),
{
    match e {
        Expression::String(s) => push_yaml_scalar(out, s.as_str()),
        Expression::Regex(r) => push_yaml_scalar(out, r.as_str()),
        Expression::Number(n) => {
            let d = i64_to_decimal(*n);
            push_all(out, d.as_slice());
        },
        Expression::Variable(v) => push_yaml_scalar(out, v.as_str()),
        Expression::Capture(i) => {
            push_str(out, "\"$");
            let d = usize_to_decimal(*i);
            push_all(out, d.as_slice());
            push_str(out, "\"");
        },
        Expression::CaptureName(n) => {
            push_str(out, "\"$");
            push_str(out, n.as_str());
            push_str(out, "\"");
        },
    }
    assert(out@ =~= old(out)@ + yaml_arg(*e));
}

fn push_yaml_action(out: &mut Vec<char>, f: &FunctionCall)
    ensures
        final(out)@ == old(out)@ + yaml_action(*f),
{
    push_str(out, "    - name: ");
    push_yaml_scalar(out, f.name.as_str());
    if f.args.len() == 0 {
        push_str(out, "\n");
    } else {
        push_str(out, "\n      args:\n");
        let ghost start = out@;
        let mut i: usize = 0;
        while i < f.args.len()
            invariant
                i <= f.args@.len(),
                out@ == start + yaml_args(f.args@.subrange(0, i as int)),
            decreases f.args@.len() - i,
        {
            push_str(out, "        - ");
            push_yaml_arg(out, &f.args[i]);
            push_str(out, "\n");
            proof {
                assert(f.args@.subrange(0, i + 1).drop_last() =~= f.args@.subrange(0, i as int));
            }
            i = i + 1;
            assert(out@ =~= start + yaml_args(f.args@.subrange(0, i as int)));
        }
        assert(f.args@.subrange(0, f.args@.len() as int) =~= f.args@);
    }
    assert(out@ =~= old(out)@ + yaml_action(*f));
}

fn push_yaml_join(out: &mut Vec<char>, v: &Vec<String>)
    ensures
        final(out)@ == old(out)@ + yaml_join(strings_view(v@)),
{
    let ghost start = out@;
    let mut i: usize = 0;
    while i < v.len()
        invariant
            i <= v@.len(),
            out@ == start + yaml_join(strings_view(v@).subrange(0, i as int)),
        decreases v@.len() - i,
    {
        let ghost sv = strings_view(v@);
        if i > 0 {
            push_str(out, ", ");
        }
        push_yaml_scalar(out, v[i].as_str());
        proof {
            let sub = sv.subrange(0, i + 1);
            assert(sub.drop_last() =~= sv.subrange(0, i as int));
            assert(sub.last() == v@[i as int]@);
            if i == 0 {
                assert(sub[0] == v@[0]@);
                assert(out@ =~= start + yaml_join(sub));
            } else {
                assert(out@ =~= start + yaml_join(sub));
            }
        }
        i = i + 1;
    }
    assert(strings_view(v@).subrange(0, v@.len() as int) =~= strings_view(v@));
}

fn push_yaml_join_opt(out: &mut Vec<char>, v: &Vec<Option<String>>)
    ensures
        final(out)@ == old(out)@ + yaml_join(opt_strings_view(v@)),
{
    let ghost start = out@;
    let mut i: usize = 0;
    while i < v.len()
        invariant
            i <= v@.len(),
            out@ == start + yaml_join(opt_strings_view(v@).subrange(0, i as int)),
        decreases v@.len() - i,
    {
        let ghost sv = opt_strings_view(v@);
        if i > 0 {
            push_str(out, ", ");
        }
        match &v[i] {
            Some(s) => push_yaml_scalar(out, s.as_str()),
            None => push_yaml_scalar(out, ""),
        }
        proof {
            let sub = sv.subrange(0, i + 1);
            assert(sub.drop_last() =~= sv.subrange(0, i as int));
            if v@[i as int] is None {
                reveal_strlit("");
                assert(""@ =~= Seq::<char>::empty());
            }
            assert(sub.last() == sv[i as int]);
            if i == 0 {
                assert(out@ =~= start + yaml_join(sub));
            } else {
                assert(out@ =~= start + yaml_join(sub));
            }
        }
        i = i + 1;
    }
    assert(opt_strings_view(v@).subrange(0, v@.len() as int) =~= opt_strings_view(v@));
}

fn push_yaml_env_attrs(out: &mut Vec<char>, attrs: &[(String, String)], indent: usize)
    ensures
        final(out)@ == old(out)@ + yaml_env_attrs(attrs@, indent),
{
    let ghost start = out@;
    let mut a: usize = 0;
    while a < attrs.len()
        invariant
            a <= attrs@.len(),
            out@ == start + yaml_env_attrs(attrs@.subrange(0, a as int), indent),
        decreases attrs@.len() - a,
    {
        push_yaml_lead(out, false, indent);
        push_str(out, "  attribute: ");
        push_yaml_scalar(out, attrs[a].0.as_str());
        push_str(out, ": ");
        push_yaml_scalar(out, attrs[a].1.as_str());
        push_str(out, "\n");
        proof {
            assert(attrs@.subrange(0, a + 1).drop_last() =~= attrs@.subrange(0, a as int));
        }
        a = a + 1;
        assert(out@ =~= start + yaml_env_attrs(attrs@.subrange(0, a as int), indent));
    }
    assert(attrs@.subrange(0, attrs@.len() as int) =~= attrs@);
}

fn push_yaml_env_text(out: &mut Vec<char>, node: &FlatNode, indent: usize)
    ensures
        final(out)@ == old(out)@ + yaml_env_text(*node, indent),
{
    match &node.text {
        Some(x) => {
            push_yaml_lead(out, false, indent);
            push_str(out, "  text: ");
            push_yaml_scalar(out, x.as_str());
            push_str(out, "\n");
        },
        None => {},
    }
    assert(out@ =~= old(out)@ + yaml_env_text(*node, indent));
}

fn push_yaml_env_children(flat: &FlatTree, cs: usize, ce: usize, out: &mut Vec<char>, indent: usize)
    requires
        flat.wf(),
        cs < ce <= flat.nodes@.len(),
    ensures
        final(out)@ == old(out)@ + yaml_env_children(*flat, cs as int, ce as int, indent),
    decreases flat.nodes@.len() - cs + 1, 0int,
{
    let ghost start = out@;
    let mut k = cs;
    while k < ce
        invariant
            flat.wf(),
            cs <= k <= ce <= flat.nodes@.len(),
            start + yaml_env_children(*flat, cs as int, ce as int, indent) == out@ + yaml_env_children(
                *flat,
                k as int,
                ce as int,
                indent,
            ),
        decreases ce - k,
    {
        let ghost b = out@;
        push_yaml_env_node(flat, k, out, indent);
        proof {
            assert(b + yaml_env_children(*flat, k as int, ce as int, indent) =~= out@ + yaml_env_children(
                *flat,
                k + 1,
                ce as int,
                indent,
            ));
        }
        k = k + 1;
    }
    assert(out@ + yaml_env_children(*flat, ce as int, ce as int, indent) =~= out@);
}

/// Appends the envelope form of node `idx` (see [`yaml_env_node`]).
#[verifier::rlimit(50)]
#[verifier::spinoff_prover]
fn push_yaml_env_node(flat: &FlatTree, idx: usize, out: &mut Vec<char>, indent: usize)
    requires
        flat.wf(),
        idx < flat.nodes@.len(),
    ensures
        final(out)@ == old(out)@ + yaml_env_node(*flat, idx as int, indent),
    decreases flat.nodes@.len() - idx, 1int,
{
    let node = &flat.nodes[idx];
    proof {
        assert(flat_node_wf(flat.nodes@[idx as int], idx as int, flat.nodes@.len() as int, flat.attrs@.len() as int));
    }
    push_yaml_lead(out, false, indent);
    push_str(out, "- name: ");
    push_yaml_scalar(out, node.name.as_str());
    push_str(out, "\n");
    let attrs = flat.attrs_of(node);
    push_yaml_env_attrs(out, attrs, indent);
    push_yaml_env_text(out, node, indent);
    let ghost c_start = out@;
    if node.children_len > 0 {
        let cs = node.children_start as usize;
        let ce = cs + node.children_len as usize;
        push_yaml_lead(out, false, indent);
        push_str(out, "  children:\n");
        push_yaml_env_children(flat, cs, ce, out, indent.saturating_add(2));
    }
    proof {
        if node.children_len == 0 {
            assert(out@ =~= c_start);
        }
        assert(out@ =~= old(out)@ + yaml_env_node(*flat, idx as int, indent));
    }
}

fn push_yaml_actions(out: &mut Vec<char>, actions: &Vec<FunctionCall>)
    ensures
        final(out)@ == old(out)@ + yaml_section(actions@.len(), yaml_actions(actions@)),
{
    if actions.len() == 0 {
        push_str(out, "    []\n");
        return;
    }
    let ghost start = out@;
    let mut i: usize = 0;
    while i < actions.len()
        invariant
            i <= actions@.len(),
            out@ == start + yaml_actions(actions@.subrange(0, i as int)),
        decreases actions@.len() - i,
    {
        push_yaml_action(out, &actions[i]);
        proof {
            assert(actions@.subrange(0, i + 1).drop_last() =~= actions@.subrange(0, i as int));
        }
        i = i + 1;
        assert(out@ =~= start + yaml_actions(actions@.subrange(0, i as int)));
    }
    assert(actions@.subrange(0, actions@.len() as int) =~= actions@);
}

fn push_yaml_traces(out: &mut Vec<char>, traces: &Vec<String>)
    ensures
        final(out)@ == old(out)@ + yaml_section(traces@.len(), yaml_traces(traces@)),
{
    if traces.len() == 0 {
        push_str(out, "    []\n");
        return;
    }
    let ghost start = out@;
    let mut i: usize = 0;
    while i < traces.len()
        invariant
            i <= traces@.len(),
            out@ == start + yaml_traces(traces@.subrange(0, i as int)),
        decreases traces@.len() - i,
    {
        push_str(out, "    - ");
        push_yaml_scalar(out, traces[i].as_str());
        push_str(out, "\n");
        proof {
            assert(traces@.subrange(0, i + 1).drop_last() =~= traces@.subrange(0, i as int));
        }
        i = i + 1;
        assert(out@ =~= start + yaml_traces(traces@.subrange(0, i as int)));
    }
    assert(traces@.subrange(0, traces@.len() as int) =~= traces@);
}

fn push_yaml_history(out: &mut Vec<char>, h: &Vec<Vec<String>>)
    ensures
        final(out)@ == old(out)@ + yaml_section(h@.len(), yaml_history(h@)),
{
    if h.len() == 0 {
        push_str(out, "    []\n");
        return;
    }
    let ghost start = out@;
    let mut i: usize = 0;
    while i < h.len()
        invariant
            i <= h@.len(),
            out@ == start + yaml_history(h@.subrange(0, i as int)),
        decreases h@.len() - i,
    {
        push_str(out, "    - [");
        push_yaml_join(out, &h[i]);
        push_str(out, "]\n");
        proof {
            assert(h@.subrange(0, i + 1).drop_last() =~= h@.subrange(0, i as int));
        }
        i = i + 1;
        assert(out@ =~= start + yaml_history(h@.subrange(0, i as int)));
    }
    assert(h@.subrange(0, h@.len() as int) =~= h@);
}

fn push_yaml_names_history(out: &mut Vec<char>, h: &Vec<Vec<Option<String>>>)
    ensures
        final(out)@ == old(out)@ + yaml_section(h@.len(), yaml_names_history(h@)),
{
    if h.len() == 0 {
        push_str(out, "    []\n");
        return;
    }
    let ghost start = out@;
    let mut i: usize = 0;
    while i < h.len()
        invariant
            i <= h@.len(),
            out@ == start + yaml_names_history(h@.subrange(0, i as int)),
        decreases h@.len() - i,
    {
        push_str(out, "    - [");
        push_yaml_join_opt(out, &h[i]);
        push_str(out, "]\n");
        proof {
            assert(h@.subrange(0, i + 1).drop_last() =~= h@.subrange(0, i as int));
        }
        i = i + 1;
        assert(out@ =~= start + yaml_names_history(h@.subrange(0, i as int)));
    }
    assert(h@.subrange(0, h@.len() as int) =~= h@);
}

/// The diagnostic envelope as YAML (see [`yaml_envelope`]).
pub fn serialize_yaml(exec: &ExecutionResult, flat: &FlatTree) -> (r: String)
    requires
        flat.wf(),
    ensures
        r@ == yaml_envelope(*exec, *flat),
{
    let mut out: Vec<char> = Vec::new();
    push_str(&mut out, "execution:\n  consumed: ");
    let d = usize_to_decimal(exec.consumed);
    push_all(&mut out, d.as_slice());
    push_str(&mut out, "\n  actions:\n");
    push_yaml_actions(&mut out, &exec.actions);
    push_str(&mut out, "  traces:\n");
    push_yaml_traces(&mut out, &exec.traces);
    push_str(&mut out, "  capture_history:\n");
    push_yaml_history(&mut out, &exec.capture_history);
    push_str(&mut out, "  capture_names_history:\n");
    push_yaml_names_history(&mut out, &exec.capture_names_history);
    push_str(&mut out, "  error: ");
    match &exec.error {
        Some(e) => push_yaml_scalar(&mut out, e.as_str()),
        None => push_str(&mut out, "null"),
    }
    push_str(&mut out, "\n  output:\n");
    push_yaml_env_node(flat, 0, &mut out, 2);
    proof {
        assert(out@ =~= yaml_envelope(*exec, *flat));
    }
    crate::text::chars_to_string(out.as_slice())
}

} // verus!
