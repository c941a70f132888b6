//! Serialization of an execution: the diagnostic envelope (JSON, XML, YAML) and
//! the bare data tree (JSON, XML, YAML).

use vstd::prelude::*;
use crate::errors::{severity_text, Diagnostic, Severity};
use crate::exec::out::{FlatNode, FlatTree, flat_node_wf, group_end, has_text, node_attrs, node_has_text, node_text, run_end};
use crate::exec::yaml_out::{sat_add, serialize_yaml, spaces, tree_yaml, tree_yaml_spec, yaml_envelope};
use crate::exec::xml_out::{envelope_xml, serialize_xml, tree_xml, tree_xml_spec};
use crate::exec::runner::ExecutionResult;
use crate::jsonv::{
    json_array, json_contents, json_i64, json_map_contents, json_map_insert, json_map_new, json_null, json_object, json_pretty,
    json_pretty_text, json_string, json_u64, JsonV,
};
use crate::parser::ast::{exprs_view, ExprV, Expression, FunctionCall};
use crate::text::decimal;
use crate::text::{i64_to_string, push_str, str_eq, str_to_chars, chars_to_string, usize_to_string};

verus! {

/// Serialization format of an execution.
#[derive(Debug, Clone, Copy, PartialEq, Eq, Structural)]
pub enum RuntimeFormat {
    Json,
    Xml,
    Yaml,
    /// Discards the output: runs the grammar, produces the empty string.
    Empty,
}

// ---------------------------------------------------------------------------
// JSON text helpers
// ---------------------------------------------------------------------------

/// Lower-case hex digit.
pub open spec fn hex_lower(d: int) -> char {
    if d < 10 {
        ((48 + d) as u8) as char
    } else {
        ((87 + d) as u8) as char
    }
}

/// A character escaped for a JSON string.
pub open spec fn json_escape_char(c: char) -> Seq<char> {
    if c == '"' {
        seq!['\\', '"']
    } else if c == '\\' {
        seq!['\\', '\\']
    } else if c == '\u{0008}' {
        seq!['\\', 'b']
    } else if c == '\u{000C}' {
        seq!['\\', 'f']
    } else if c == '\n' {
        seq!['\\', 'n']
    } else if c == '\r' {
        seq!['\\', 'r']
    } else if c == '\t' {
        seq!['\\', 't']
    } else if (c as u32) < 0x20 {
        seq!['\\', 'u', '0', '0', hex_lower((c as u32) as int / 16), hex_lower((c as u32) as int % 16)]
    } else {
        seq![c]
    }
}

/// A text escaped for a JSON string (without the quotes).
pub open spec fn json_escape(s: Seq<char>) -> Seq<char>
    decreases s.len(),
{
    if s.len() == 0 {
        Seq::empty()
    } else {
        json_escape(s.drop_last()) + json_escape_char(s.last())
    }
}

/// The value of a JSON hexadecimal digit (`0`-`9`, `a`-`f`, `A`-`F`).
pub open spec fn json_hex_digit(c: char) -> Option<int> {
    let u = c as int;
    if 48 <= u <= 57 {
        Some(u - 48)
    } else if 97 <= u <= 102 {
        Some(u - 87)
    } else if 65 <= u <= 70 {
        Some(u - 55)
    } else {
        None
    }
}

/// The code unit that the four hexadecimal digits `t[k..k + 4]` spell.
pub open spec fn json_hex4(t: Seq<char>, k: int) -> Option<int> {
    if 0 <= k && k + 4 <= t.len() {
        match (json_hex_digit(t[k]), json_hex_digit(t[k + 1]), json_hex_digit(t[k + 2]), json_hex_digit(t[k + 3])) {
            (Some(a), Some(b), Some(c), Some(d)) => Some(a * 4096 + b * 256 + c * 16 + d),
            _ => None,
        }
    } else {
        None
    }
}

/// The character a one-letter JSON escape `\x` stands for.
pub open spec fn json_short_escape(e: char) -> Option<char> {
    if e == '"' {
        Some('"')
    } else if e == '\\' {
        Some('\\')
    } else if e == '/' {
        Some('/')
    } else if e == 'b' {
        Some('\u{0008}')
    } else if e == 'f' {
        Some('\u{000C}')
    } else if e == 'n' {
        Some('\n')
    } else if e == 'r' {
        Some('\r')
    } else if e == 't' {
        Some('\t')
    } else {
        None
    }
}

/// `Some(seq![c] + r)` for `Some(r)`.
pub open spec fn json_prepend(c: char, rest: Option<Seq<char>>) -> Option<Seq<char>> {
    match rest {
        Some(r) => Some(seq![c] + r),
        None => None,
    }
}

/// The text that the contents of a JSON string (what stands between its
/// quotes) denote, read as RFC 8259 says: `\"`, `\\`, `\/`, `\b`, `\f`, `\n`,
/// `\r`, `\t` and `\uXXXX` (a surrogate pair for characters beyond the basic
/// plane) are escapes, an unescaped `"` or control character is an error.
pub open spec fn json_unescape(t: Seq<char>) -> Option<Seq<char>>
    decreases t.len(),
{
    if t.len() == 0 {
        Some(Seq::empty())
    } else if t[0] == '"' || (t[0] as int) < 0x20 {
        None
    } else if t[0] != '\\' {
        json_prepend(t[0], json_unescape(t.drop_first()))
    } else if t.len() < 2 {
        None
    } else if json_short_escape(t[1]) is Some {
        json_prepend(json_short_escape(t[1])->0, json_unescape(t.subrange(2, t.len() as int)))
    } else if t[1] != 'u' || t.len() < 6 || json_hex4(t, 2) is None {
        None
    } else {
        let v = json_hex4(t, 2)->0;
        if v < 0xD800 || v >= 0xE000 {
            json_prepend(v as char, json_unescape(t.subrange(6, t.len() as int)))
        } else if v < 0xDC00 && t.len() >= 12 && t[6] == '\\' && t[7] == 'u' && json_hex4(t, 8) is Some
            && 0xDC00 <= json_hex4(t, 8)->0 < 0xE000 {
            let w = json_hex4(t, 8)->0;
            json_prepend(
                (0x10000 + (v - 0xD800) * 0x400 + (w - 0xDC00)) as char,
                json_unescape(t.subrange(12, t.len() as int)),
            )
        } else {
            None
        }
    }
}

/// The text a JSON string literal (with its quotes) denotes.
pub open spec fn json_string_value(t: Seq<char>) -> Option<Seq<char>> {
    if t.len() >= 2 && t[0] == '"' && t[t.len() - 1] == '"' {
        json_unescape(t.subrange(1, t.len() - 1))
    } else {
        None
    }
}

proof fn lemma_json_escape_front(s: Seq<char>)
    requires
        s.len() > 0,
    ensures
        json_escape(s) == json_escape_char(s[0]) + json_escape(s.drop_first()),
    decreases s.len(),
{
    if s.len() == 1 {
        assert(s.drop_last() =~= Seq::<char>::empty());
        assert(s.drop_first() =~= Seq::<char>::empty());
        assert(json_escape(s.drop_first()) =~= Seq::<char>::empty());
        assert(json_escape(s) =~= json_escape_char(s[0]) + json_escape(s.drop_first()));
    } else {
        lemma_json_escape_front(s.drop_last());
        assert(s.drop_last().drop_first() =~= s.drop_first().drop_last());
        assert(s.drop_last()[0] == s[0]);
        assert(s.drop_first().last() == s.last());
        assert(json_escape(s) =~= json_escape_char(s[0]) + json_escape(s.drop_first()));
    }
}

proof fn lemma_hex_lower_digit(d: int)
    requires
        0 <= d < 16,
    ensures
        json_hex_digit(hex_lower(d)) == Some(d),
{
    if d < 10 {
        let x: u8 = (48 + d) as u8;
        assert((x as char) as int == x as int);
    } else {
        let x: u8 = (87 + d) as u8;
        assert((x as char) as int == x as int);
    }
}

/// Decoding the escape of one character gives that character back, followed by
/// whatever the rest decodes to.
proof fn lemma_json_unescape_char(c: char, rest: Seq<char>)
    ensures
        json_unescape(json_escape_char(c) + rest) == json_prepend(c, json_unescape(rest)),
{
    let t = json_escape_char(c) + rest;
    let e = json_escape_char(c);
    if c == '"' || c == '\\' || c == '\u{0008}' || c == '\u{000C}' || c == '\n' || c == '\r' || c == '\t' {
        assert(t[0] == '\\' && t[1] == e[1]);
        assert(t.subrange(2, t.len() as int) =~= rest);
    } else if (c as u32) < 0x20 {
        let n = (c as u32) as int;
        lemma_hex_lower_digit(n / 16);
        lemma_hex_lower_digit(n % 16);
        assert(t[0] == '\\' && t[1] == 'u' && t[2] == '0' && t[3] == '0');
        assert(t[4] == hex_lower(n / 16) && t[5] == hex_lower(n % 16));
        assert(json_hex4(t, 2) == Some(n));
        assert((n as char) == c);
        assert(t.subrange(6, t.len() as int) =~= rest);
    } else {
        assert(t[0] == c);
        assert(t.drop_first() =~= rest);
    }
}

/// Reading back the JSON string that the serializer writes for a text gives the
/// text: JSON string decoding undoes [`json_escape`], for every text.
pub proof fn lemma_json_escape_roundtrip(s: Seq<char>)
    ensures
        json_unescape(json_escape(s)) == Some(s),
        json_string_value(seq!['"'] + json_escape(s) + seq!['"']) == Some(s),
    decreases s.len(),
{
    if s.len() == 0 {
        assert(json_escape(s) =~= Seq::<char>::empty());
    } else {
        lemma_json_escape_front(s);
        lemma_json_escape_roundtrip(s.drop_first());
        lemma_json_unescape_char(s[0], json_escape(s.drop_first()));
        assert(seq![s[0]] + s.drop_first() =~= s);
    }
    let w = seq!['"'] + json_escape(s) + seq!['"'];
    assert(w.subrange(1, w.len() - 1) =~= json_escape(s));
}

fn hex_digit_lower(d: u32) -> (c: char)
    requires
        d < 16,
    ensures
        c == hex_lower(d as int),
{
    if d < 10 {
        ((48 + d) as u8) as char
    } else {
        ((87 + d) as u8) as char
    }
}

/// Appends `"` + the escaped text + `"`.
fn json_write_escaped(out: &mut Vec<char>, s: &str)
    ensures
        final(out)@ == old(out)@ + seq!['"'] + json_escape(s@) + seq!['"'],
        json_string_value(final(out)@.subrange(old(out)@.len() as int, final(out)@.len() as int)) == Some(s@),
{
    proof {
        lemma_json_escape_roundtrip(s@);
    }
    let c = str_to_chars(s);
    out.push('"');
    let ghost start = out@;
    let mut i: usize = 0;
    while i < c.len()
        invariant
            i <= c@.len(),
            c@ == s@,
            out@ == start + json_escape(c@.subrange(0, i as int)),
        decreases c@.len() - i,
    {
        let ch = c[i];
        let ghost before = out@;
        if ch == '"' {
            out.push('\\');
            out.push('"');
        } else if ch == '\\' {
            out.push('\\');
            out.push('\\');
        } else if ch == '\u{0008}' {
            out.push('\\');
            out.push('b');
        } else if ch == '\u{000C}' {
            out.push('\\');
            out.push('f');
        } else if ch == '\n' {
            out.push('\\');
            out.push('n');
        } else if ch == '\r' {
            out.push('\\');
            out.push('r');
        } else if ch == '\t' {
            out.push('\\');
            out.push('t');
        } else if (ch as u32) < 0x20 {
            let n = ch as u32;
            out.push('\\');
            out.push('u');
            out.push('0');
            out.push('0');
            out.push(hex_digit_lower(n / 16));
            out.push(hex_digit_lower(n % 16));
        } else {
            out.push(ch);
        }
        proof {
            assert(c@.subrange(0, i + 1).drop_last() =~= c@.subrange(0, i as int));
            assert(out@ =~= before + json_escape_char(ch));
        }
        i = i + 1;
    }
    proof {
        assert(c@.subrange(0, c@.len() as int) =~= c@);
    }
    out.push('"');
    proof {
        assert(out@.subrange(old(out)@.len() as int, out@.len() as int) =~= seq!['"'] + json_escape(s@) + seq!['"']);
    }
}

/// Appends `level` four-space indents.
fn json_write_indent(out: &mut Vec<char>, level: usize)
    ensures
        final(out)@ == old(out)@ + spaces((4 * level) as nat),
{
    let ghost start = out@;
    let mut k: usize = 0;
    while k < level
        invariant
            k <= level,
            out@ == start + spaces((4 * k) as nat),
        decreases level - k,
    {
        out.push(' ');
        out.push(' ');
        out.push(' ');
        out.push(' ');
        k = k + 1;
        proof {
            assert(out@ =~= start + spaces((4 * k) as nat));
        }
    }
}

/// A JSON string literal: the escaped text in double quotes.
pub open spec fn json_str(s: Seq<char>) -> Seq<char> {
    seq!['"'] + json_escape(s) + seq!['"']
}

/// What goes before an entry of an object or array: a comma unless it is the
/// first, a line break, the indentation.
pub open spec fn json_sep(first: bool, level: usize) -> Seq<char> {
    (if first {
        Seq::empty()
    } else {
        seq![',']
    }) + seq!['\n'] + spaces((4 * level) as nat)
}

/// The attribute entries `"@key": "value"`.
pub open spec fn json_attr_entries(a: Seq<(String, String)>, level: usize, first: bool) -> Seq<char>
    decreases a.len(),
{
    if a.len() == 0 {
        Seq::empty()
    } else {
        json_attr_entries(a.drop_last(), level, first) + json_sep(first && a.len() == 1, level) + json_str(
            seq!['@'] + a.last().0@,
        ) + seq![':', ' '] + json_str(a.last().1@)
    }
}

/// The text entry `"#text": "..."`, when the node has a text.
pub open spec fn json_text_entry(n: FlatNode, level: usize, first: bool) -> Seq<char> {
    if node_has_text(n) {
        json_sep(first, level) + json_str(seq!['#', 't', 'e', 'x', 't']) + seq![':', ' '] + json_str(node_text(n))
    } else {
        Seq::empty()
    }
}

/// Node `idx` as a pretty JSON object at indentation `indent`: attributes,
/// text, then each run of same-named children under its name (a single child
/// as an object, a longer run as an array); `{}` for a node with none of these.
pub open spec fn json_node(t: FlatTree, idx: int, indent: usize) -> Seq<char>
    decreases t.nodes@.len() - idx, 3int,
{
    if 0 <= idx < t.nodes@.len() {
        let n = t.nodes@[idx];
        let a = node_attrs(t, n);
        let inner = sat_add(indent, 1);
        if a.len() == 0 && !node_has_text(n) && n.children_len == 0 {
            seq!['{', '}']
        } else {
            let cs = n.children_start as int;
            let ce = cs + n.children_len;
            seq!['{'] + json_attr_entries(a, inner, true) + json_text_entry(n, inner, a.len() == 0) + (if n.children_len
                > 0 && idx < cs && ce <= t.nodes@.len() {
                json_groups(t, cs, ce, inner, a.len() == 0 && !node_has_text(n))
            } else {
                Seq::empty()
            }) + seq!['\n'] + spaces((4 * indent) as nat) + seq!['}']
        }
    } else {
        Seq::empty()
    }
}

/// The runs of same-named nodes `g .. ce`, each under its name.
pub open spec fn json_groups(t: FlatTree, g: int, ce: int, level: usize, first: bool) -> Seq<char>
    decreases t.nodes@.len() - g + 1, 2int,
{
    if 0 <= g < ce <= t.nodes@.len() {
        let e = run_end(t.nodes@, g, g + 1, ce);
        if g < e <= ce {
            json_sep(first, level) + json_str(t.nodes@[g].name@) + seq![':', ' '] + (if e - g == 1 {
                json_node(t, g, level)
            } else {
                json_array_spec(t, g, e, level)
            }) + json_groups(t, e, ce, level, false)
        } else {
            Seq::empty()
        }
    } else {
        Seq::empty()
    }
}

/// The nodes `g .. e` as an array.
pub open spec fn json_array_spec(t: FlatTree, g: int, e: int, level: usize) -> Seq<char>
    decreases t.nodes@.len() - g + 1, 1int,
{
    seq!['['] + json_items(t, g, e, sat_add(level, 1), true) + seq!['\n'] + spaces((4 * level) as nat) + seq![']']
}

/// The nodes `k .. e` as array items.
pub open spec fn json_items(t: FlatTree, k: int, e: int, level: usize, first: bool) -> Seq<char>
    decreases t.nodes@.len() - k + 1, 0int,
{
    if 0 <= k < e <= t.nodes@.len() {
        json_sep(first, level) + json_node(t, k, level) + json_items(t, k + 1, e, level, false)
    } else {
        Seq::empty()
    }
}

fn push_json_sep(out: &mut Vec<char>, first: bool, level: usize)
    ensures
        final(out)@ == old(out)@ + json_sep(first, level),
{
    if !first {
        out.push(',');
    }
    out.push('\n');
    json_write_indent(out, level);
    assert(out@ =~= old(out)@ + json_sep(first, level));
}

fn push_json_attr_entries(out: &mut Vec<char>, attrs: &[(String, String)], level: usize)
    ensures
        final(out)@ == old(out)@ + json_attr_entries(attrs@, level, true),
{
    let ghost start = out@;
    let mut a: usize = 0;
    while a < attrs.len()
        invariant
            a <= attrs@.len(),
            out@ == start + json_attr_entries(attrs@.subrange(0, a as int), level, true),
        decreases attrs@.len() - a,
    {
        let ghost before = out@;
        push_json_sep(out, a == 0, level);
        let mut key = "@".to_string();
        key.append(attrs[a].0.as_str());
        proof {
            reveal_strlit("@");
            assert(key@ =~= seq!['@'] + attrs@[a as int].0@);
        }
        json_write_escaped(out, key.as_str());
        out.push(':');
        out.push(' ');
        json_write_escaped(out, attrs[a].1.as_str());
        proof {
            let sub = attrs@.subrange(0, a + 1);
            assert(sub.drop_last() =~= attrs@.subrange(0, a as int));
            assert(sub.last() == attrs@[a as int]);
            assert(out@ =~= before + json_sep(true && sub.len() == 1, level) + json_str(seq!['@'] + sub.last().0@)
                + seq![':', ' '] + json_str(sub.last().1@));
        }
        a = a + 1;
    }
    assert(attrs@.subrange(0, attrs@.len() as int) =~= attrs@);
}

fn push_json_text_entry(out: &mut Vec<char>, node: &FlatNode, level: usize, first: bool)
    ensures
        final(out)@ == old(out)@ + json_text_entry(*node, level, first),
{
    if has_text(node) {
        push_json_sep(out, first, level);
        let key = ['#', 't', 'e', 'x', 't'];
        let ks = chars_to_string(key.as_slice());
        json_write_escaped(out, ks.as_str());
        out.push(':');
        out.push(' ');
        match &node.text {
            Some(t) => json_write_escaped(out, t.as_str()),
            None => {},
        }
        assert(key@ =~= seq!['#', 't', 'e', 'x', 't']);
    }
    assert(out@ =~= old(out)@ + json_text_entry(*node, level, first));
}

fn push_json_items(flat: &FlatTree, g: usize, e: usize, out: &mut Vec<char>, level: usize)
    requires
        flat.wf(),
        g < e <= flat.nodes@.len(),
    ensures
        final(out)@ == old(out)@ + json_items(*flat, g as int, e as int, level, true),
    decreases flat.nodes@.len() - g + 1, 0int,
{
    let ghost head = out@;
    let mut k = g;
    while k < e
        invariant
            flat.wf(),
            g <= k <= e <= flat.nodes@.len(),
            head + json_items(*flat, g as int, e as int, level, true) == out@ + json_items(
                *flat,
                k as int,
                e as int,
                level,
                k == g,
            ),
        decreases e - k,
    {
        let ghost b2 = out@;
        push_json_sep(out, k == g, level);
        tree_json_node(flat, k, out, level);
        proof {
            assert(b2 + json_items(*flat, k as int, e as int, level, k == g) =~= out@ + json_items(
                *flat,
                k + 1,
                e as int,
                level,
                false,
            ));
        }
        k = k + 1;
    }
    assert(out@ + json_items(*flat, e as int, e as int, level, false) =~= out@);
}

fn push_json_array(flat: &FlatTree, g: usize, e: usize, out: &mut Vec<char>, level: usize)
    requires
        flat.wf(),
        g < e <= flat.nodes@.len(),
    ensures
        final(out)@ == old(out)@ + json_array_spec(*flat, g as int, e as int, level),
    decreases flat.nodes@.len() - g + 1, 1int,
{
    out.push('[');
    let lvl = level.saturating_add(1);
    push_json_items(flat, g, e, out, lvl);
    out.push('\n');
    json_write_indent(out, level);
    out.push(']');
    assert(out@ =~= old(out)@ + json_array_spec(*flat, g as int, e as int, level));
}

#[verifier::rlimit(50)]
#[verifier::spinoff_prover]
fn push_json_groups(flat: &FlatTree, cs: usize, ce: usize, out: &mut Vec<char>, level: usize, first0: bool)
    requires
        flat.wf(),
        cs < ce <= flat.nodes@.len(),
    ensures
        final(out)@ == old(out)@ + json_groups(*flat, cs as int, ce as int, level, first0),
    decreases flat.nodes@.len() - cs + 1, 2int,
{
    let ghost start = out@;
    let mut first = first0;
    let mut g = cs;
    while g < ce
        invariant
            flat.wf(),
            cs <= g <= ce <= flat.nodes@.len(),
            start + json_groups(*flat, cs as int, ce as int, level, first0) == out@ + json_groups(
                *flat,
                g as int,
                ce as int,
                level,
                first,
            ),
        decreases ce - g,
    {
        let ghost before = out@;
        let e = group_end(flat, g, ce);
        push_json_sep(out, first, level);
        json_write_escaped(out, flat.nodes[g].name.as_str());
        out.push(':');
        out.push(' ');
        let ghost head = out@;
        if e - g == 1 {
            tree_json_node(flat, g, out, level);
        } else {
            push_json_array(flat, g, e, out, level);
        }
        proof {
            let body = if e - g == 1 {
                json_node(*flat, g as int, level)
            } else {
                json_array_spec(*flat, g as int, e as int, level)
            };
            assert(out@ =~= head + body);
            let gs = json_groups(*flat, g as int, ce as int, level, first);
            assert(gs == json_sep(first, level) + json_str(flat.nodes@[g as int].name@) + seq![':', ' '] + body
                + json_groups(*flat, e as int, ce as int, level, false));
            assert(before + gs =~= out@ + json_groups(*flat, e as int, ce as int, level, false));
        }
        first = false;
        g = e;
    }
    assert(out@ + json_groups(*flat, ce as int, ce as int, level, first) =~= out@);
}

/// Appends the pretty JSON of node `idx` (see [`json_node`]).
#[verifier::rlimit(50)]
#[verifier::spinoff_prover]
fn tree_json_node(flat: &FlatTree, idx: usize, out: &mut Vec<char>, indent: usize)
    requires
        flat.wf(),
        idx < flat.nodes@.len(),
    ensures
        final(out)@ == old(out)@ + json_node(*flat, idx as int, indent),
    decreases flat.nodes@.len() - idx, 3int,
{
    let node = &flat.nodes[idx];
    proof {
        assert(flat_node_wf(flat.nodes@[idx as int], idx as int, flat.nodes@.len() as int, flat.attrs@.len() as int));
    }
    let attrs = flat.attrs_of(node);
    let text = has_text(node);
    if attrs.len() == 0 && !text && node.children_len == 0 {
        out.push('{');
        out.push('}');
        return;
    }
    let ghost start = out@;
    out.push('{');
    let inner = indent.saturating_add(1);
    push_json_attr_entries(out, attrs, inner);
    push_json_text_entry(out, node, inner, attrs.len() == 0);
    let ghost after_text = out@;
    if node.children_len > 0 {
        let cs = node.children_start as usize;
        let ce = cs + node.children_len as usize;
        push_json_groups(flat, cs, ce, out, inner, attrs.len() == 0 && !text);
    }
    let ghost after_groups = out@;
    out.push('\n');
    json_write_indent(out, indent);
    out.push('}');
    proof {
        if node.children_len == 0 {
            assert(after_groups =~= after_text);
        }
        assert(out@ =~= old(out)@ + json_node(*flat, idx as int, indent));
    }
}

/// The data tree as pretty JSON with four-space indentation.
pub open spec fn tree_json_spec(t: FlatTree) -> Seq<char> {
    json_node(t, 0, 0)
}

/// The data tree as pretty JSON (see [`tree_json_spec`]).
fn tree_json(flat: &FlatTree) -> (r: String)
    requires
        flat.wf(),
    ensures
        r@ == tree_json_spec(*flat),
{
    let mut out: Vec<char> = Vec::new();
    tree_json_node(flat, 0, &mut out, 0);
    chars_to_string(out.as_slice())
}

// ---------------------------------------------------------------------------
// The JSON envelope (serde_json)
// ---------------------------------------------------------------------------

/// `prefix` + `s`.
fn prefixed(prefix: &str, s: &str) -> (r: String)
    ensures
        r@ == prefix@ + s@,
{
    let mut out = prefix.to_string();
    out.append(s);
    out
}

/// An action argument as a JSON value: strings as they are, regexes as `/p/`,
/// numbers as numbers, variables and captures as `$name`.
pub open spec fn arg_json(e: ExprV) -> JsonV {
    match e {
        ExprV::String(s) => JsonV::Str(s),
        ExprV::Regex(r) => JsonV::Str("/"@ + r + "/"@),
        ExprV::Number(n) => JsonV::Int(n as i128),
        ExprV::Variable(v) => JsonV::Str("$"@ + v),
        ExprV::Capture(i) => JsonV::Str("$"@ + decimal(i as nat)),
        ExprV::CaptureName(n) => JsonV::Str("$"@ + n),
    }
}

/// The attributes `"@key": "value"` added to an object, in order.
pub open spec fn attrs_json(m: Map<Seq<char>, JsonV>, a: Seq<(String, String)>) -> Map<Seq<char>, JsonV>
    decreases a.len(),
{
    if a.len() == 0 {
        m
    } else {
        attrs_json(m, a.drop_last()).insert("@"@ + a.last().0@, JsonV::Str(a.last().1@))
    }
}

/// Node `idx` of the data tree as a JSON object: `@attr` entries, `#text`
/// when its text is not empty, then each run of same-named children under its
/// name (a single child as an object, a longer run as an array).
pub open spec fn out_node_json(t: FlatTree, idx: int) -> JsonV
    decreases t.nodes@.len() - idx, 2int,
{
    if 0 <= idx < t.nodes@.len() {
        let n = t.nodes@[idx];
        let m0 = attrs_json(Map::empty(), node_attrs(t, n));
        let m1 = if node_has_text(n) {
            m0.insert("#text"@, JsonV::Str(node_text(n)))
        } else {
            m0
        };
        let cs = n.children_start as int;
        let ce = cs + n.children_len;
        JsonV::Obj(
            if n.children_len > 0 && idx < cs && ce <= t.nodes@.len() {
                out_groups_json(t, cs, ce, m1)
            } else {
                m1
            },
        )
    } else {
        JsonV::Null
    }
}

/// The runs of same-named nodes `g .. ce` added to an object under their names.
pub open spec fn out_groups_json(t: FlatTree, g: int, ce: int, m: Map<Seq<char>, JsonV>) -> Map<Seq<char>, JsonV>
    decreases t.nodes@.len() - g + 1, 1int,
{
    if 0 <= g < ce <= t.nodes@.len() {
        let e = run_end(t.nodes@, g, g + 1, ce);
        if g < e <= ce {
            let v = if e - g == 1 {
                out_node_json(t, g)
            } else {
                JsonV::Arr(out_items_json(t, g, e))
            };
            out_groups_json(t, e, ce, m.insert(t.nodes@[g].name@, v))
        } else {
            m
        }
    } else {
        m
    }
}

/// The nodes `k .. e` as JSON values.
pub open spec fn out_items_json(t: FlatTree, k: int, e: int) -> Seq<JsonV>
    decreases t.nodes@.len() - k + 1, 0int,
{
    if 0 <= k < e <= t.nodes@.len() {
        seq![out_node_json(t, k)] + out_items_json(t, k + 1, e)
    } else {
        seq![]
    }
}

/// A performed action: `{"name": .., "args": [..]}`.
pub open spec fn action_json(c: FunctionCall) -> JsonV {
    JsonV::Obj(
        Map::empty().insert("name"@, JsonV::Str(c.name@)).insert(
            "args"@,
            JsonV::Arr(exprs_view(c.args@).map_values(|e: ExprV| arg_json(e))),
        ),
    )
}

/// A diagnostic: `severity`, `message`, and `line`, `col`, `offset` when it has a span.
pub open spec fn diagnostic_json(d: Diagnostic) -> JsonV {
    let m = Map::empty().insert("severity"@, JsonV::Str(severity_text(d.severity))).insert(
        "message"@,
        JsonV::Str(d.message@),
    );
    JsonV::Obj(
        match d.span {
            Some(sp) => m.insert("line"@, JsonV::Int(sp.line as i128)).insert("col"@, JsonV::Int(sp.col as i128)).insert(
                "offset"@,
                JsonV::Int(sp.offset as i128),
            ),
            None => m,
        },
    )
}

/// A list of texts as an array of strings.
pub open spec fn strs_json(v: Seq<String>) -> JsonV {
    JsonV::Arr(v.map_values(|x: String| JsonV::Str(x@)))
}

/// A list of group names as an array of strings, a missing name empty.
pub open spec fn names_json(v: Seq<Option<String>>) -> JsonV {
    JsonV::Arr(
        v.map_values(
            |o: Option<String>|
                JsonV::Str(
                    match o {
                        Some(x) => x@,
                        None => seq![],
                    },
                ),
        ),
    )
}

/// The diagnostic envelope of an execution as a JSON value.
pub open spec fn envelope_json(exec: ExecutionResult, flat: FlatTree) -> JsonV {
    JsonV::Obj(
        Map::empty().insert("consumed"@, JsonV::Int(exec.consumed as i128)).insert(
            "actions"@,
            JsonV::Arr(exec.actions@.map_values(|c: FunctionCall| action_json(c))),
        ).insert("traces"@, strs_json(exec.traces@)).insert(
            "capture_history"@,
            JsonV::Arr(exec.capture_history@.map_values(|v: Vec<String>| strs_json(v@))),
        ).insert(
            "capture_names_history"@,
            JsonV::Arr(exec.capture_names_history@.map_values(|v: Vec<Option<String>>| names_json(v@))),
        ).insert(
            "error"@,
            match exec.error {
                Some(e) => JsonV::Str(e@),
                None => JsonV::Null,
            },
        ).insert("diagnostics"@, JsonV::Arr(exec.diagnostics@.map_values(|d: Diagnostic| diagnostic_json(d)))).insert(
            "output"@,
            out_node_json(flat, 0),
        ),
    )
}

/// The contents of a list of values.
pub open spec fn values_of(v: Seq<serde_json::Value>) -> Seq<JsonV> {
    v.map_values(|x: serde_json::Value| json_contents(x))
}

fn arg_value(arg: &Expression) -> (r: serde_json::Value)
    ensures
        json_contents(r) == arg_json(arg@),
{
    match arg {
        Expression::String(s) => json_string(s.clone()),
        Expression::Regex(r) => {
            let mut t = "/".to_string();
            t.append(r.as_str());
            t.append("/");
            json_string(t)
        },
        Expression::Number(n) => json_i64(*n),
        Expression::Variable(v) => json_string(prefixed("$", v.as_str())),
        Expression::Capture(i) => json_string(prefixed("$", usize_to_string(*i).as_str())),
        Expression::CaptureName(n) => json_string(prefixed("$", n.as_str())),
    }
}

/// A node of the data tree as a JSON object (see [`out_node_json`]).
fn output_node_to_value(flat: &FlatTree, idx: usize) -> (r: serde_json::Value)
    requires
        flat.wf(),
        idx < flat.nodes@.len(),
    ensures
        json_contents(r) == out_node_json(*flat, idx as int),
    decreases flat.nodes@.len() - idx,
{
    let node = &flat.nodes[idx];
    proof {
        assert(flat_node_wf(flat.nodes@[idx as int], idx as int, flat.nodes@.len() as int, flat.attrs@.len() as int));
    }
    let mut obj = json_map_new();
    let attrs = flat.attrs_of(node);
    let mut a: usize = 0;
    proof {
        assert(json_map_contents(obj) =~= attrs_json(Map::empty(), attrs@.subrange(0, 0)));
    }
    while a < attrs.len()
        invariant
            a <= attrs@.len(),
            json_map_contents(obj) == attrs_json(Map::empty(), attrs@.subrange(0, a as int)),
        decreases attrs@.len() - a,
    {
        json_map_insert(&mut obj, prefixed("@", attrs[a].0.as_str()), json_string(attrs[a].1.clone()));
        proof {
            assert(attrs@.subrange(0, a + 1).drop_last() =~= attrs@.subrange(0, a as int));
        }
        a = a + 1;
    }
    proof {
        assert(attrs@.subrange(0, a as int) =~= attrs@);
    }
    match &node.text {
        Some(t) => {
            if t.unicode_len() > 0 {
                json_map_insert(&mut obj, "#text".to_string(), json_string(t.clone()));
            }
        },
        None => {},
    }
    let ghost m1 = json_map_contents(obj);
    if node.children_len > 0 {
        let cs = node.children_start as usize;
        let ce = cs + node.children_len as usize;
        let mut g = cs;
        while g < ce
            invariant
                flat.wf(),
                idx < cs <= g <= ce <= flat.nodes@.len(),
                out_groups_json(*flat, cs as int, ce as int, m1) == out_groups_json(*flat, g as int, ce as int, json_map_contents(obj)),
            decreases ce - g,
        {
            let e = group_end(flat, g, ce);
            let name = flat.nodes[g].name.clone();
            if e - g == 1 {
                let v = output_node_to_value(flat, g);
                json_map_insert(&mut obj, name, v);
            } else {
                let mut arr: Vec<serde_json::Value> = Vec::new();
                let mut k = g;
                proof {
                    assert(values_of(arr@) + out_items_json(*flat, g as int, e as int) =~= out_items_json(*flat, g as int, e as int));
                }
                while k < e
                    invariant
                        flat.wf(),
                        idx < g <= k <= e <= flat.nodes@.len(),
                        out_items_json(*flat, g as int, e as int) == values_of(arr@) + out_items_json(*flat, k as int, e as int),
                    decreases e - k,
                {
                    let v = output_node_to_value(flat, k);
                    let ghost prev = arr@;
                    arr.push(v);
                    proof {
                        assert(values_of(arr@) =~= values_of(prev).push(json_contents(v)));
                        assert(values_of(prev) + (seq![json_contents(v)] + out_items_json(*flat, k + 1, e as int))
                            =~= values_of(arr@) + out_items_json(*flat, k + 1, e as int));
                    }
                    k = k + 1;
                }
                proof {
                    assert(values_of(arr@) + out_items_json(*flat, k as int, e as int) =~= values_of(arr@));
                }
                json_map_insert(&mut obj, name, json_array(arr));
            }
            g = e;
        }
    }
    proof {
        assert(json_map_contents(obj) =~= (match out_node_json(*flat, idx as int) {
            JsonV::Obj(m) => m,
            _ => Map::empty(),
        }));
    }
    json_object(obj)
}

/// The contents of a list of strings as JSON strings.
fn strings_value(v: &Vec<String>) -> (r: serde_json::Value)
    ensures
        json_contents(r) == strs_json(v@),
{
    let mut out: Vec<serde_json::Value> = Vec::new();
    let mut i: usize = 0;
    while i < v.len()
        invariant
            i <= v@.len(),
            values_of(out@) =~= v@.subrange(0, i as int).map_values(|x: String| JsonV::Str(x@)),
        decreases v@.len() - i,
    {
        let s = json_string(v[i].clone());
        let ghost prev = out@;
        out.push(s);
        proof {
            assert(values_of(out@) =~= values_of(prev).push(json_contents(s)));
            assert(v@.subrange(0, i + 1) =~= v@.subrange(0, i as int).push(v@[i as int]));
        }
        i = i + 1;
    }
    proof {
        assert(v@.subrange(0, i as int) =~= v@);
    }
    json_array(out)
}

/// The group names of a scope as JSON strings, a missing name empty.
fn names_value(v: &Vec<Option<String>>) -> (r: serde_json::Value)
    ensures
        json_contents(r) == names_json(v@),
{
    let mut out: Vec<serde_json::Value> = Vec::new();
    let mut i: usize = 0;
    while i < v.len()
        invariant
            i <= v@.len(),
            values_of(out@) =~= v@.subrange(0, i as int).map_values(
                |o: Option<String>|
                    JsonV::Str(
                        match o {
                            Some(x) => x@,
                            None => seq![],
                        },
                    ),
            ),
        decreases v@.len() - i,
    {
        let s = json_string(match &v[i] {
            Some(n) => n.clone(),
            None => String::new(),
        });
        let ghost prev = out@;
        out.push(s);
        proof {
            assert(values_of(out@) =~= values_of(prev).push(json_contents(s)));
            assert(v@.subrange(0, i + 1) =~= v@.subrange(0, i as int).push(v@[i as int]));
        }
        i = i + 1;
    }
    proof {
        assert(v@.subrange(0, i as int) =~= v@);
    }
    json_array(out)
}

/// A performed action as a JSON object.
fn action_value(a: &FunctionCall) -> (r: serde_json::Value)
    ensures
        json_contents(r) == action_json(*a),
{
    let mut args: Vec<serde_json::Value> = Vec::new();
    let mut j: usize = 0;
    while j < a.args.len()
        invariant
            j <= a.args@.len(),
            values_of(args@) =~= exprs_view(a.args@).subrange(0, j as int).map_values(|e: ExprV| arg_json(e)),
        decreases a.args@.len() - j,
    {
        let v = arg_value(&a.args[j]);
        let ghost prev = args@;
        args.push(v);
        proof {
            assert(values_of(args@) =~= values_of(prev).push(json_contents(v)));
            assert(exprs_view(a.args@).subrange(0, j + 1) =~= exprs_view(a.args@).subrange(0, j as int).push(a.args@[j as int]@));
        }
        j = j + 1;
    }
    proof {
        assert(exprs_view(a.args@).subrange(0, j as int) =~= exprs_view(a.args@));
    }
    let mut m = json_map_new();
    json_map_insert(&mut m, "name".to_string(), json_string(a.name.clone()));
    json_map_insert(&mut m, "args".to_string(), json_array(args));
    proof {
        assert(json_map_contents(m) =~= (match action_json(*a) {
            JsonV::Obj(x) => x,
            _ => Map::empty(),
        }));
    }
    json_object(m)
}

/// A diagnostic as a JSON object.
fn diagnostic_value(d: &Diagnostic) -> (r: serde_json::Value)
    ensures
        json_contents(r) == diagnostic_json(*d),
{
    let mut m = json_map_new();
    json_map_insert(&mut m, "severity".to_string(), json_string(d.severity.to_string()));
    json_map_insert(&mut m, "message".to_string(), json_string(d.message.clone()));
    match &d.span {
        Some(s) => {
            json_map_insert(&mut m, "line".to_string(), json_u64(s.line as u64));
            json_map_insert(&mut m, "col".to_string(), json_u64(s.col as u64));
            json_map_insert(&mut m, "offset".to_string(), json_u64(s.offset as u64));
        },
        None => {},
    }
    proof {
        assert(json_map_contents(m) =~= (match diagnostic_json(*d) {
            JsonV::Obj(x) => x,
            _ => Map::empty(),
        }));
    }
    json_object(m)
}

/// The diagnostic envelope as pretty JSON: `consumed`, `actions`, `traces`,
/// `capture_history`, `capture_names_history`, `error`, `diagnostics`, `output`.
fn serialize_json(exec: &ExecutionResult, flat: &FlatTree) -> (r: String)
    requires
        flat.wf(),
    ensures
        r@ == json_pretty_text(envelope_json(*exec, *flat)),
{
    let mut actions: Vec<serde_json::Value> = Vec::new();
    let mut i: usize = 0;
    while i < exec.actions.len()
        invariant
            i <= exec.actions@.len(),
            values_of(actions@) =~= exec.actions@.subrange(0, i as int).map_values(|c: FunctionCall| action_json(c)),
        decreases exec.actions@.len() - i,
    {
        let v = action_value(&exec.actions[i]);
        let ghost prev = actions@;
        actions.push(v);
        proof {
            assert(values_of(actions@) =~= values_of(prev).push(json_contents(v)));
            assert(exec.actions@.subrange(0, i + 1) =~= exec.actions@.subrange(0, i as int).push(exec.actions@[i as int]));
        }
        i = i + 1;
    }
    proof {
        assert(exec.actions@.subrange(0, i as int) =~= exec.actions@);
    }
    let mut diagnostics: Vec<serde_json::Value> = Vec::new();
    let mut i: usize = 0;
    while i < exec.diagnostics.len()
        invariant
            i <= exec.diagnostics@.len(),
            values_of(diagnostics@) =~= exec.diagnostics@.subrange(0, i as int).map_values(|d: Diagnostic| diagnostic_json(d)),
        decreases exec.diagnostics@.len() - i,
    {
        let v = diagnostic_value(&exec.diagnostics[i]);
        let ghost prev = diagnostics@;
        diagnostics.push(v);
        proof {
            assert(values_of(diagnostics@) =~= values_of(prev).push(json_contents(v)));
            assert(exec.diagnostics@.subrange(0, i + 1) =~= exec.diagnostics@.subrange(0, i as int).push(exec.diagnostics@[i as int]));
        }
        i = i + 1;
    }
    proof {
        assert(exec.diagnostics@.subrange(0, i as int) =~= exec.diagnostics@);
    }
    let traces = strings_value(&exec.traces);
    let mut history: Vec<serde_json::Value> = Vec::new();
    let mut i: usize = 0;
    while i < exec.capture_history.len()
        invariant
            i <= exec.capture_history@.len(),
            values_of(history@) =~= exec.capture_history@.subrange(0, i as int).map_values(|v: Vec<String>| strs_json(v@)),
        decreases exec.capture_history@.len() - i,
    {
        let v = strings_value(&exec.capture_history[i]);
        let ghost prev = history@;
        history.push(v);
        proof {
            assert(values_of(history@) =~= values_of(prev).push(json_contents(v)));
            assert(exec.capture_history@.subrange(0, i + 1) =~= exec.capture_history@.subrange(0, i as int).push(exec.capture_history@[i as int]));
        }
        i = i + 1;
    }
    proof {
        assert(exec.capture_history@.subrange(0, i as int) =~= exec.capture_history@);
    }
    let mut names_history: Vec<serde_json::Value> = Vec::new();
    let mut i: usize = 0;
    while i < exec.capture_names_history.len()
        invariant
            i <= exec.capture_names_history@.len(),
            values_of(names_history@) =~= exec.capture_names_history@.subrange(0, i as int).map_values(
                |v: Vec<Option<String>>| names_json(v@),
            ),
        decreases exec.capture_names_history@.len() - i,
    {
        let v = names_value(&exec.capture_names_history[i]);
        let ghost prev = names_history@;
        names_history.push(v);
        proof {
            assert(values_of(names_history@) =~= values_of(prev).push(json_contents(v)));
            assert(exec.capture_names_history@.subrange(0, i + 1) =~= exec.capture_names_history@.subrange(0, i as int).push(
                exec.capture_names_history@[i as int],
            ));
        }
        i = i + 1;
    }
    proof {
        assert(exec.capture_names_history@.subrange(0, i as int) =~= exec.capture_names_history@);
    }
    let mut m = json_map_new();
    json_map_insert(&mut m, "consumed".to_string(), json_u64(exec.consumed as u64));
    json_map_insert(&mut m, "actions".to_string(), json_array(actions));
    json_map_insert(&mut m, "traces".to_string(), traces);
    json_map_insert(&mut m, "capture_history".to_string(), json_array(history));
    json_map_insert(&mut m, "capture_names_history".to_string(), json_array(names_history));
    json_map_insert(&mut m, "error".to_string(), match &exec.error {
        Some(e) => json_string(e.clone()),
        None => json_null(),
    });
    json_map_insert(&mut m, "diagnostics".to_string(), json_array(diagnostics));
    json_map_insert(&mut m, "output".to_string(), output_node_to_value(flat, 0));
    proof {
        assert(json_map_contents(m) =~= (match envelope_json(*exec, *flat) {
            JsonV::Obj(x) => x,
            _ => Map::empty(),
        }));
    }
    let value = json_object(m);
    json_pretty(&value)
}

/// Serializes the diagnostic envelope of an execution: JSON through
/// `serde_json`, XML through `quick_xml`, YAML as [`yaml_envelope`] states;
/// nothing for [`RuntimeFormat::Empty`].
pub fn serialize_execution(result: &ExecutionResult, format: RuntimeFormat) -> (r: String)
    requires
        format != RuntimeFormat::Empty ==> (result.flat matches Some(f) && f.wf()),
    ensures
        format == RuntimeFormat::Empty ==> r@.len() == 0,
        format == RuntimeFormat::Yaml ==> r@ == yaml_envelope(*result, result.flat->0),
        format == RuntimeFormat::Json ==> r@ == json_pretty_text(envelope_json(*result, result.flat->0)),
        format == RuntimeFormat::Xml ==> r@ == envelope_xml(*result, result.flat->0),
{
    match format {
        RuntimeFormat::Empty => String::new(),
        _ => {
            let flat = match &result.flat {
                Some(f) => f,
                None => { return String::new(); },
            };
            match format {
                RuntimeFormat::Json => serialize_json(result, flat),
                RuntimeFormat::Xml => serialize_xml(result, flat),
                _ => serialize_yaml(result, flat),
            }
        },
    }
}

/// The text of a data tree in a format (nothing for [`RuntimeFormat::Empty`]).
pub open spec fn tree_text(t: FlatTree, format: RuntimeFormat) -> Seq<char> {
    match format {
        RuntimeFormat::Json => tree_json_spec(t),
        RuntimeFormat::Yaml => tree_yaml_spec(t),
        RuntimeFormat::Xml => tree_xml_spec(t),
        RuntimeFormat::Empty => Seq::empty(),
    }
}

/// Serializes the bare data tree of an execution: pretty JSON ([`tree_json_spec`]), lxml-style XML ([`tree_xml_spec`]),
/// PyYAML-style YAML ([`tree_yaml_spec`]); nothing for
/// [`RuntimeFormat::Empty`].
pub fn serialize_tree(result: &ExecutionResult, format: RuntimeFormat) -> (r: String)
    requires
        format != RuntimeFormat::Empty ==> (result.flat matches Some(f) && f.wf()),
    ensures
        format == RuntimeFormat::Empty ==> r@.len() == 0,
        format == RuntimeFormat::Json ==> r@ == tree_json_spec(result.flat->0),
        format == RuntimeFormat::Yaml ==> r@ == tree_yaml_spec(result.flat->0),
        format == RuntimeFormat::Xml ==> r@ == tree_xml_spec(result.flat->0) && r@.len() > 0 && r@.last() == '\n',
        format != RuntimeFormat::Empty ==> r@ == tree_text(result.flat->0, format),
{
    match format {
        RuntimeFormat::Empty => String::new(),
        _ => {
            let flat = match &result.flat {
                Some(f) => f,
                None => { return String::new(); },
            };
            match format {
                RuntimeFormat::Json => tree_json(flat),
                RuntimeFormat::Xml => tree_xml(flat),
                _ => tree_yaml(flat),
            }
        },
    }
}

/// Checks a flat tree's well-formedness at run time (its fields are public).
pub fn flat_tree_ok(flat: &FlatTree) -> (r: bool)
    ensures
        r == flat.wf(),
{
    let n = flat.nodes.len();
    if n == 0 || n > 4294967295 {
        return false;
    }
    let na = flat.attrs.len();
    let mut i: usize = 0;
    while i < n
        invariant
            i <= n == flat.nodes@.len(),
            na == flat.attrs@.len(),
            forall|k: int| 0 <= k < i ==> flat_node_wf(#[trigger] flat.nodes@[k], k, n as int, na as int),
        decreases n - i,
    {
        let node = &flat.nodes[i];
        let a_ok = (node.attr_start as usize) <= na && (node.attr_len as usize) <= na - node.attr_start as usize;
        let c_ok = node.children_len == 0 || (i < node.children_start as usize && (node.children_start as usize) <= n
            && (node.children_len as usize) <= n - node.children_start as usize);
        if !a_ok || !c_ok {
            return false;
        }
        i = i + 1;
    }
    true
}

} // verus!
