//! XML output: the bare data tree as lxml writes it (elements named like the
//! nodes, attributes as XML attributes) and the diagnostic envelope, both
//! written through `quick_xml`.

use vstd::prelude::*;
use crate::exec::out::{FlatTree, flat_node_wf, has_text, node_attrs, node_has_text, node_text};
use crate::exec::runner::ExecutionResult;
use crate::parser::ast::{Expression, FunctionCall};
use crate::text::{decimal, utf8_lossy, bytes_to_string, chars_to_string, i64_to_string, str_eq, str_to_chars, usize_to_string, utf8_decode};
use crate::xmlw::{
    pairs_view, qx_escape, xml_escape, xml_finish, xml_rendered, xml_write, xml_writer, xml_written, XmlEvent, XmlEventV,
};
use vstd::utf8::{decode_utf8, valid_utf8};

verus! {

/// A character of text content as lxml escapes it: only `<`, `>` and `&`.
pub open spec fn lxml_escape_char(c: char) -> Seq<char> {
    if c == '<' {
        seq!['&', 'l', 't', ';']
    } else if c == '>' {
        seq!['&', 'g', 't', ';']
    } else if c == '&' {
        seq!['&', 'a', 'm', 'p', ';']
    } else {
        seq![c]
    }
}

/// Text content as lxml escapes it (quotes stay as they are).
pub open spec fn lxml_escape(s: Seq<char>) -> Seq<char>
    decreases s.len(),
{
    if s.len() == 0 {
        Seq::empty()
    } else {
        lxml_escape(s.drop_last()) + lxml_escape_char(s.last())
    }
}

/// Escapes text content the way lxml does (see [`lxml_escape`]).
pub fn xml_escape_text_content(s: &str) -> (r: String)
    ensures
        r@ == lxml_escape(s@),
{
    let v = str_to_chars(s);
    let mut out: Vec<char> = Vec::new();
    let mut i: usize = 0;
    while i < v.len()
        invariant
            i <= v@.len(),
            v@ == s@,
            out@ == lxml_escape(v@.subrange(0, i as int)),
        decreases v@.len() - i,
    {
        let c = v[i];
        let ghost before = out@;
        if c == '<' {
            out.push('&');
            out.push('l');
            out.push('t');
            out.push(';');
        } else if c == '>' {
            out.push('&');
            out.push('g');
            out.push('t');
            out.push(';');
        } else if c == '&' {
            out.push('&');
            out.push('a');
            out.push('m');
            out.push('p');
            out.push(';');
        } else {
            out.push(c);
        }
        proof {
            assert(v@.subrange(0, i + 1).drop_last() =~= v@.subrange(0, i as int));
            assert(out@ =~= before + lxml_escape_char(c));
        }
        i = i + 1;
    }
    assert(v@.subrange(0, v@.len() as int) =~= v@);
    chars_to_string(out.as_slice())
}

/// The entity `&apos;`.
pub open spec fn apos_entity() -> Seq<char> {
    seq!['&', 'a', 'p', 'o', 's', ';']
}

/// Whether `&apos;` starts at index `i` of `s`.
pub open spec fn apos_at(s: Seq<char>, i: int) -> bool {
    0 <= i && i + 6 <= s.len() && s.subrange(i, i + 6) == apos_entity()
}

/// `s[i..]` with every `&apos;` (read left to right) turned into `'`.
pub open spec fn unapos_from(s: Seq<char>, i: int) -> Seq<char>
    decreases s.len() - i,
{
    if i < 0 || i >= s.len() {
        Seq::empty()
    } else if apos_at(s, i) {
        seq!['\''] + unapos_from(s, i + 6)
    } else {
        seq![s[i]] + unapos_from(s, i + 1)
    }
}

/// Turns every `&apos;` of a text into `'` (quick_xml escapes `'` in
/// attribute values, lxml does not).
pub fn unescape_apos(s: &str) -> (r: String)
    ensures
        r@ == unapos_from(s@, 0),
{
    let v = str_to_chars(s);
    let n = v.len();
    let mut out: Vec<char> = Vec::new();
    let mut i: usize = 0;
    while i < n
        invariant
            i <= n == v@.len(),
            v@ == s@,
            unapos_from(v@, 0) == out@ + unapos_from(v@, i as int),
        decreases n - i,
    {
        let ghost before = out@;
        if n - i >= 6 && v[i] == '&' && v[i + 1] == 'a' && v[i + 2] == 'p' && v[i + 3] == 'o' && v[i + 4] == 's' && v[i
            + 5] == ';' {
            proof {
                assert(v@.subrange(i as int, i + 6) =~= apos_entity());
            }
            out.push('\'');
            proof {
                assert(unapos_from(v@, i as int) == seq!['\''] + unapos_from(v@, i + 6));
                assert(before + unapos_from(v@, i as int) =~= out@ + unapos_from(v@, i + 6));
            }
            i = i + 6;
        } else {
            proof {
                if apos_at(v@, i as int) {
                    assert(v@.subrange(i as int, i + 6)[0] == v@[i as int]);
                    assert(v@.subrange(i as int, i + 6)[1] == v@[i + 1]);
                    assert(v@.subrange(i as int, i + 6)[2] == v@[i + 2]);
                    assert(v@.subrange(i as int, i + 6)[3] == v@[i + 3]);
                    assert(v@.subrange(i as int, i + 6)[4] == v@[i + 4]);
                    assert(v@.subrange(i as int, i + 6)[5] == v@[i + 5]);
                }
            }
            out.push(v[i]);
            proof {
                assert(unapos_from(v@, i as int) == seq![v@[i as int]] + unapos_from(v@, i + 1));
                assert(before + unapos_from(v@, i as int) =~= out@ + unapos_from(v@, i + 1));
            }
            i = i + 1;
        }
    }
    assert(out@ + unapos_from(v@, n as int) =~= out@);
    chars_to_string(out.as_slice())
}

/// Attribute pairs copied.
fn copy_pairs(a: &[(String, String)]) -> (r: Vec<(String, String)>)
    ensures
        pairs_view(r@) == pairs_view(a@),
{
    let mut out: Vec<(String, String)> = Vec::new();
    let mut i: usize = 0;
    while i < a.len()
        invariant
            i <= a@.len(),
            pairs_view(out@) =~= pairs_view(a@.subrange(0, i as int)),
        decreases a@.len() - i,
    {
        let ghost prev = out@;
        out.push((a[i].0.clone(), a[i].1.clone()));
        proof {
            assert(pairs_view(out@) =~= pairs_view(prev).push((a@[i as int].0@, a@[i as int].1@)));
            assert(a@.subrange(0, i + 1) =~= a@.subrange(0, i as int).push(a@[i as int]));
        }
        i = i + 1;
    }
    proof {
        assert(a@.subrange(0, i as int) =~= a@);
    }
    out
}

/// Writes a start tag.
fn start(w: &mut quick_xml::Writer<Vec<u8>>, name: &str, attrs: &[(String, String)])
    ensures
        xml_written(*final(w)) == xml_written(*old(w)).push(XmlEventV::Start(name@, pairs_view(attrs@))),
{
    let ev = XmlEvent::Start(name.to_string(), copy_pairs(attrs));
    xml_write(w, &ev);
}

/// Writes an empty element.
fn empty(w: &mut quick_xml::Writer<Vec<u8>>, name: &str, attrs: &[(String, String)])
    ensures
        xml_written(*final(w)) == xml_written(*old(w)).push(XmlEventV::Empty(name@, pairs_view(attrs@))),
{
    let ev = XmlEvent::Empty(name.to_string(), copy_pairs(attrs));
    xml_write(w, &ev);
}

/// Writes an end tag.
fn end(w: &mut quick_xml::Writer<Vec<u8>>, name: &str)
    ensures
        xml_written(*final(w)) == xml_written(*old(w)).push(XmlEventV::End(name@)),
{
    let ev = XmlEvent::End(name.to_string());
    xml_write(w, &ev);
}

/// Writes already-escaped text content.
fn text(w: &mut quick_xml::Writer<Vec<u8>>, escaped: &str)
    ensures
        xml_written(*final(w)) == xml_written(*old(w)).push(XmlEventV::Text(escaped@)),
{
    let ev = XmlEvent::Text(escaped.to_string());
    xml_write(w, &ev);
}

/// Node `idx` of the data tree as events: an element named like the node with
/// its attributes, its text (lxml escaping) and its children; an empty element
/// when it has neither text nor children.
pub open spec fn tree_node_events(t: FlatTree, idx: int) -> Seq<XmlEventV>
    decreases t.nodes@.len() - idx, 1int,
{
    if 0 <= idx < t.nodes@.len() {
        let n = t.nodes@[idx];
        let tag = n.name@;
        let attrs = pairs_view(node_attrs(t, n));
        let cs = n.children_start as int;
        let ce = cs + n.children_len;
        if !node_has_text(n) && n.children_len == 0 {
            seq![XmlEventV::Empty(tag, attrs)]
        } else {
            seq![XmlEventV::Start(tag, attrs)] + (if node_has_text(n) {
                seq![XmlEventV::Text(lxml_escape(node_text(n)))]
            } else {
                seq![]
            }) + (if n.children_len > 0 && idx < cs && ce <= t.nodes@.len() {
                tree_children_events(t, cs, ce)
            } else {
                seq![]
            }) + seq![XmlEventV::End(tag)]
        }
    } else {
        seq![]
    }
}

/// Nodes `k .. ce` as events, one after the other.
pub open spec fn tree_children_events(t: FlatTree, k: int, ce: int) -> Seq<XmlEventV>
    decreases t.nodes@.len() - k + 1, 0int,
{
    if 0 <= k < ce <= t.nodes@.len() {
        tree_node_events(t, k) + tree_children_events(t, k + 1, ce)
    } else {
        seq![]
    }
}

/// Writes node `idx` of the data tree (see [`tree_node_events`]).
fn tree_xml_node(flat: &FlatTree, idx: usize, w: &mut quick_xml::Writer<Vec<u8>>)
    requires
        flat.wf(),
        idx < flat.nodes@.len(),
    ensures
        xml_written(*final(w)) == xml_written(*old(w)) + tree_node_events(*flat, idx as int),
    decreases flat.nodes@.len() - idx,
{
    let node = &flat.nodes[idx];
    proof {
        assert(flat_node_wf(flat.nodes@[idx as int], idx as int, flat.nodes@.len() as int, flat.attrs@.len() as int));
    }
    let tag = node.name.as_str();
    let with_text = has_text(node);
    let attrs = flat.attrs_of(node);
    if !with_text && node.children_len == 0 {
        empty(w, tag, attrs);
        proof {
            assert(xml_written(*w) =~= xml_written(*old(w)) + tree_node_events(*flat, idx as int));
        }
        return;
    }
    start(w, tag, attrs);
    if with_text {
        match &node.text {
            Some(t) => {
                let escaped = xml_escape_text_content(t.as_str());
                text(w, escaped.as_str());
            },
            None => {},
        }
    }
    let ghost mid = xml_written(*w);
    if node.children_len > 0 {
        let cs = node.children_start as usize;
        let ce = cs + node.children_len as usize;
        let mut k = cs;
        proof {
            assert(xml_written(*w) =~= mid + Seq::<XmlEventV>::empty());
        }
        while k < ce
            invariant
                flat.wf(),
                idx < cs <= k <= ce <= flat.nodes@.len(),
                mid + tree_children_events(*flat, cs as int, ce as int) == xml_written(*w) + tree_children_events(
                    *flat,
                    k as int,
                    ce as int,
                ),
            decreases ce - k,
        {
            let ghost before = xml_written(*w);
            tree_xml_node(flat, k, w);
            proof {
                assert(before + tree_children_events(*flat, k as int, ce as int) =~= xml_written(*w)
                    + tree_children_events(*flat, k + 1, ce as int));
            }
            k = k + 1;
        }
        proof {
            assert(xml_written(*w) + tree_children_events(*flat, k as int, ce as int) =~= xml_written(*w));
        }
    }
    end(w, tag);
    proof {
        assert(xml_written(*w) =~= xml_written(*old(w)) + tree_node_events(*flat, idx as int));
    }
}

/// The root element's name: the root node's name, or `xml` when that is empty
/// or `.`.
pub open spec fn xml_root_name(name: Seq<char>) -> Seq<char> {
    if name.len() == 0 || name == seq!['.'] {
        "xml"@
    } else {
        name
    }
}

/// The data tree as events: the root element (named by [`xml_root_name`]) with
/// the root's attributes and text, then each node below it.
pub open spec fn tree_xml_events(t: FlatTree) -> Seq<XmlEventV> {
    let n = t.nodes@[0];
    let name = xml_root_name(n.name@);
    let cs = n.children_start as int;
    let ce = cs + n.children_len;
    seq![XmlEventV::Start(name, pairs_view(node_attrs(t, n)))] + (if node_has_text(n) {
        seq![XmlEventV::Text(lxml_escape(node_text(n)))]
    } else {
        seq![]
    }) + (if n.children_len > 0 {
        tree_children_events(t, cs, ce)
    } else {
        seq![]
    }) + seq![XmlEventV::End(name)]
}

/// The data tree as lxml writes it: the events of [`tree_xml_events`] as
/// quick_xml writes them, read as UTF-8, every `&apos;` turned into `'`, and a
/// final line break.
pub open spec fn tree_xml_spec(t: FlatTree) -> Seq<char> {
    unapos_from(utf8_lossy(xml_rendered(tree_xml_events(t))), 0) + seq!['\n']
}

/// The data tree as lxml writes it (see [`tree_xml_spec`]).
pub fn tree_xml(flat: &FlatTree) -> (r: String)
    requires
        flat.wf(),
    ensures
        r@ == tree_xml_spec(*flat),
        r@.len() > 0,
        r@.last() == '\n',
{
    let root = &flat.nodes[0];
    proof {
        assert(flat_node_wf(flat.nodes@[0], 0, flat.nodes@.len() as int, flat.attrs@.len() as int));
    }
    let dot = ['.'];
    let dot_s = chars_to_string(dot.as_slice());
    let use_default = root.name.unicode_len() == 0 || str_eq(root.name.as_str(), dot_s.as_str());
    let root_name: String = if use_default {
        "xml".to_string()
    } else {
        root.name.clone()
    };
    proof {
        assert(dot_s@ =~= seq!['.']);
        assert(root_name@ == xml_root_name(root.name@));
    }
    let mut w = xml_writer();
    let attrs = flat.attrs_of(root);
    start(&mut w, root_name.as_str(), attrs);
    if has_text(root) {
        match &root.text {
            Some(t) => {
                let escaped = xml_escape_text_content(t.as_str());
                text(&mut w, escaped.as_str());
            },
            None => {},
        }
    }
    let ghost mid = xml_written(w);
    if root.children_len > 0 {
        let cs = root.children_start as usize;
        let ce = cs + root.children_len as usize;
        let mut k = cs;
        proof {
            assert(xml_written(w) =~= mid + Seq::<XmlEventV>::empty());
        }
        while k < ce
            invariant
                flat.wf(),
                0 < cs <= k <= ce <= flat.nodes@.len(),
                mid + tree_children_events(*flat, cs as int, ce as int) == xml_written(w) + tree_children_events(
                    *flat,
                    k as int,
                    ce as int,
                ),
            decreases ce - k,
        {
            let ghost before = xml_written(w);
            tree_xml_node(flat, k, &mut w);
            proof {
                assert(before + tree_children_events(*flat, k as int, ce as int) =~= xml_written(w)
                    + tree_children_events(*flat, k + 1, ce as int));
            }
            k = k + 1;
        }
        proof {
            assert(xml_written(w) + tree_children_events(*flat, k as int, ce as int) =~= xml_written(w));
        }
    }
    end(&mut w, root_name.as_str());
    proof {
        assert(xml_written(w) =~= tree_xml_events(*flat));
    }
    let bytes = xml_finish(w);
    let txt = bytes_to_string(bytes.as_slice());
    let mut out = unescape_apos(txt.as_str());
    let nl = ['\n'];
    let nl_s = chars_to_string(nl.as_slice());
    out.append(nl_s.as_str());
    proof {
        assert(nl_s@ =~= seq!['\n']);
    }
    out
}

/// The text of an action argument in the envelope: strings, regexes and
/// variable names as they are, numbers in decimal, captures as `$name`.
pub open spec fn xml_arg_text(e: Expression) -> Seq<char> {
    match e {
        Expression::String(s) => s@,
        Expression::Regex(r) => r@,
        Expression::Number(n) => crate::text::decimal_int(n as int),
        Expression::Variable(v) => v@,
        Expression::Capture(i) => seq!['$'] + crate::text::decimal(i as nat),
        Expression::CaptureName(n) => seq!['$'] + n@,
    }
}

fn arg_text(e: &Expression) -> (r: String)
    ensures
        r@ == xml_arg_text(*e),
{
    let dollar = ['$'];
    match e {
        Expression::String(s) => s.clone(),
        Expression::Regex(r) => r.clone(),
        Expression::Number(n) => i64_to_string(*n),
        Expression::Variable(v) => v.clone(),
        Expression::Capture(i) => {
            let mut t = chars_to_string(dollar.as_slice());
            t.append(usize_to_string(*i).as_str());
            assert(t@ =~= seq!['$'] + crate::text::decimal(*i as nat));
            t
        },
        Expression::CaptureName(n) => {
            let mut t = chars_to_string(dollar.as_slice());
            t.append(n.as_str());
            assert(t@ =~= seq!['$'] + n@);
            t
        },
    }
}

/// An element holding one escaped text: start, text, end.
pub open spec fn text_element(name: Seq<char>, attrs: Seq<(Seq<char>, Seq<char>)>, content: Seq<char>) -> Seq<XmlEventV> {
    seq![XmlEventV::Start(name, attrs), XmlEventV::Text(qx_escape(content)), XmlEventV::End(name)]
}

/// Writes an element holding one text, escaped by quick_xml.
fn text_elem(w: &mut quick_xml::Writer<Vec<u8>>, name: &str, attrs: &[(String, String)], content: &str)
    ensures
        xml_written(*final(w)) == xml_written(*old(w)) + text_element(name@, pairs_view(attrs@), content@),
{
    start(w, name, attrs);
    let escaped = xml_escape(content);
    text(w, escaped.as_str());
    end(w, name);
    proof {
        assert(xml_written(*w) =~= xml_written(*old(w)) + text_element(name@, pairs_view(attrs@), content@));
    }
}

/// One attribute pair.
fn attr1(k: &str, v: &str) -> (r: Vec<(String, String)>)
    ensures
        r@.len() == 1,
        r@[0].0@ == k@,
        r@[0].1@ == v@,
        pairs_view(r@) == seq![(k@, v@)],
{
    let mut a: Vec<(String, String)> = Vec::new();
    a.push((k.to_string(), v.to_string()));
    proof {
        assert(pairs_view(a@) =~= seq![(k@, v@)]);
    }
    a
}

/// The `<attr key=.. value=..>` elements of attribute pairs.
pub open spec fn attr_events(a: Seq<(String, String)>) -> Seq<XmlEventV>
    decreases a.len(),
{
    if a.len() == 0 {
        seq![]
    } else {
        attr_events(a.drop_last()) + seq![XmlEventV::Empty("attr"@, seq![("key"@, a.last().0@), ("value"@, a.last().1@)])]
    }
}

/// Node `idx` in the envelope: `<node name=..>`, an empty `<attr key=..
/// value=..>` per attribute, its text when it has one (even empty), its
/// children, `</node>`.
pub open spec fn env_node_events(t: FlatTree, idx: int) -> Seq<XmlEventV>
    decreases t.nodes@.len() - idx, 1int,
{
    if 0 <= idx < t.nodes@.len() {
        let n = t.nodes@[idx];
        let cs = n.children_start as int;
        let ce = cs + n.children_len;
        seq![XmlEventV::Start("node"@, seq![("name"@, n.name@)])] + attr_events(node_attrs(t, n)) + (match n.text {
            Some(x) => seq![XmlEventV::Text(qx_escape(x@))],
            None => seq![],
        }) + (if n.children_len > 0 && idx < cs && ce <= t.nodes@.len() {
            env_children_events(t, cs, ce)
        } else {
            seq![]
        }) + seq![XmlEventV::End("node"@)]
    } else {
        seq![]
    }
}

/// Nodes `k .. ce` in the envelope, one after the other.
pub open spec fn env_children_events(t: FlatTree, k: int, ce: int) -> Seq<XmlEventV>
    decreases t.nodes@.len() - k + 1, 0int,
{
    if 0 <= k < ce <= t.nodes@.len() {
        env_node_events(t, k) + env_children_events(t, k + 1, ce)
    } else {
        seq![]
    }
}

/// Writes node `idx` in the envelope (see [`env_node_events`]).
fn xml_write_node(flat: &FlatTree, idx: usize, w: &mut quick_xml::Writer<Vec<u8>>)
    requires
        flat.wf(),
        idx < flat.nodes@.len(),
    ensures
        xml_written(*final(w)) == xml_written(*old(w)) + env_node_events(*flat, idx as int),
    decreases flat.nodes@.len() - idx,
{
    let node = &flat.nodes[idx];
    proof {
        assert(flat_node_wf(flat.nodes@[idx as int], idx as int, flat.nodes@.len() as int, flat.attrs@.len() as int));
    }
    start(w, "node", attr1("name", node.name.as_str()).as_slice());
    let attrs = flat.attrs_of(node);
    let ghost a0 = xml_written(*w);
    let mut a: usize = 0;
    proof {
        assert(xml_written(*w) =~= a0 + attr_events(attrs@.subrange(0, 0)));
    }
    while a < attrs.len()
        invariant
            a <= attrs@.len(),
            xml_written(*w) == a0 + attr_events(attrs@.subrange(0, a as int)),
        decreases attrs@.len() - a,
    {
        let mut kv: Vec<(String, String)> = Vec::new();
        kv.push(("key".to_string(), attrs[a].0.clone()));
        kv.push(("value".to_string(), attrs[a].1.clone()));
        proof {
            assert(pairs_view(kv@) =~= seq![("key"@, attrs@[a as int].0@), ("value"@, attrs@[a as int].1@)]);
            assert(attrs@.subrange(0, a + 1).drop_last() =~= attrs@.subrange(0, a as int));
        }
        empty(w, "attr", kv.as_slice());
        proof {
            assert(xml_written(*w) =~= a0 + attr_events(attrs@.subrange(0, a + 1)));
        }
        a = a + 1;
    }
    proof {
        assert(attrs@.subrange(0, a as int) =~= attrs@);
    }
    match &node.text {
        Some(t) => {
            let escaped = xml_escape(t.as_str());
            text(w, escaped.as_str());
        },
        None => {},
    }
    let ghost mid = xml_written(*w);
    if node.children_len > 0 {
        let cs = node.children_start as usize;
        let ce = cs + node.children_len as usize;
        let mut k = cs;
        proof {
            assert(xml_written(*w) =~= mid + Seq::<XmlEventV>::empty());
        }
        while k < ce
            invariant
                flat.wf(),
                idx < cs <= k <= ce <= flat.nodes@.len(),
                mid + env_children_events(*flat, cs as int, ce as int) == xml_written(*w) + env_children_events(
                    *flat,
                    k as int,
                    ce as int,
                ),
            decreases ce - k,
        {
            let ghost before = xml_written(*w);
            xml_write_node(flat, k, w);
            proof {
                assert(before + env_children_events(*flat, k as int, ce as int) =~= xml_written(*w)
                    + env_children_events(*flat, k + 1, ce as int));
            }
            k = k + 1;
        }
        proof {
            assert(xml_written(*w) + env_children_events(*flat, k as int, ce as int) =~= xml_written(*w));
        }
    }
    end(w, "node");
    proof {
        assert(xml_written(*w) =~= xml_written(*old(w)) + env_node_events(*flat, idx as int));
    }
}

/// The `<arg>` elements of an action's arguments.
pub open spec fn arg_events(args: Seq<Expression>) -> Seq<XmlEventV>
    decreases args.len(),
{
    if args.len() == 0 {
        seq![]
    } else {
        arg_events(args.drop_last()) + text_element("arg"@, seq![], xml_arg_text(args.last()))
    }
}

/// An `<action name=..>` element, with `<args>` when it has arguments.
pub open spec fn action_events(a: FunctionCall) -> Seq<XmlEventV> {
    seq![XmlEventV::Start("action"@, seq![("name"@, a.name@)])] + (if a.args@.len() > 0 {
        seq![XmlEventV::Start("args"@, seq![])] + arg_events(a.args@) + seq![XmlEventV::End("args"@)]
    } else {
        seq![]
    }) + seq![XmlEventV::End("action"@)]
}

/// The actions' elements, one after the other.
pub open spec fn actions_events(acts: Seq<FunctionCall>) -> Seq<XmlEventV>
    decreases acts.len(),
{
    if acts.len() == 0 {
        seq![]
    } else {
        actions_events(acts.drop_last()) + action_events(acts.last())
    }
}

/// The `<trace>` elements.
pub open spec fn trace_events(ts: Seq<String>) -> Seq<XmlEventV>
    decreases ts.len(),
{
    if ts.len() == 0 {
        seq![]
    } else {
        trace_events(ts.drop_last()) + text_element("trace"@, seq![], ts.last()@)
    }
}

/// The group name of value `j` of capture scope `i` (empty when it has none).
pub open spec fn value_name(exec: ExecutionResult, i: int, j: int) -> Seq<char> {
    if i < exec.capture_names_history@.len() && j < exec.capture_names_history@[i]@.len() {
        match exec.capture_names_history@[i]@[j] {
            Some(n) => n@,
            None => seq![],
        }
    } else {
        seq![]
    }
}

/// The `<value name=..>` elements of the first `n` values of capture scope `i`.
pub open spec fn value_events(exec: ExecutionResult, i: int, n: int) -> Seq<XmlEventV>
    decreases n,
{
    if n <= 0 {
        seq![]
    } else {
        value_events(exec, i, n - 1) + text_element(
            "value"@,
            seq![("name"@, value_name(exec, i, n - 1))],
            exec.capture_history@[i]@[n - 1]@,
        )
    }
}

/// The `<scope index=..>` elements of the first `n` capture scopes.
pub open spec fn scope_events(exec: ExecutionResult, n: int) -> Seq<XmlEventV>
    decreases n,
{
    if n <= 0 {
        seq![]
    } else {
        scope_events(exec, n - 1) + seq![XmlEventV::Start("scope"@, seq![("index"@, decimal((n - 1) as nat))])]
            + value_events(exec, n - 1, exec.capture_history@[n - 1]@.len() as int) + seq![XmlEventV::End("scope"@)]
    }
}

/// A section element around some events, or nothing when `present` is false.
pub open spec fn section(present: bool, name: Seq<char>, inner: Seq<XmlEventV>) -> Seq<XmlEventV> {
    if present {
        seq![XmlEventV::Start(name, seq![])] + inner + seq![XmlEventV::End(name)]
    } else {
        seq![]
    }
}

/// The diagnostic envelope as events: the declaration, then `<execution
/// consumed=..>` holding `actions`, `traces`, `captures` (each only when not
/// empty), `output` and `error`.
pub open spec fn envelope_events(exec: ExecutionResult, flat: FlatTree) -> Seq<XmlEventV> {
    seq![XmlEventV::Decl, XmlEventV::Start("execution"@, seq![("consumed"@, decimal(exec.consumed as nat))])] + section(
        exec.actions@.len() > 0,
        "actions"@,
        actions_events(exec.actions@),
    ) + section(exec.traces@.len() > 0, "traces"@, trace_events(exec.traces@)) + section(
        exec.capture_history@.len() > 0,
        "captures"@,
        scope_events(exec, exec.capture_history@.len() as int),
    ) + section(true, "output"@, env_node_events(flat, 0)) + section(true, "error"@, error_events(exec.error)) + seq![
        XmlEventV::End("execution"@),
    ]
}

/// The envelope's XML text: the events of [`envelope_events`] as quick_xml
/// writes them, read as UTF-8 (empty should they not be).
pub open spec fn envelope_xml(exec: ExecutionResult, flat: FlatTree) -> Seq<char> {
    let b = xml_rendered(envelope_events(exec, flat));
    if valid_utf8(b) {
        decode_utf8(b)
    } else {
        seq![]
    }
}

/// Writes one action's element (see [`action_events`]).
fn write_action(w: &mut quick_xml::Writer<Vec<u8>>, a: &FunctionCall)
    ensures
        xml_written(*final(w)) == xml_written(*old(w)) + action_events(*a),
{
    let none: Vec<(String, String)> = Vec::new();
    start(w, "action", attr1("name", a.name.as_str()).as_slice());
    if a.args.len() > 0 {
        start(w, "args", none.as_slice());
        let ghost a0 = xml_written(*w);
        let mut j: usize = 0;
        proof {
            assert(a.args@.subrange(0, 0) =~= Seq::<Expression>::empty());
            assert(xml_written(*w) =~= a0 + arg_events(a.args@.subrange(0, 0)));
        }
        while j < a.args.len()
            invariant
                j <= a.args@.len(),
                none@.len() == 0,
                xml_written(*w) == a0 + arg_events(a.args@.subrange(0, j as int)),
            decreases a.args@.len() - j,
        {
            let t = arg_text(&a.args[j]);
            text_elem(w, "arg", none.as_slice(), t.as_str());
            proof {
                assert(a.args@.subrange(0, j + 1).drop_last() =~= a.args@.subrange(0, j as int));
                assert(pairs_view(none@) =~= Seq::<(Seq<char>, Seq<char>)>::empty());
                assert(xml_written(*w) =~= a0 + arg_events(a.args@.subrange(0, j + 1)));
            }
            j = j + 1;
        }
        proof {
            assert(a.args@.subrange(0, j as int) =~= a.args@);
        }
        end(w, "args");
    }
    end(w, "action");
    proof {
        assert(pairs_view(none@) =~= Seq::<(Seq<char>, Seq<char>)>::empty());
        assert(xml_written(*w) =~= xml_written(*old(w)) + action_events(*a));
    }
}

/// Writes the value elements of capture scope `i`.
fn write_values(w: &mut quick_xml::Writer<Vec<u8>>, exec: &ExecutionResult, i: usize)
    requires
        i < exec.capture_history@.len(),
    ensures
        xml_written(*final(w)) == xml_written(*old(w)) + value_events(*exec, i as int, exec.capture_history@[i as int]@.len() as int),
{
    let scope = &exec.capture_history[i];
    let mut j: usize = 0;
    proof {
        assert(xml_written(*w) =~= xml_written(*old(w)) + value_events(*exec, i as int, 0));
    }
    while j < scope.len()
        invariant
            j <= scope@.len(),
            i < exec.capture_history@.len(),
            scope == exec.capture_history@[i as int],
            xml_written(*w) == xml_written(*old(w)) + value_events(*exec, i as int, j as int),
        decreases scope@.len() - j,
    {
        let name: &str = if i < exec.capture_names_history.len() && j < exec.capture_names_history[i].len() {
            match &exec.capture_names_history[i][j] {
                Some(n) => n.as_str(),
                None => "",
            }
        } else {
            ""
        };
        proof {
            reveal_strlit("");
            assert(name@ == value_name(*exec, i as int, j as int));
        }
        text_elem(w, "value", attr1("name", name).as_slice(), scope[j].as_str());
        proof {
            assert(xml_written(*w) =~= xml_written(*old(w)) + value_events(*exec, i as int, j + 1));
        }
        j = j + 1;
    }
}

/// Writes the `actions` section (see [`envelope_events`]).
fn write_actions(w: &mut quick_xml::Writer<Vec<u8>>, exec: &ExecutionResult)
    ensures
        xml_written(*final(w)) == xml_written(*old(w)) + section(exec.actions@.len() > 0, "actions"@, actions_events(exec.actions@)),
{
    if exec.actions.len() > 0 {
        let none: Vec<(String, String)> = Vec::new();
        start(w, "actions", none.as_slice());
        let ghost a0 = xml_written(*w);
        let mut i: usize = 0;
        proof {
            assert(exec.actions@.subrange(0, 0) =~= Seq::<FunctionCall>::empty());
            assert(xml_written(*w) =~= a0 + actions_events(exec.actions@.subrange(0, 0)));
        }
        while i < exec.actions.len()
            invariant
                i <= exec.actions@.len(),
                xml_written(*w) == a0 + actions_events(exec.actions@.subrange(0, i as int)),
            decreases exec.actions@.len() - i,
        {
            write_action(w, &exec.actions[i]);
            proof {
                assert(exec.actions@.subrange(0, i + 1).drop_last() =~= exec.actions@.subrange(0, i as int));
                assert(xml_written(*w) =~= a0 + actions_events(exec.actions@.subrange(0, i + 1)));
            }
            i = i + 1;
        }
        proof {
            assert(exec.actions@.subrange(0, i as int) =~= exec.actions@);
        }
        end(w, "actions");
        proof {
            assert(pairs_view(none@) =~= Seq::<(Seq<char>, Seq<char>)>::empty());
        }
    }
    proof {
        assert(xml_written(*w) =~= xml_written(*old(w)) + section(exec.actions@.len() > 0, "actions"@, actions_events(exec.actions@)));
    }
}

/// Writes the `traces` section (see [`envelope_events`]).
fn write_traces(w: &mut quick_xml::Writer<Vec<u8>>, exec: &ExecutionResult)
    ensures
        xml_written(*final(w)) == xml_written(*old(w)) + section(exec.traces@.len() > 0, "traces"@, trace_events(exec.traces@)),
{
    if exec.traces.len() > 0 {
        let none: Vec<(String, String)> = Vec::new();
        proof {
            assert(pairs_view(none@) =~= Seq::<(Seq<char>, Seq<char>)>::empty());
        }
        start(w, "traces", none.as_slice());
        let ghost t0 = xml_written(*w);
        let mut i: usize = 0;
        proof {
            assert(exec.traces@.subrange(0, 0) =~= Seq::<String>::empty());
            assert(xml_written(*w) =~= t0 + trace_events(exec.traces@.subrange(0, 0)));
        }
        while i < exec.traces.len()
            invariant
                i <= exec.traces@.len(),
                pairs_view(none@) == Seq::<(Seq<char>, Seq<char>)>::empty(),
                xml_written(*w) == t0 + trace_events(exec.traces@.subrange(0, i as int)),
            decreases exec.traces@.len() - i,
        {
            text_elem(w, "trace", none.as_slice(), exec.traces[i].as_str());
            proof {
                assert(exec.traces@.subrange(0, i + 1).drop_last() =~= exec.traces@.subrange(0, i as int));
                assert(xml_written(*w) =~= t0 + trace_events(exec.traces@.subrange(0, i + 1)));
            }
            i = i + 1;
        }
        proof {
            assert(exec.traces@.subrange(0, i as int) =~= exec.traces@);
        }
        end(w, "traces");
    }
    proof {
        assert(xml_written(*w) =~= xml_written(*old(w)) + section(exec.traces@.len() > 0, "traces"@, trace_events(exec.traces@)));
    }
}

/// Writes the `captures` section (see [`envelope_events`]).
fn write_captures(w: &mut quick_xml::Writer<Vec<u8>>, exec: &ExecutionResult)
    ensures
        xml_written(*final(w)) == xml_written(*old(w)) + section(
            exec.capture_history@.len() > 0,
            "captures"@,
            scope_events(*exec, exec.capture_history@.len() as int),
        ),
{
    if exec.capture_history.len() > 0 {
        let none: Vec<(String, String)> = Vec::new();
        proof {
            assert(pairs_view(none@) =~= Seq::<(Seq<char>, Seq<char>)>::empty());
        }
        start(w, "captures", none.as_slice());
        let ghost c0 = xml_written(*w);
        let mut i: usize = 0;
        proof {
            assert(xml_written(*w) =~= c0 + scope_events(*exec, 0));
        }
        while i < exec.capture_history.len()
            invariant
                i <= exec.capture_history@.len(),
                xml_written(*w) == c0 + scope_events(*exec, i as int),
            decreases exec.capture_history@.len() - i,
        {
            start(w, "scope", attr1("index", usize_to_string(i).as_str()).as_slice());
            write_values(w, exec, i);
            end(w, "scope");
            proof {
                assert(xml_written(*w) =~= c0 + scope_events(*exec, i + 1));
            }
            i = i + 1;
        }
        end(w, "captures");
    }
    proof {
        assert(xml_written(*w) =~= xml_written(*old(w)) + section(
            exec.capture_history@.len() > 0,
            "captures"@,
            scope_events(*exec, exec.capture_history@.len() as int),
        ));
    }
}

/// Writes the `output` section: the data tree's root node.
fn write_output(w: &mut quick_xml::Writer<Vec<u8>>, flat: &FlatTree)
    requires
        flat.wf(),
    ensures
        xml_written(*final(w)) == xml_written(*old(w)) + section(true, "output"@, env_node_events(*flat, 0)),
{
    let none: Vec<(String, String)> = Vec::new();
    start(w, "output", none.as_slice());
    xml_write_node(flat, 0, w);
    end(w, "output");
    proof {
        assert(pairs_view(none@) =~= Seq::<(Seq<char>, Seq<char>)>::empty());
        assert(xml_written(*w) =~= xml_written(*old(w)) + section(true, "output"@, env_node_events(*flat, 0)));
    }
}

/// The events of the `error` section's content.
pub open spec fn error_events(error: Option<String>) -> Seq<XmlEventV> {
    match error {
        Some(e) => seq![XmlEventV::Text(qx_escape(e@))],
        None => seq![],
    }
}

/// Writes the `error` section: the failure message, if any.
fn write_error(w: &mut quick_xml::Writer<Vec<u8>>, error: &Option<String>)
    ensures
        xml_written(*final(w)) == xml_written(*old(w)) + section(true, "error"@, error_events(*error)),
{
    let none: Vec<(String, String)> = Vec::new();
    start(w, "error", none.as_slice());
    match error {
        Some(e) => {
            let escaped = xml_escape(e.as_str());
            text(w, escaped.as_str());
        },
        None => {},
    }
    end(w, "error");
    proof {
        assert(pairs_view(none@) =~= Seq::<(Seq<char>, Seq<char>)>::empty());
        assert(xml_written(*w) =~= xml_written(*old(w)) + section(true, "error"@, error_events(*error)));
    }
}

/// The diagnostic envelope as XML (see [`envelope_xml`]).
pub fn serialize_xml(exec: &ExecutionResult, flat: &FlatTree) -> (r: String)
    requires
        flat.wf(),
    ensures
        r@ == envelope_xml(*exec, *flat),
{
    let mut w = xml_writer();
    xml_write(&mut w, &XmlEvent::Decl);
    start(&mut w, "execution", attr1("consumed", usize_to_string(exec.consumed).as_str()).as_slice());
    let ghost head = seq![XmlEventV::Decl, XmlEventV::Start("execution"@, seq![("consumed"@, decimal(exec.consumed as nat))])];
    proof {
        assert(xml_written(w) =~= head);
    }
    write_actions(&mut w, exec);
    write_traces(&mut w, exec);
    write_captures(&mut w, exec);
    write_output(&mut w, flat);
    write_error(&mut w, &exec.error);
    let ghost body = xml_written(w);
    end(&mut w, "execution");
    proof {
        assert(xml_written(w) =~= body + seq![XmlEventV::End("execution"@)]);
    }
    let bytes = xml_finish(w);
    match utf8_decode(bytes.as_slice()) {
        Some(s) => s,
        None => String::new(),
    }
}

} // verus!
