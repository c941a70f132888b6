use rustine::exec::out::{FlatNode, FlatTree, OutputTree};
use rustine::exec::runner::ExecutionResult;
use rustine::exec::xml_out::{unescape_apos, xml_escape_text_content};
use rustine::exec::yaml_out::{looks_like_date, looks_like_number};
use rustine::parser::ast::{Expression, FunctionCall};
use rustine::{serialize_execution, serialize_tree, RuntimeFormat};

fn node(name: &str, attr: (u32, u32), text: Option<&str>, children: (u32, u32)) -> FlatNode {
    FlatNode {
        name: name.to_string(),
        attr_start: attr.0,
        attr_len: attr.1,
        text: text.map(|t| t.to_string()),
        children_start: children.0,
        children_len: children.1,
    }
}

/// A root with two `item` children (the first with an attribute) and a `name` child.
fn sample_tree() -> FlatTree {
    FlatTree {
        nodes: vec![
            node(".", (0, 0), None, (1, 3)),
            node("item", (0, 1), Some("a: b"), (0, 0)),
            node("item", (0, 0), Some("42"), (0, 0)),
            node("name", (0, 0), Some("plain"), (0, 0)),
        ],
        attrs: vec![("id".to_string(), "1".to_string())],
    }
}

fn result_with(flat: FlatTree) -> ExecutionResult {
    ExecutionResult {
        consumed: 5,
        actions: vec![FunctionCall {
            name: "out.add".to_string(),
            args: vec![
                Expression::String("x y".to_string()),
                Expression::Number(-3),
                Expression::Capture(2),
                Expression::CaptureName("n".to_string()),
            ],
        }],
        traces: vec!["match consumed 5 chars".to_string()],
        diagnostics: vec![],
        capture_history: vec![vec!["ab".to_string(), "c".to_string()]],
        capture_names_history: vec![vec![Some("k".to_string()), None]],
        output: OutputTree::new(),
        flat: Some(flat),
        error: None,
    }
}

#[test]
fn tree_json_groups_runs_into_arrays() {
    let res = result_with(sample_tree());
    let json = serialize_tree(&res, RuntimeFormat::Json);
    let expected = "{\n    \"item\": [\n        {\n            \"@id\": \"1\",\n            \"#text\": \"a: b\"\n        },\n        {\n            \"#text\": \"42\"\n        }\n    ],\n    \"name\": {\n        \"#text\": \"plain\"\n    }\n}";
    assert_eq!(json, expected);
}

#[test]
fn tree_yaml_quotes_numbers_and_colons() {
    let res = result_with(sample_tree());
    let yaml = serialize_tree(&res, RuntimeFormat::Yaml);
    let expected = "item:\n- '@id': '1'\n    '#text': 'a: b'\n- '#text': '42'\nname:\n  '#text': plain\n\n";
    assert_eq!(yaml, expected);
}

#[test]
fn tree_xml_writes_elements_and_attributes() {
    let res = result_with(sample_tree());
    let xml = serialize_tree(&res, RuntimeFormat::Xml);
    assert!(xml.starts_with("<xml>"), "{xml}");
    assert!(xml.ends_with("</xml>\n"), "{xml}");
    assert!(xml.contains("<item id=\"1\">a: b</item>"), "{xml}");
    assert!(xml.contains("<item>42</item>"), "{xml}");
    assert!(xml.contains("<name>plain</name>"), "{xml}");
}

#[test]
fn tree_xml_keeps_apostrophes_in_attributes() {
    let flat = FlatTree {
        nodes: vec![node("root", (0, 1), Some("<&>"), (0, 0))],
        attrs: vec![("q".to_string(), "it's".to_string())],
    };
    let res = result_with(flat);
    let xml = serialize_tree(&res, RuntimeFormat::Xml);
    assert!(xml.starts_with("<root q=\"it's\">&lt;&amp;&gt;</root>"), "{xml}");
}

#[test]
fn empty_format_gives_empty_text() {
    let res = result_with(sample_tree());
    assert_eq!(serialize_tree(&res, RuntimeFormat::Empty), "");
    assert_eq!(serialize_execution(&res, RuntimeFormat::Empty), "");
}

#[test]
fn yaml_envelope_exact() {
    let res = result_with(sample_tree());
    let yaml = serialize_execution(&res, RuntimeFormat::Yaml);
    let expected = "execution:\n  consumed: 5\n  actions:\n    - name: out.add\n      args:\n        - \"x y\"\n        - -3\n        - \"$2\"\n        - \"$n\"\n  traces:\n    - \"match consumed 5 chars\"\n  capture_history:\n    - [ab, c]\n  capture_names_history:\n    - [k, ]\n  error: null\n  output:\n    - name: .\n      children:\n        - name: item\n          attribute: id: 1\n          text: \"a: b\"\n        - name: item\n          text: 42\n        - name: name\n          text: plain\n";
    assert_eq!(yaml, expected);
}

#[test]
fn yaml_envelope_empty_sections() {
    let mut res = result_with(FlatTree { nodes: vec![node("root", (0, 0), None, (0, 0))], attrs: vec![] });
    res.actions.clear();
    res.traces.clear();
    res.capture_history.clear();
    res.capture_names_history.clear();
    res.error = Some("bad: thing".to_string());
    let yaml = serialize_execution(&res, RuntimeFormat::Yaml);
    let expected = "execution:\n  consumed: 5\n  actions:\n    []\n  traces:\n    []\n  capture_history:\n    []\n  capture_names_history:\n    []\n  error: \"bad: thing\"\n  output:\n    - name: root\n";
    assert_eq!(yaml, expected);
}

#[test]
fn xml_envelope_sections() {
    let res = result_with(sample_tree());
    let xml = serialize_execution(&res, RuntimeFormat::Xml);
    assert!(xml.starts_with("<?xml version=\"1.0\" encoding=\"UTF-8\"?>"), "{xml}");
    assert!(xml.contains("<execution consumed=\"5\">"), "{xml}");
    assert!(xml.contains("<action name=\"out.add\">"), "{xml}");
    assert!(xml.contains("<arg>x y</arg>"), "{xml}");
    assert!(xml.contains("<arg>-3</arg>"), "{xml}");
    assert!(xml.contains("<arg>$2</arg>"), "{xml}");
    assert!(xml.contains("<trace>match consumed 5 chars</trace>"), "{xml}");
    assert!(xml.contains("<scope index=\"0\">"), "{xml}");
    assert!(xml.contains("<value name=\"k\">ab</value>"), "{xml}");
    assert!(xml.contains("<value name=\"\">c</value>"), "{xml}");
    assert!(xml.contains("<node name=\"item\">"), "{xml}");
    assert!(xml.contains("<attr key=\"id\" value=\"1\"/>"), "{xml}");
    assert!(xml.ends_with("</execution>"), "{xml}");
}

#[test]
fn json_envelope_has_all_keys() {
    let res = result_with(sample_tree());
    let json = serialize_execution(&res, RuntimeFormat::Json);
    for key in ["consumed", "actions", "traces", "capture_history", "capture_names_history", "error", "diagnostics", "output"] {
        assert!(json.contains(&format!("\"{key}\"")), "{key} missing: {json}");
    }
    assert!(json.contains("\"$2\""), "{json}");
    assert!(json.contains("\"@id\": \"1\""), "{json}");
}

#[test]
fn float_syntax_recognizer() {
    let yes = ["1", "-2.5", "+.5", "1.", "1e10", "2E-3", "inf", "-Infinity", "NaN", "007"];
    let no = ["", ".", "e5", "1e", "1.2.3", "abc", "1_000", " 1", "0x10", "+"];
    for s in yes {
        let c: Vec<char> = s.chars().collect();
        assert!(looks_like_number(&c), "{s} should read as a number");
    }
    for s in no {
        let c: Vec<char> = s.chars().collect();
        assert!(!looks_like_number(&c), "{s} should not read as a number");
    }
}

#[test]
fn date_recognizer() {
    let d: Vec<char> = "2024-01-31".chars().collect();
    assert!(looks_like_date(&d));
    let n: Vec<char> = "2024/01/31".chars().collect();
    assert!(!looks_like_date(&n));
    let short: Vec<char> = "2024-1-31".chars().collect();
    assert!(!looks_like_date(&short));
}

#[test]
fn lxml_text_escape_and_apos() {
    assert_eq!(xml_escape_text_content("a<b>&'\""), "a&lt;b&gt;&amp;'\"");
    assert_eq!(unescape_apos("x=&apos;y&apos; &amp;apos;"), "x='y' &amp;apos;");
}
