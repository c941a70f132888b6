use rustine::bridge::{
    compile_grammar, parse_format, parse_gel_to_json, parse_gel_to_xml, parse_gel_to_yaml, parse_to_json, parse_to_xml,
    parse_to_yaml, run_grammar, run_grammar_xml, run_grammar_yaml, RunError,
};
use rustine::RuntimeFormat;

const SRC: &str = "grammar input:\n    match /x/:\n        out.add('x')\n";
const FAILING: &str = "grammar input:\n    match /x/:\n        do.fail('boom')\n";

#[test]
fn context_runs_many_inputs() {
    let ctx = compile_grammar(SRC).ok().expect("compiles");
    assert_eq!(ctx.run("x", "input").ok().expect("runs"), "{\n    \"x\": {}\n}");
    assert_eq!(ctx.run_yaml("x", "input").ok().expect("runs"), "x:\n{}\n");
    assert!(ctx.run_xml("x", "input").ok().expect("runs").contains("<x/>"));
    assert_eq!(ctx.generate_string("x", "json", "input").ok().expect("runs"), "{\n    \"x\": {}\n}");
}

#[test]
fn context_reports_missing_grammar_and_unknown_format() {
    let ctx = compile_grammar(SRC).ok().expect("compiles");
    match ctx.run("x", "nope") {
        Err(RunError::Gel(e)) => assert!(e.to_string().contains("Grammar not found: nope")),
        _ => panic!("expected a runtime error"),
    }
    match ctx.generate_string("x", "toml", "input") {
        Err(RunError::UnknownFormat(m)) => assert_eq!(m, "unknown format 'toml' (expected json, xml, yaml, none)"),
        _ => panic!("expected an unknown format"),
    }
}

#[test]
fn failing_grammar_reports_its_message() {
    match run_grammar(FAILING, "input", "x") {
        Err(RunError::Failed(m)) => assert_eq!(m, "boom"),
        _ => panic!("expected a failure"),
    }
}

#[test]
fn one_shot_runs_in_each_format() {
    assert_eq!(run_grammar(SRC, "input", "x").ok().expect("json"), "{\n    \"x\": {}\n}");
    assert!(run_grammar_xml(SRC, "input", "x").ok().expect("xml").contains("<x/>"));
    assert_eq!(run_grammar_yaml(SRC, "input", "x").ok().expect("yaml"), "x:\n{}\n");
}

#[test]
fn compile_rejects_undefined_parent() {
    let src = "grammar child(nonexistent):\n    match /foo/:\n        out.create(\"root/x\")\n";
    match compile_grammar(src) {
        Err(e) => assert!(e.to_string().contains("inherits from undefined grammar"), "{}", e.to_string()),
        Ok(_) => panic!("expected a validation error"),
    }
}

#[test]
fn format_names() {
    assert!(matches!(parse_format("yml"), Ok(RuntimeFormat::Yaml)));
    assert!(matches!(parse_format("none"), Ok(RuntimeFormat::Empty)));
    assert!(parse_format("JSON").is_err());
}

#[test]
fn syntax_tree_renderers() {
    let json = parse_gel_to_json("define ws /\\s+/").ok().expect("json");
    assert!(json.contains("defines") && json.contains("ws"), "{json}");
    let xml = parse_gel_to_xml("define ws /\\s+/").ok().expect("xml");
    assert!(xml.contains("<gel-document>") && xml.contains("<define"), "{xml}");
    assert!(parse_gel_to_yaml("define ws /\\s+/").is_ok());
}

#[test]
fn renderer_errors_are_wrapped() {
    assert!(parse_to_json("@").starts_with("{\"error\":\""));
    assert!(parse_to_xml("@").starts_with("<error>"));
    assert!(parse_to_yaml("@").starts_with("error: "));
}
