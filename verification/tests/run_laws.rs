use rustine::exec::out::{parse_path, OutputTree};
use rustine::exec::runner::execute;
use rustine::exec::streaming::StreamingRunner;
use rustine::parser::lexer::lex;
use rustine::parser::syntax::parse_gel_document;

fn doc_of(src: &str) -> rustine::parser::ast::GelDocument {
    let toks = lex(src).expect("lex");
    parse_gel_document(&toks).expect("parse")
}

#[test]
fn every_diagnostic_is_a_trace_line_in_order() {
    let mut doc = doc_of("grammar g:\n    match /a/:\n        out.add('x')\n");
    let res = execute(&mut doc, "g", "zz").expect("run");
    assert!(!res.diagnostics.is_empty());
    let mut from = 0;
    for d in &res.diagnostics {
        let at = res.traces[from..]
            .iter()
            .position(|t| *t == d.message)
            .expect("diagnostic missing from the traces");
        from += at + 1;
    }
}

#[test]
fn finish_runs_what_was_fed() {
    let mut doc = doc_of(
        "grammar g:\n    match /foo/:\n        out.create(\"root\")\n        do.skip()\n        out.add(\"root/after\")\n",
    );
    let mut sr = StreamingRunner::new(&mut doc, "g").expect("runner");
    sr.feed("foo");
    let res = sr.finish().expect("finish");
    assert_eq!(res.consumed, 3);
}

#[test]
fn add_path_reaches_the_node_the_walk_finds() {
    let mut t = OutputTree::new();
    t.create_path(&parse_path("a/b"), Some("x".to_string()));
    t.add_path(&parse_path("a/b"), Some("y".to_string()));
    t.create_path(&parse_path("a/b"), Some("z".to_string()));
    let f = t.compact_and_flatten();
    let kids = f.children_of(f.root());
    assert_eq!(kids.len(), 1);
    assert_eq!(kids[0].name, "a");
    let bs = f.children_of(&kids[0]);
    assert_eq!(bs.len(), 2);
    assert_eq!(bs[0].text.as_deref(), Some("xy"));
    assert_eq!(bs[1].text.as_deref(), Some("z"));
}

#[test]
fn walks_create_only_missing_nodes() {
    let mut t = OutputTree::new();
    t.create_path(&parse_path("a/b/c"), None);
    assert_eq!(t.node_count(), 4);
    t.add_path(&parse_path("a/b"), Some("x".to_string()));
    assert_eq!(t.node_count(), 4);
    t.add_path(&parse_path("a/d"), None);
    assert_eq!(t.node_count(), 5);
    t.create_path(&parse_path("a/b"), None);
    assert_eq!(t.node_count(), 6);
}

#[test]
fn consumed_covers_the_first_match() {
    let mut doc = doc_of("grammar g:\n    match /ab/:\n        out.add('x')\n");
    let res = execute(&mut doc, "g", "abab").expect("run");
    assert!(res.consumed >= 2);
    assert_eq!(res.consumed, 4);
}
