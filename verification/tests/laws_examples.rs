use rustine::exec::{execute, serialize_tree, RuntimeFormat};
use rustine::parser::copy::copy_document;
use rustine::parser::lexer::lex;
use rustine::parser::syntax::parse_gel_document;
use rustine::parser::yaml::YamlGenerator;
use rustine::exec::out::{parse_path, percent_decode, percent_encode, OutputTree};

#[test]
fn percent_encoding_round_trips() {
    for s in ["plain", "a b/c?d=e&f", "100%", "ümlaut ✓", "", "~._-"] {
        assert_eq!(percent_decode(&percent_encode(s)), s);
    }
}

#[test]
fn percent_encoding_exact_values() {
    assert_eq!(percent_encode("a b/c"), "a b%2Fc");
    assert_eq!(percent_encode("ü"), "%C3%BC");
    assert_eq!(percent_decode("%41%2f"), "A/");
    assert_eq!(percent_decode("%zz"), "%zz");
    assert_eq!(percent_decode("%FF"), "%FF");
}

#[test]
fn open_then_leave_restores_the_scope() {
    let mut tree = OutputTree::new();
    let segs = parse_path("a/b");
    tree.open_path(&segs);
    let after_open = tree.node_count();
    tree.leave();
    let segs2 = parse_path("c");
    tree.open_path(&segs2);
    // a second open lands under the root again, not under `b`
    assert_eq!(tree.node_count(), after_open + 1);
    assert_eq!(tree.root_child_count(), 2);
}

#[test]
fn leave_at_root_is_harmless() {
    let mut tree = OutputTree::new();
    tree.leave();
    tree.leave();
    let segs = parse_path("x");
    tree.open_path(&segs);
    assert_eq!(tree.root_child_count(), 1);
}

#[test]
fn a_copied_document_renders_and_runs_the_same() {
    let src = "define word /[a-z]+/\ngrammar g:\n    match word:\n        out.add(\"w\", $0)\n    skip /\\s+/\n";
    let mut doc = parse_gel_document(&lex(src).unwrap()).unwrap();
    let mut copy = copy_document(&doc);
    assert_eq!(YamlGenerator::generate_from_ast(&copy), YamlGenerator::generate_from_ast(&doc));
    let a = execute(&mut doc, "g", "ab cd").unwrap();
    let b = execute(&mut copy, "g", "ab cd").unwrap();
    assert_eq!(serialize_tree(&a, RuntimeFormat::Json), serialize_tree(&b, RuntimeFormat::Json));
}
