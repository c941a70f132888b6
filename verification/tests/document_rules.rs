use rustine::errors::GelError;
use rustine::parser::ast::{Expression, Statement};
use rustine::parser::lexer::lex;
use rustine::parser::syntax::parse_gel_document;

#[test]
fn later_define_replaces_earlier_in_place() {
    let src = "define a \"x\"\ndefine b \"y\"\ndefine a \"z\"\n";
    let tokens = lex(src).unwrap();
    let doc = parse_gel_document(&tokens).unwrap();
    assert_eq!(doc.defines.len(), 2);
    assert_eq!(doc.defines.entries[0].0, "a");
    assert_eq!(doc.defines.entries[1].0, "b");
    match &doc.defines.entries[0].1 {
        Expression::String(s) => assert_eq!(s, "z"),
        other => panic!("unexpected {:?}", other),
    }
}

#[test]
fn alternatives_continue_on_the_next_line() {
    let src = "grammar g:\n    match \"a\"\n        | \"b\":\n        out.add(\"x\")\n";
    let tokens = lex(src).unwrap();
    let doc = parse_gel_document(&tokens).unwrap();
    let g = doc.grammars.get("g").unwrap();
    assert_eq!(g.statements.len(), 1);
    match &g.statements[0] {
        Statement::Match(m) => {
            assert_eq!(m.match_list.alternatives.len(), 2);
            assert_eq!(m.actions.len(), 1);
            assert_eq!(m.actions[0].name, "out.add");
        }
        _ => panic!("not a match"),
    }
}

#[test]
fn less_indented_line_ends_an_action_block() {
    let src = "grammar g:\n    match \"a\":\n        out.add(\"x\")\n        out.add(\"y\")\n    skip /b/\n";
    let tokens = lex(src).unwrap();
    let doc = parse_gel_document(&tokens).unwrap();
    let g = doc.grammars.get("g").unwrap();
    assert_eq!(g.statements.len(), 2);
    match &g.statements[0] {
        Statement::Match(m) => assert_eq!(m.actions.len(), 2),
        _ => panic!("not a match"),
    }
    assert!(matches!(&g.statements[1], Statement::Skip(_)));
}

#[test]
fn define_without_expression_is_refused_at_its_token() {
    let src = "define x\n";
    let tokens = lex(src).unwrap();
    match parse_gel_document(&tokens) {
        Err(GelError::Parse { message, span }) => {
            assert_eq!(message, "unexpected token Tag");
            assert_eq!(span.line, 1);
            assert_eq!(span.col, 1);
        }
        other => panic!("unexpected {:?}", other.is_ok()),
    }
}

#[test]
fn token_list_without_end_is_refused_as_eof() {
    match parse_gel_document(&[]) {
        Err(GelError::Parse { message, span }) => {
            assert_eq!(message, "unexpected token Eof");
            assert_eq!(span.offset, 0);
            assert_eq!(span.line, 0);
        }
        other => panic!("unexpected {:?}", other.is_ok()),
    }
}

#[test]
fn unknown_grammar_error_names_it() {
    let src = "grammar g:\n    skip /a/\n";
    let mut doc = parse_gel_document(&lex(src).unwrap()).unwrap();
    match rustine::exec::execute(&mut doc, "h", "a") {
        Err(GelError::Runtime { message, span }) => {
            assert_eq!(message, "Grammar not found: h");
            assert!(span.is_none());
        }
        _ => panic!("expected a runtime error"),
    }
}
