use rustine::exec::streaming::{StreamingEvent, StreamingRunner};
use rustine::parser::lexer::lex;
use rustine::parser::syntax::parse_gel_document;

const LINES: &str = "grammar input:\n    match /(\\w+)\\n/:\n        out.add('line', $1)\n";

fn doc_of(src: &str) -> rustine::parser::ast::GelDocument {
    let toks = lex(src).expect("lex");
    parse_gel_document(&toks).expect("parse")
}

#[test]
fn runs_as_far_as_the_input_goes() {
    let mut doc = doc_of(LINES);
    let mut sr = StreamingRunner::new(&mut doc, "input").expect("runner");
    sr.feed("ab\ncd");
    let events = sr.step().expect("step");
    assert_eq!(
        events,
        vec![
            StreamingEvent::Add { path: "line".to_string(), value: Some("ab".to_string()) },
            StreamingEvent::MatchConsumed { pos: 0, len: 3 },
            StreamingEvent::Stalled { pos: 3, remaining: 2 },
        ]
    );
    assert_eq!(sr.position(), 3);
    assert_eq!(sr.total_consumed(), 3);

    sr.feed("\n");
    let events = sr.step().expect("step");
    assert_eq!(
        events,
        vec![
            StreamingEvent::Add { path: "line".to_string(), value: Some("cd".to_string()) },
            StreamingEvent::MatchConsumed { pos: 3, len: 3 },
            StreamingEvent::Stalled { pos: 6, remaining: 0 },
        ]
    );
    assert_eq!(sr.position(), sr.total_consumed());

    let result = sr.finish().expect("finish");
    assert_eq!(result.consumed, 6);
    assert_eq!(result.capture_history.len(), 2);
    assert_eq!(result.capture_history[1][1], "cd");
    assert!(result.flat.is_none());
}

#[test]
fn end_of_input_finishes_the_run() {
    let mut doc = doc_of(LINES);
    let mut sr = StreamingRunner::new(&mut doc, "input").expect("runner");
    sr.feed("xy");
    sr.set_eof();
    let events = sr.step().expect("step");
    assert_eq!(events, vec![StreamingEvent::Finished { consumed: 0 }]);
}

#[test]
fn unknown_grammar_is_an_error() {
    let mut doc = doc_of(LINES);
    match StreamingRunner::new(&mut doc, "nope") {
        Err(e) => assert!(e.to_string().contains("Grammar not found: nope"), "{}", e.to_string()),
        Ok(_) => panic!("expected an error"),
    }
}

#[test]
fn nothing_fed_stalls_at_zero() {
    let mut doc = doc_of(LINES);
    let mut sr = StreamingRunner::new(&mut doc, "input").expect("runner");
    let events = sr.step().expect("step");
    assert_eq!(events, vec![StreamingEvent::Stalled { pos: 0, remaining: 0 }]);
}
