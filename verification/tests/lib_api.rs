use rustine::errors::{GelError, Span};
use rustine::parser::{OutputFormat, Parser};

#[test]
fn test_parser_creation() {
    let parser = Parser::new(OutputFormat::Json);
    let result = parser.parse_str("define ws /\\s+/");
    assert!(result.is_ok());
}

#[test]
fn test_error_type() {
    let error = GelError::lex("test error", Span::new(0, 1, 1, 0));
    let msg = error.to_string();
    assert!(msg.contains("test error"), "error display: {msg}");
    assert!(msg.contains("line 1"), "should show line: {msg}");
}
