//! Error and diagnostic types shared by the lexer, parser and runtime.

use vstd::prelude::*;
use crate::text::usize_to_string;

verus! {

#[verifier::external_type_specification]
#[verifier::external_body]
pub struct ExIoError(std::io::Error);

/// Source location span attached to diagnostics and errors.
#[derive(Debug, Clone, Copy, PartialEq, Eq, Structural)]
pub struct Span {
    /// Byte offset from start of input.
    pub offset: usize,
    /// 1-based line number (0 = unknown).
    pub line: usize,
    /// 1-based column, in characters.
    pub col: usize,
    /// Length in bytes of the spanned region (0 = point span).
    pub len: usize,
}

impl Default for Span {
    fn default() -> (r: Span)
        ensures
            r == (Span { offset: 0, line: 0, col: 0, len: 0 }),
    {
        Span { offset: 0, line: 0, col: 0, len: 0 }
    }
}

impl Span {
    pub fn new(offset: usize, line: usize, col: usize, len: usize) -> (r: Span)
        ensures
            r == (Span { offset, line, col, len }),
    {
        Span { offset, line, col, len }
    }

    /// A zero/unknown span.
    pub fn unknown() -> (r: Span)
        ensures
            r == (Span { offset: 0, line: 0, col: 0, len: 0 }),
    {
        Span { offset: 0, line: 0, col: 0, len: 0 }
    }

    /// `offset N` for a span without a line, else `line L col C`.
    pub fn to_string(&self) -> (r: String)
        ensures
            r@ == span_text(*self),
    {
        if self.line == 0 {
            let mut s = "offset ".to_string();
            s.append(usize_to_string(self.offset).as_str());
            s
        } else {
            let mut s = "line ".to_string();
            s.append(usize_to_string(self.line).as_str());
            s.append(" col ");
            s.append(usize_to_string(self.col).as_str());
            s
        }
    }
}

/// The display text of a span.
pub open spec fn span_text(s: Span) -> Seq<char> {
    if s.line == 0 {
        "offset "@ + crate::text::decimal(s.offset as nat)
    } else {
        "line "@ + crate::text::decimal(s.line as nat) + " col "@ + crate::text::decimal(s.col as nat)
    }
}

/// Severity level for diagnostics emitted during parsing or execution.
#[derive(Debug, Clone, Copy, PartialEq, Eq, Structural)]
pub enum Severity {
    Error,
    Warning,
    Info,
}

impl Severity {
    /// `error`, `warning` or `info`.
    pub fn to_string(&self) -> (r: String)
        ensures
            r@ == severity_text(*self),
    {
        match self {
            Severity::Error => "error".to_string(),
            Severity::Warning => "warning".to_string(),
            Severity::Info => "info".to_string(),
        }
    }
}

/// The display text of a severity.
pub open spec fn severity_text(s: Severity) -> Seq<char> {
    match s {
        Severity::Error => "error"@,
        Severity::Warning => "warning"@,
        Severity::Info => "info"@,
    }
}

/// A single diagnostic message with optional span and severity.
#[derive(Debug, Clone)]
pub struct Diagnostic {
    pub severity: Severity,
    pub message: String,
    pub span: Option<Span>,
}

impl Diagnostic {
    pub fn error(msg: &str, span: Option<Span>) -> (r: Diagnostic)
        ensures
            r.severity == Severity::Error,
            r.message@ == msg@,
            r.span == span,
    {
        Diagnostic { severity: Severity::Error, message: msg.to_string(), span }
    }

    pub fn warning(msg: &str, span: Option<Span>) -> (r: Diagnostic)
        ensures
            r.severity == Severity::Warning,
            r.message@ == msg@,
            r.span == span,
    {
        Diagnostic { severity: Severity::Warning, message: msg.to_string(), span }
    }

    pub fn info(msg: &str, span: Option<Span>) -> (r: Diagnostic)
        ensures
            r.severity == Severity::Info,
            r.message@ == msg@,
            r.span == span,
    {
        Diagnostic { severity: Severity::Info, message: msg.to_string(), span }
    }

    /// `severity[ at span]: message`.
    pub fn to_string(&self) -> (r: String)
        ensures
            r@ == severity_text(self.severity) + match self.span {
                Some(s) => " at "@ + span_text(s),
                None => Seq::<char>::empty(),
            } + ": "@ + self.message@,
    {
        let mut out = self.severity.to_string();
        match &self.span {
            Some(s) => {
                out.append(" at ");
                out.append(s.to_string().as_str());
            },
            None => {},
        }
        out.append(": ");
        out.append(self.message.as_str());
        out
    }
}

/// Errors of the lexer, the parser, validation and the runtime.
#[derive(Debug)]
pub enum GelError {
    /// Lexer error: unexpected character or unterminated literal.
    Lex { message: String, span: Span },
    /// Parser error: unexpected token or missing construct.
    Parse { message: String, span: Span },
    /// Runtime / execution error (grammar not found, ...).
    Runtime { message: String, span: Option<Span> },
    /// Semantic validation error (undefined reference, invalid regex, ...).
    Validation { message: String, span: Span },
    /// I/O error (streaming, file reading).
    Io(std::io::Error),
}

/// Whether `e` is the error a run of a grammar the document does not hold
/// fails with.
pub open spec fn is_grammar_not_found(e: GelError, name: Seq<char>) -> bool {
    e matches GelError::Runtime { message, span } && message@ == "Grammar not found: "@ + name && span is None
}


/// `std::io::Error`'s display text.
#[verifier::external_body]
fn io_error_text(e: &std::io::Error) -> (r: String) {
    e.to_string()
}

impl GelError {
    pub fn lex(msg: &str, span: Span) -> (r: GelError)
        ensures
            r matches GelError::Lex { message, span: s } && message@ == msg@ && s == span,
    {
        GelError::Lex { message: msg.to_string(), span }
    }

    pub fn parse(msg: &str, span: Span) -> (r: GelError)
        ensures
            r matches GelError::Parse { message, span: s } && message@ == msg@ && s == span,
    {
        GelError::Parse { message: msg.to_string(), span }
    }

    pub fn runtime(msg: &str, span: Option<Span>) -> (r: GelError)
        ensures
            r matches GelError::Runtime { message, span: s } && message@ == msg@ && s == span,
    {
        GelError::Runtime { message: msg.to_string(), span }
    }

    pub fn validation(msg: &str, span: Span) -> (r: GelError)
        ensures
            r matches GelError::Validation { message, span: s } && message@ == msg@ && s == span,
    {
        GelError::Validation { message: msg.to_string(), span }
    }

    /// The primary span, if any.
    pub fn span(&self) -> (r: Option<Span>)
        ensures
            r == match self {
                GelError::Lex { span, .. } => Some(*span),
                GelError::Parse { span, .. } => Some(*span),
                GelError::Validation { span, .. } => Some(*span),
                GelError::Runtime { span, .. } => *span,
                GelError::Io(_) => None,
            },
    {
        match self {
            GelError::Lex { span, .. } => Some(*span),
            GelError::Parse { span, .. } => Some(*span),
            GelError::Validation { span, .. } => Some(*span),
            GelError::Runtime { span, .. } => *span,
            GelError::Io(_) => None,
        }
    }

    /// The display text: `span: kind error: message` (`unknown` for a runtime
    /// error without span; `io error: ...` for I/O errors).
    pub fn to_string(&self) -> (r: String)
        ensures
            match self {
                GelError::Lex { message, span } => r@ == span_text(*span) + ": lex error: "@ + message@,
                GelError::Parse { message, span } => r@ == span_text(*span) + ": parse error: "@ + message@,
                GelError::Validation { message, span } => r@ == span_text(*span) + ": validation error: "@ + message@,
                GelError::Runtime { message, span } => r@ == match span {
                    Some(s) => span_text(*s),
                    None => "unknown"@,
                } + ": runtime error: "@ + message@,
                GelError::Io(_) => r@.len() >= 10,
            },
    {
        match self {
            GelError::Lex { message, span } => {
                let mut s = span.to_string();
                s.append(": lex error: ");
                s.append(message.as_str());
                s
            },
            GelError::Parse { message, span } => {
                let mut s = span.to_string();
                s.append(": parse error: ");
                s.append(message.as_str());
                s
            },
            GelError::Validation { message, span } => {
                let mut s = span.to_string();
                s.append(": validation error: ");
                s.append(message.as_str());
                s
            },
            GelError::Runtime { message, span } => {
                let mut s = match span {
                    Some(sp) => sp.to_string(),
                    None => "unknown".to_string(),
                };
                s.append(": runtime error: ");
                s.append(message.as_str());
                s
            },
            GelError::Io(e) => {
                let mut s = "io error: ".to_string();
                s.append(io_error_text(e).as_str());
                proof {
                    reveal_strlit("io error: ");
                }
                s
            },
        }
    }
}

} // verus!
