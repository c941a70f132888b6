//! Parser module: lexer, syntax, AST, compilation, validation, and the AST
//! generators; `Parser` ties them together.

use vstd::prelude::*;
use vstd::string::StringSliceAdditionalSpecFns;
use crate::errors::{GelError, Severity, Span};
use crate::exec::runner::execute;
use crate::exec::serialize::{RuntimeFormat, serialize_execution};
use crate::parser::json::JsonGenerator;
use crate::jsonv::json_pretty_text;
use crate::parser::json::document_json;
use crate::parser::lexer::{lex, tokens_of, Token, TokenKind};
use crate::parser::rules::document_spec;
use crate::parser::syntax::{document_error_message, document_error_span, kind_at};
use crate::parser::syntax::parse_gel_document;
use crate::parser::xml::XmlGenerator;
use crate::parser::yaml::YamlGenerator;
use crate::parser::ast::{defines_view, grammars_view, GelDocument};
use crate::parser::lexer::lex_from;
use crate::parser::validate::validation;
use crate::parser::xml::xml_document;
use crate::parser::yaml::yaml_document;

pub mod ast;
pub mod lexer;
pub mod syntax;
pub mod compile;
pub mod validate;
pub mod json;
pub mod xml;
pub mod yaml;
pub mod copy;
pub mod rules;

verus! {

/// Output format for rendering a document's syntax tree.
#[derive(Debug, Clone, Copy, PartialEq, Eq, Structural)]
pub enum OutputFormat {
    Json,
    Xml,
    Yaml,
}

/// Whether the tokenization `toks` of `input` parses as a document.
pub open spec fn parsed_doc(input: Seq<char>, toks: Seq<Token>) -> bool {
    tokens_of(input, toks) && kind_at(toks, document_spec(toks).0, TokenKind::EOF)
}

/// Whether `text` is the JSON of the document the tokenization `toks` of
/// `input` parses to.
pub open spec fn parsed_json(input: Seq<char>, toks: Seq<Token>, text: Seq<char>) -> bool {
    &&& parsed_doc(input, toks)
    &&& text == json_pretty_text(document_json(document_spec(toks).1, document_spec(toks).2))
}

/// Whether `message` and `span` are the error the tokenization `toks` of
/// `input` is refused with as a document.
pub open spec fn refused(input: Seq<char>, toks: Seq<Token>, message: Seq<char>, span: Span) -> bool {
    &&& tokens_of(input, toks)
    &&& !kind_at(toks, document_spec(toks).0, TokenKind::EOF)
    &&& message == document_error_message(toks, document_spec(toks).0)
    &&& span == document_error_span(toks, document_spec(toks).0)
}

/// Whether `d` is the document the tokenization `toks` parses to.
pub open spec fn parsed_as(toks: Seq<Token>, d: GelDocument) -> bool {
    &&& kind_at(toks, document_spec(toks).0, TokenKind::EOF)
    &&& defines_view(d) == document_spec(toks).1
    &&& grammars_view(d) == document_spec(toks).2
    &&& d.wf()
    &&& d.regex_patterns@.len() == 0
    &&& d.pattern_indices.entries@.len() == 0
}

/// Whether Gel source lexes, and its tokenization parses as a document.
pub open spec fn source_parses(input: Seq<char>) -> bool {
    &&& lex_from(input, 0, true) is Ok
    &&& forall|toks: Seq<Token>| #[trigger] tokens_of(input, toks) ==> kind_at(toks, document_spec(toks).0, TokenKind::EOF)
}

/// Whether no diagnostic of a list is an error.
pub open spec fn no_errors(ds: Seq<(Severity, Seq<char>)>) -> bool {
    forall|k: int| 0 <= k < ds.len() ==> (#[trigger] ds[k]).0 != Severity::Error
}

/// Whether the document Gel source parses to validates without an error.
pub open spec fn source_validates(input: Seq<char>) -> bool {
    forall|toks: Seq<Token>, d: GelDocument| tokens_of(input, toks) && #[trigger] parsed_as(toks, d) ==> no_errors(validation(d))
}

/// Whether the document Gel source parses to has a grammar of this name.
pub open spec fn source_has_grammar(input: Seq<char>, name: Seq<char>) -> bool {
    forall|toks: Seq<Token>, d: GelDocument| tokens_of(input, toks) && #[trigger] parsed_as(toks, d) ==> d.grammars.spec_get(name) is Some
}

/// Whether `text` is the XML of the document Gel source parses to.
pub open spec fn parsed_xml(input: Seq<char>, text: Seq<char>) -> bool {
    exists|toks: Seq<Token>, d: GelDocument| tokens_of(input, toks) && #[trigger] parsed_as(toks, d) && text == xml_document(d)
}

/// Whether `text` is the YAML of the document Gel source parses to.
pub open spec fn parsed_yaml(input: Seq<char>, text: Seq<char>) -> bool {
    exists|toks: Seq<Token>, d: GelDocument| tokens_of(input, toks) && #[trigger] parsed_as(toks, d) && text == yaml_document(d)
}

/// Tokenizes Gel source, builds its syntax tree and renders it, or runs it.
pub struct Parser {
    format: OutputFormat,
}

impl Parser {
    /// The format the syntax tree is rendered in.
    pub closed spec fn spec_format(&self) -> OutputFormat {
        self.format
    }

    pub fn new(format: OutputFormat) -> (r: Parser)
        ensures
            r.spec_format() == format,
    {
        Parser { format }
    }

    /// Parses Gel source and renders its syntax tree; lexing and parsing errors
    /// are returned as they come.
    pub fn parse_str(&self, input: &str) -> (r: Result<String, GelError>)
        requires
            4 * input@.len() < usize::MAX,
        ensures
            r is Ok ==> crate::parser::lexer::lex_from(input@, 0, true) is Ok,
            crate::parser::lexer::lex_from(input@, 0, true) is Err ==> (r matches Err(e) && e is Lex && crate::parser::lexer::lex_failure(input@, e)),
            r matches Err(e) ==> e is Lex || e is Parse,
            r matches Ok(t) ==> exists|toks: Seq<Token>| parsed_doc(input@, toks) && (self.spec_format()
                == OutputFormat::Json ==> parsed_json(input@, toks, t@)),
            r matches Err(GelError::Parse { message, span }) ==> exists|toks: Seq<Token>| refused(input@, toks, message@, span),
            source_parses(input@) ==> r is Ok,
            self.spec_format() == OutputFormat::Xml ==> (r matches Ok(t) ==> parsed_xml(input@, t@)),
            self.spec_format() == OutputFormat::Yaml ==> (r matches Ok(t) ==> parsed_yaml(input@, t@)),
    {
        let tokens = match lex(input) {
            Ok(t) => t,
            Err(e) => { return Err(e); },
        };
        let ast = match parse_gel_document(tokens.as_slice()) {
            Ok(d) => d,
            Err(e) => {
                proof {
                    if e is Parse {
                        assert(refused(input@, tokens@, e->Parse_message@, e->Parse_span));
                    }
                    assert(tokens_of(input@, tokens@));
                }
                return Err(e);
            },
        };
        proof {
            assert(parsed_doc(input@, tokens@));
            assert(parsed_as(tokens@, ast));
        }
        match self.format {
            OutputFormat::Json => {
                let t = JsonGenerator::generate_from_ast(&ast);
                proof {
                    assert(parsed_json(input@, tokens@, t@));
                }
                Ok(t)
            },
            OutputFormat::Xml => {
                let t = XmlGenerator::generate_from_ast(&ast);
                proof {
                    assert(parsed_xml(input@, t@));
                }
                Ok(t)
            },
            OutputFormat::Yaml => {
                let t = YamlGenerator::generate_from_ast(&ast);
                proof {
                    assert(parsed_yaml(input@, t@));
                }
                Ok(t)
            },
        }
    }

    /// Parses Gel source, validates it (an error diagnostic fails the run),
    /// runs the named grammar over `runtime_input` and returns the JSON
    /// envelope of the execution, validation warnings appended to its
    /// diagnostics.
    pub fn parse_and_run(&self, gel_source: &str, grammar: &str, runtime_input: &str) -> (r: Result<String, GelError>)
        requires
            4 * gel_source@.len() < usize::MAX,
        ensures
            crate::parser::lexer::lex_from(gel_source@, 0, true) is Err ==> (r matches Err(e) && e is Lex && crate::parser::lexer::lex_failure(gel_source@, e)),
            r matches Err(e) ==> e is Lex || e is Parse || e is Validation || e is Runtime,
            source_parses(gel_source@) && source_validates(gel_source@) && source_has_grammar(gel_source@, grammar@) ==> r is Ok,
            r matches Ok(t) ==> exists|res: crate::exec::runner::ExecutionResult|
                #[trigger] crate::exec::runner::ran_over(res, runtime_input.spec_bytes())
                    && t@ == json_pretty_text(crate::exec::serialize::envelope_json(res, res.flat->0)),
    {
        run_source(gel_source, grammar, runtime_input)
    }
}

/// Lex, parse, validate, execute, serialize (see [`Parser::parse_and_run`]).
pub fn run_source(gel_source: &str, grammar: &str, runtime_input: &str) -> (r: Result<String, GelError>)
    requires
        4 * gel_source@.len() < usize::MAX,
    ensures
        crate::parser::lexer::lex_from(gel_source@, 0, true) is Err ==> (r matches Err(e) && e is Lex && crate::parser::lexer::lex_failure(gel_source@, e)),
        r matches Err(e) ==> e is Lex || e is Parse || e is Validation || e is Runtime,
        source_parses(gel_source@) && source_validates(gel_source@) && source_has_grammar(gel_source@, grammar@) ==> r is Ok,
        r matches Ok(t) ==> exists|res: crate::exec::runner::ExecutionResult|
            #[trigger] crate::exec::runner::ran_over(res, runtime_input.spec_bytes())
                && t@ == json_pretty_text(crate::exec::serialize::envelope_json(res, res.flat->0)),
{
    let tokens = match lex(gel_source) {
        Ok(t) => t,
        Err(e) => { return Err(e); },
    };
    let mut doc = match parse_gel_document(tokens.as_slice()) {
        Ok(d) => d,
        Err(e) => {
            proof {
                assert(tokens_of(gel_source@, tokens@));
            }
            return Err(e);
        },
    };
    proof {
        assert(parsed_as(tokens@, doc));
    }
    let ghost ok = source_parses(gel_source@) && source_validates(gel_source@) && source_has_grammar(gel_source@, grammar@);
    let diags = crate::parser::validate::validate(&doc);
    let mut i: usize = 0;
    while i < diags.len()
        invariant
            i <= diags@.len(),
            crate::parser::lexer::lex_from(gel_source@, 0, true) is Ok,
            ok ==> no_errors(crate::parser::validate::diags_view(diags@)),
            ok ==> doc.grammars.spec_get(grammar@) is Some,
            ok == (source_parses(gel_source@) && source_validates(gel_source@) && source_has_grammar(gel_source@, grammar@)),
        decreases diags@.len() - i,
    {
        proof {
            assert(crate::parser::validate::diags_view(diags@)[i as int] == crate::parser::validate::diag_view(diags@[i as int]));
        }
        if diags[i].severity == Severity::Error {
            let span = match diags[i].span {
                Some(s) => s,
                None => Span::unknown(),
            };
            return Err(GelError::validation(diags[i].message.as_str(), span));
        }
        i = i + 1;
    }
    let mut result = match execute(&mut doc, grammar, runtime_input) {
        Ok(r) => r,
        Err(e) => { return Err(e); },
    };
    let mut diags = diags;
    result.diagnostics.append(&mut diags);
    proof {
        assert(crate::exec::runner::ran_over(result, runtime_input.spec_bytes()));
    }
    Ok(serialize_execution(&result, RuntimeFormat::Json))
}

} // verus!
