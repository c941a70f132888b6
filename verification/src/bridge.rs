//! Compile-once, run-many entry points: a compiled grammar context, one-shot
//! runs, and the syntax-tree renderers with their error texts.

use vstd::prelude::*;
use vstd::string::StringSliceAdditionalSpecFns;
use crate::errors::{GelError, Severity, Span};
use crate::exec::runner::{execute, execute_precompiled, grammar_advance, run_result, ExecutionResult};
use crate::exec::serialize::{RuntimeFormat, serialize_tree, tree_text};
use crate::parser::ast::GelDocument;
use crate::jsonv::json_pretty_text;
use crate::parser::json::document_json;
use crate::parser::lexer::{lex, lex_from, tokens_of, Token, TokenKind};
use crate::parser::rules::document_spec;
use crate::parser::syntax::{document_error_message, document_error_span, kind_at, parse_gel_document};
use crate::parser::validate::{diag_view, diags_view, validate};
use crate::parser::{
    no_errors, parsed_as, parsed_doc, parsed_json, parsed_xml, parsed_yaml, refused, source_has_grammar, source_parses,
    source_validates, OutputFormat, Parser,
};
use crate::text::str_eq;

verus! {

/// Why a run did not produce output.
pub enum RunError {
    /// Lexing, parsing, validation or the run itself reported an error.
    Gel(GelError),
    /// The grammar failed (`do.fail`) with this message.
    Failed(String),
    /// A format name that is none of `json`, `xml`, `yaml`, `yml`, `none`.
    UnknownFormat(String),
}

/// The output format a name stands for.
pub open spec fn format_named(name: Seq<char>) -> Option<RuntimeFormat> {
    if name == "json"@ {
        Some(RuntimeFormat::Json)
    } else if name == "xml"@ {
        Some(RuntimeFormat::Xml)
    } else if name == "yaml"@ || name == "yml"@ {
        Some(RuntimeFormat::Yaml)
    } else if name == "none"@ {
        Some(RuntimeFormat::Empty)
    } else {
        None
    }
}

/// The output format named `json`, `xml`, `yaml` (or `yml`) or `none`; the
/// error text names the accepted values.
pub fn parse_format(format: &str) -> (r: Result<RuntimeFormat, RunError>)
    ensures
        r is Ok <==> format_named(format@) is Some,
        r matches Ok(f) ==> format_named(format@) == Some(f),
        r matches Err(e) ==> e is UnknownFormat,
{
    if str_eq(format, "json") {
        Ok(RuntimeFormat::Json)
    } else if str_eq(format, "xml") {
        Ok(RuntimeFormat::Xml)
    } else if str_eq(format, "yaml") || str_eq(format, "yml") {
        Ok(RuntimeFormat::Yaml)
    } else if str_eq(format, "none") {
        Ok(RuntimeFormat::Empty)
    } else {
        let mut msg = "unknown format '".to_string();
        msg.append(format);
        msg.append("' (expected json, xml, yaml, none)");
        Err(RunError::UnknownFormat(msg))
    }
}

/// A compiled grammar document: lexed, parsed, validated and with all its
/// regular expressions compiled, ready to run against many inputs.
pub struct GelContext {
    doc: GelDocument,
}

impl GelContext {
    /// Well-formedness of the compiled document.
    pub closed spec fn wf(&self) -> bool {
        self.doc.wf()
    }

    /// The compiled document.
    pub closed spec fn spec_doc(&self) -> GelDocument {
        self.doc
    }

    /// Compiles Gel source: lexing and parsing errors as they come, the first
    /// error diagnostic of validation as a validation error.
    pub fn new(gel_source: &str) -> (r: Result<GelContext, GelError>)
        requires
            4 * gel_source@.len() < usize::MAX,
        ensures
            r matches Ok(c) ==> c.wf(),
            lex_from(gel_source@, 0, true) is Err ==> (r matches Err(e) && e is Lex && crate::parser::lexer::lex_failure(gel_source@, e)),
            r matches Err(e) ==> e is Lex || e is Parse || e is Validation,
            source_parses(gel_source@) && source_validates(gel_source@) ==> r is Ok,
    {
        let tokens = match lex(gel_source) {
            Ok(t) => t,
            Err(e) => { return Err(e); },
        };
        let mut doc = match parse_gel_document(tokens.as_slice()) {
            Ok(d) => d,
            Err(e) => {
                proof {
                    assert(tokens_of(gel_source@, tokens@));
                }
                return Err(e);
            },
        };
        proof {
            assert(parsed_as(tokens@, doc));
        }
        let ghost ok = source_parses(gel_source@) && source_validates(gel_source@);
        let diags = validate(&doc);
        let mut i: usize = 0;
        while i < diags.len()
            invariant
                i <= diags@.len(),
                lex_from(gel_source@, 0, true) is Ok,
                ok ==> no_errors(diags_view(diags@)),
                ok == (source_parses(gel_source@) && source_validates(gel_source@)),
            decreases diags@.len() - i,
        {
            proof {
                assert(diags_view(diags@)[i as int] == diag_view(diags@[i as int]));
            }
            if diags[i].severity == Severity::Error {
                let span = match diags[i].span {
                    Some(s) => s,
                    None => Span::unknown(),
                };
                return Err(GelError::validation(diags[i].message.as_str(), span));
            }
            i = i + 1;
        }
        doc.compile_regexes();
        Ok(GelContext { doc })
    }

    /// Runs a grammar against an input and serializes the data tree in a
    /// format: an error when the grammar does not exist, the failure message
    /// when the grammar failed.
    pub fn generate_string_as(&self, input: &str, format: RuntimeFormat, grammar: &str) -> (r: Result<String, RunError>)
        requires
            self.wf(),
        ensures
            (r matches Err(RunError::Gel(_))) <==> self.spec_doc().grammars.spec_get(grammar@) is None,
            r matches Err(RunError::Gel(e)) ==> crate::errors::is_grammar_not_found(e, grammar@),
            !(r matches Err(RunError::UnknownFormat(_))),
            r matches Ok(t) ==> exists|res: ExecutionResult|
                #[trigger] run_result(res, input.spec_bytes()) && res.consumed >= grammar_advance(self.spec_doc(), grammar@, input.spec_bytes()) && res.error is None && t@ == tree_text(res.flat->0, format),
            r matches Err(RunError::Failed(m)) ==> exists|res: ExecutionResult|
                #[trigger] run_result(res, input.spec_bytes()) && res.consumed >= grammar_advance(self.spec_doc(), grammar@, input.spec_bytes()) && res.error == Some(m),
    {
        let exec = match execute_precompiled(&self.doc, grammar, input) {
            Ok(x) => x,
            Err(e) => { return Err(RunError::Gel(e)); },
        };
        proof {
            assert(run_result(exec, input.spec_bytes()));
        }
        match &exec.error {
            Some(m) => { return Err(RunError::Failed(m.clone())); },
            None => {},
        }
        Ok(serialize_tree(&exec, format))
    }

    /// Runs a grammar and returns the data tree as JSON.
    pub fn run(&self, input: &str, grammar: &str) -> (r: Result<String, RunError>)
        requires
            self.wf(),
        ensures
            (r matches Err(RunError::Gel(_))) <==> self.spec_doc().grammars.spec_get(grammar@) is None,
            r matches Err(RunError::Gel(e)) ==> crate::errors::is_grammar_not_found(e, grammar@),
            !(r matches Err(RunError::UnknownFormat(_))),
            r matches Ok(t) ==> exists|res: ExecutionResult|
                #[trigger] run_result(res, input.spec_bytes()) && res.consumed >= grammar_advance(self.spec_doc(), grammar@, input.spec_bytes()) && res.error is None && t@ == tree_text(res.flat->0, RuntimeFormat::Json),
            r matches Err(RunError::Failed(m)) ==> exists|res: ExecutionResult|
                #[trigger] run_result(res, input.spec_bytes()) && res.consumed >= grammar_advance(self.spec_doc(), grammar@, input.spec_bytes()) && res.error == Some(m),
    {
        self.generate_string_as(input, RuntimeFormat::Json, grammar)
    }

    /// Runs a grammar and returns the data tree as XML.
    pub fn run_xml(&self, input: &str, grammar: &str) -> (r: Result<String, RunError>)
        requires
            self.wf(),
        ensures
            (r matches Err(RunError::Gel(_))) <==> self.spec_doc().grammars.spec_get(grammar@) is None,
            r matches Err(RunError::Gel(e)) ==> crate::errors::is_grammar_not_found(e, grammar@),
            !(r matches Err(RunError::UnknownFormat(_))),
            r matches Ok(t) ==> exists|res: ExecutionResult|
                #[trigger] run_result(res, input.spec_bytes()) && res.consumed >= grammar_advance(self.spec_doc(), grammar@, input.spec_bytes()) && res.error is None && t@ == tree_text(res.flat->0, RuntimeFormat::Xml),
            r matches Err(RunError::Failed(m)) ==> exists|res: ExecutionResult|
                #[trigger] run_result(res, input.spec_bytes()) && res.consumed >= grammar_advance(self.spec_doc(), grammar@, input.spec_bytes()) && res.error == Some(m),
    {
        self.generate_string_as(input, RuntimeFormat::Xml, grammar)
    }

    /// Runs a grammar and returns the data tree as YAML.
    pub fn run_yaml(&self, input: &str, grammar: &str) -> (r: Result<String, RunError>)
        requires
            self.wf(),
        ensures
            (r matches Err(RunError::Gel(_))) <==> self.spec_doc().grammars.spec_get(grammar@) is None,
            r matches Err(RunError::Gel(e)) ==> crate::errors::is_grammar_not_found(e, grammar@),
            !(r matches Err(RunError::UnknownFormat(_))),
            r matches Ok(t) ==> exists|res: ExecutionResult|
                #[trigger] run_result(res, input.spec_bytes()) && res.consumed >= grammar_advance(self.spec_doc(), grammar@, input.spec_bytes()) && res.error is None && t@ == tree_text(res.flat->0, RuntimeFormat::Yaml),
            r matches Err(RunError::Failed(m)) ==> exists|res: ExecutionResult|
                #[trigger] run_result(res, input.spec_bytes()) && res.consumed >= grammar_advance(self.spec_doc(), grammar@, input.spec_bytes()) && res.error == Some(m),
    {
        self.generate_string_as(input, RuntimeFormat::Yaml, grammar)
    }

    /// Runs a grammar and returns the data tree in the named format (see
    /// [`parse_format`]); an unknown name is an error before anything runs.
    pub fn generate_string(&self, input: &str, format: &str, grammar: &str) -> (r: Result<String, RunError>)
        requires
            self.wf(),
        ensures
            (r matches Err(RunError::UnknownFormat(_))) <==> format_named(format@) is None,
            format_named(format@) is Some ==> ((r matches Err(RunError::Gel(_)))
                <==> self.spec_doc().grammars.spec_get(grammar@) is None),
            r matches Err(RunError::Gel(e)) ==> crate::errors::is_grammar_not_found(e, grammar@),
            r matches Ok(t) ==> exists|res: ExecutionResult|
                #[trigger] run_result(res, input.spec_bytes()) && res.consumed >= grammar_advance(self.spec_doc(), grammar@, input.spec_bytes()) && res.error is None && t@ == tree_text(res.flat->0, format_named(format@)->0),
            r matches Err(RunError::Failed(m)) ==> exists|res: ExecutionResult|
                #[trigger] run_result(res, input.spec_bytes()) && res.consumed >= grammar_advance(self.spec_doc(), grammar@, input.spec_bytes()) && res.error == Some(m),
    {
        let fmt = match parse_format(format) {
            Ok(f) => f,
            Err(e) => { return Err(e); },
        };
        self.generate_string_as(input, fmt, grammar)
    }
}

/// Compiles Gel source into a context (see [`GelContext::new`]).
pub fn compile_grammar(gel_source: &str) -> (r: Result<GelContext, GelError>)
    requires
        4 * gel_source@.len() < usize::MAX,
    ensures
        r matches Ok(c) ==> c.wf(),
        lex_from(gel_source@, 0, true) is Err ==> (r matches Err(e) && e is Lex && crate::parser::lexer::lex_failure(gel_source@, e)),
        r matches Err(e) ==> e is Lex || e is Parse || e is Validation,
        source_parses(gel_source@) && source_validates(gel_source@) ==> r is Ok,
{
    GelContext::new(gel_source)
}

/// Compiles Gel source into a context (see [`GelContext::new`]).
pub fn compile_string(gel_source: &str) -> (r: Result<GelContext, GelError>)
    requires
        4 * gel_source@.len() < usize::MAX,
    ensures
        r matches Ok(c) ==> c.wf(),
        lex_from(gel_source@, 0, true) is Err ==> (r matches Err(e) && e is Lex && crate::parser::lexer::lex_failure(gel_source@, e)),
        r matches Err(e) ==> e is Lex || e is Parse || e is Validation,
        source_parses(gel_source@) && source_validates(gel_source@) ==> r is Ok,
{
    GelContext::new(gel_source)
}

/// The syntax tree of Gel source as JSON.
pub fn parse_gel_to_json(input: &str) -> (r: Result<String, GelError>)
    requires
        4 * input@.len() < usize::MAX,
    ensures
        r is Ok ==> lex_from(input@, 0, true) is Ok,
        lex_from(input@, 0, true) is Err ==> (r matches Err(e) && e is Lex && crate::parser::lexer::lex_failure(input@, e)),
        r matches Err(e) ==> e is Lex || e is Parse,
        r matches Ok(t) ==> exists|toks: Seq<Token>| parsed_json(input@, toks, t@),
        r matches Err(GelError::Parse { message, span }) ==> exists|toks: Seq<Token>| refused(input@, toks, message@, span),
        source_parses(input@) ==> r is Ok,
{
    Parser::new(OutputFormat::Json).parse_str(input)
}

/// The syntax tree of Gel source as XML.
pub fn parse_gel_to_xml(input: &str) -> (r: Result<String, GelError>)
    requires
        4 * input@.len() < usize::MAX,
    ensures
        r is Ok ==> lex_from(input@, 0, true) is Ok,
        lex_from(input@, 0, true) is Err ==> (r matches Err(e) && e is Lex && crate::parser::lexer::lex_failure(input@, e)),
        r matches Err(e) ==> e is Lex || e is Parse,
        r is Ok ==> exists|toks: Seq<Token>| parsed_doc(input@, toks),
        r matches Ok(t) ==> parsed_xml(input@, t@),
        r matches Err(GelError::Parse { message, span }) ==> exists|toks: Seq<Token>| refused(input@, toks, message@, span),
        source_parses(input@) ==> r is Ok,
{
    Parser::new(OutputFormat::Xml).parse_str(input)
}

/// The syntax tree of Gel source as YAML.
pub fn parse_gel_to_yaml(input: &str) -> (r: Result<String, GelError>)
    requires
        4 * input@.len() < usize::MAX,
    ensures
        r is Ok ==> lex_from(input@, 0, true) is Ok,
        lex_from(input@, 0, true) is Err ==> (r matches Err(e) && e is Lex && crate::parser::lexer::lex_failure(input@, e)),
        r matches Err(e) ==> e is Lex || e is Parse,
        r is Ok ==> exists|toks: Seq<Token>| parsed_doc(input@, toks),
        r matches Ok(t) ==> parsed_yaml(input@, t@),
        r matches Err(GelError::Parse { message, span }) ==> exists|toks: Seq<Token>| refused(input@, toks, message@, span),
        source_parses(input@) ==> r is Ok,
{
    Parser::new(OutputFormat::Yaml).parse_str(input)
}

/// The error text of a failed rendering, wrapped in a format's shape.
pub open spec fn wrapped(prefix: Seq<char>, msg: Seq<char>, suffix: Seq<char>) -> Seq<char> {
    prefix + msg + suffix
}

/// `prefix` + the error's display text + `suffix`.
fn wrap_error(prefix: &str, e: &GelError, suffix: &str) -> (r: String)
    ensures
        exists|m: Seq<char>| r@ == wrapped(prefix@, m, suffix@),
{
    let mut s = prefix.to_string();
    let t = e.to_string();
    s.append(t.as_str());
    s.append(suffix);
    assert(s@ == wrapped(prefix@, t@, suffix@));
    s
}

/// The syntax tree of Gel source as JSON, or `{"error":"..."}` with the
/// error's text.
pub fn parse_to_json(input: &str) -> (r: String)
    requires
        4 * input@.len() < usize::MAX,
    ensures
        lex_from(input@, 0, true) is Err ==> exists|m: Seq<char>| r@ == wrapped("{\"error\":\""@, m, "\"}"@),
        (exists|toks: Seq<Token>| parsed_json(input@, toks, r@)) || (exists|m: Seq<char>| r@ == wrapped(
            "{\"error\":\""@,
            m,
            "\"}"@,
        )),
        source_parses(input@) ==> exists|toks: Seq<Token>| parsed_json(input@, toks, r@),
{
    match parse_gel_to_json(input) {
        Ok(s) => s,
        Err(e) => wrap_error("{\"error\":\"", &e, "\"}"),
    }
}

/// The syntax tree of Gel source as XML, or `<error>...</error>` with the
/// error's text.
pub fn parse_to_xml(input: &str) -> (r: String)
    requires
        4 * input@.len() < usize::MAX,
    ensures
        lex_from(input@, 0, true) is Err ==> exists|m: Seq<char>| r@ == wrapped("<error>"@, m, "</error>"@),
        source_parses(input@) ==> parsed_xml(input@, r@),
        parsed_xml(input@, r@) || (exists|m: Seq<char>| r@ == wrapped("<error>"@, m, "</error>"@)),
{
    match parse_gel_to_xml(input) {
        Ok(s) => s,
        Err(e) => wrap_error("<error>", &e, "</error>"),
    }
}

/// The syntax tree of Gel source as YAML, or `error: ...` with the error's
/// text.
pub fn parse_to_yaml(input: &str) -> (r: String)
    requires
        4 * input@.len() < usize::MAX,
    ensures
        lex_from(input@, 0, true) is Err ==> exists|m: Seq<char>| r@ == wrapped("error: "@, m, ""@),
        source_parses(input@) ==> parsed_yaml(input@, r@),
        parsed_yaml(input@, r@) || (exists|m: Seq<char>| r@ == wrapped("error: "@, m, ""@)),
{
    match parse_gel_to_yaml(input) {
        Ok(s) => s,
        Err(e) => wrap_error("error: ", &e, ""),
    }
}

/// Lexes, parses and runs Gel source against an input (no validation), and
/// serializes the data tree in a format.
fn run_once(gel_source: &str, grammar: &str, runtime_input: &str, format: RuntimeFormat) -> (r: Result<String, RunError>)
    requires
        4 * gel_source@.len() < usize::MAX,
    ensures
        lex_from(gel_source@, 0, true) is Err ==> (r matches Err(RunError::Gel(e)) && e is Lex && crate::parser::lexer::lex_failure(gel_source@, e)),
        r matches Err(RunError::Gel(e)) ==> e is Lex || e is Parse || e is Runtime,
        !(r matches Err(RunError::UnknownFormat(_))),
        source_parses(gel_source@) && source_has_grammar(gel_source@, grammar@) ==> !(r matches Err(RunError::Gel(_))),
        r matches Ok(t) ==> exists|res: ExecutionResult|
            #[trigger] run_result(res, runtime_input.spec_bytes()) && res.error is None && t@ == tree_text(res.flat->0, format),
        r matches Err(RunError::Failed(m)) ==> exists|res: ExecutionResult|
            #[trigger] run_result(res, runtime_input.spec_bytes()) && res.error == Some(m),
{
    let tokens = match lex(gel_source) {
        Ok(t) => t,
        Err(e) => { return Err(RunError::Gel(e)); },
    };
    let mut doc = match parse_gel_document(tokens.as_slice()) {
        Ok(d) => d,
        Err(e) => {
            proof {
                assert(tokens_of(gel_source@, tokens@));
            }
            return Err(RunError::Gel(e));
        },
    };
    proof {
        assert(parsed_as(tokens@, doc));
    }
    let exec = match execute(&mut doc, grammar, runtime_input) {
        Ok(x) => x,
        Err(e) => { return Err(RunError::Gel(e)); },
    };
    proof {
        assert(run_result(exec, runtime_input.spec_bytes()));
    }
    match &exec.error {
        Some(m) => Err(RunError::Failed(m.clone())),
        None => Ok(serialize_tree(&exec, format)),
    }
}

/// Runs Gel source against an input; the data tree as JSON.
pub fn run_grammar(gel_source: &str, grammar: &str, runtime_input: &str) -> (r: Result<String, RunError>)
    requires
        4 * gel_source@.len() < usize::MAX,
    ensures
        lex_from(gel_source@, 0, true) is Err ==> (r matches Err(RunError::Gel(e)) && e is Lex && crate::parser::lexer::lex_failure(gel_source@, e)),
        r matches Err(RunError::Gel(e)) ==> e is Lex || e is Parse || e is Runtime,
        !(r matches Err(RunError::UnknownFormat(_))),
        source_parses(gel_source@) && source_has_grammar(gel_source@, grammar@) ==> !(r matches Err(RunError::Gel(_))),
        r matches Ok(t) ==> exists|res: ExecutionResult|
            #[trigger] run_result(res, runtime_input.spec_bytes()) && res.error is None && t@ == tree_text(res.flat->0, RuntimeFormat::Json),
        r matches Err(RunError::Failed(m)) ==> exists|res: ExecutionResult|
            #[trigger] run_result(res, runtime_input.spec_bytes()) && res.error == Some(m),
{
    run_once(gel_source, grammar, runtime_input, RuntimeFormat::Json)
}

/// Runs Gel source against an input; the data tree as XML.
pub fn run_grammar_xml(gel_source: &str, grammar: &str, runtime_input: &str) -> (r: Result<String, RunError>)
    requires
        4 * gel_source@.len() < usize::MAX,
    ensures
        lex_from(gel_source@, 0, true) is Err ==> (r matches Err(RunError::Gel(e)) && e is Lex && crate::parser::lexer::lex_failure(gel_source@, e)),
        r matches Err(RunError::Gel(e)) ==> e is Lex || e is Parse || e is Runtime,
        !(r matches Err(RunError::UnknownFormat(_))),
        source_parses(gel_source@) && source_has_grammar(gel_source@, grammar@) ==> !(r matches Err(RunError::Gel(_))),
        r matches Ok(t) ==> exists|res: ExecutionResult|
            #[trigger] run_result(res, runtime_input.spec_bytes()) && res.error is None && t@ == tree_text(res.flat->0, RuntimeFormat::Xml),
        r matches Err(RunError::Failed(m)) ==> exists|res: ExecutionResult|
            #[trigger] run_result(res, runtime_input.spec_bytes()) && res.error == Some(m),
{
    run_once(gel_source, grammar, runtime_input, RuntimeFormat::Xml)
}

/// Runs Gel source against an input; the data tree as YAML.
pub fn run_grammar_yaml(gel_source: &str, grammar: &str, runtime_input: &str) -> (r: Result<String, RunError>)
    requires
        4 * gel_source@.len() < usize::MAX,
    ensures
        lex_from(gel_source@, 0, true) is Err ==> (r matches Err(RunError::Gel(e)) && e is Lex && crate::parser::lexer::lex_failure(gel_source@, e)),
        r matches Err(RunError::Gel(e)) ==> e is Lex || e is Parse || e is Runtime,
        !(r matches Err(RunError::UnknownFormat(_))),
        source_parses(gel_source@) && source_has_grammar(gel_source@, grammar@) ==> !(r matches Err(RunError::Gel(_))),
        r matches Ok(t) ==> exists|res: ExecutionResult|
            #[trigger] run_result(res, runtime_input.spec_bytes()) && res.error is None && t@ == tree_text(res.flat->0, RuntimeFormat::Yaml),
        r matches Err(RunError::Failed(m)) ==> exists|res: ExecutionResult|
            #[trigger] run_result(res, runtime_input.spec_bytes()) && res.error == Some(m),
{
    run_once(gel_source, grammar, runtime_input, RuntimeFormat::Yaml)
}

} // verus!
