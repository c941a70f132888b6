//! Rustine: a parser and runtime for the Gel grammar language, which turns
//! unstructured text into a tree and serializes it as JSON, XML or YAML.

use vstd::prelude::*;
use vstd::string::StringSliceAdditionalSpecFns;

pub mod errors;
pub mod bytes;
pub mod text;
pub mod pattern;
pub mod jsonv;
pub mod xmlw;
pub mod parser;
pub mod exec;
pub mod stream;
pub mod bridge;

pub use errors::{Diagnostic, GelError, Severity, Span};
pub use exec::runner::{execute_precompiled, execute, ExecutionResult};
pub use exec::serialize::{serialize_execution, serialize_tree, RuntimeFormat};
pub use parser::{OutputFormat, Parser};

verus! {

/// Parses Gel source and runs a grammar against an input, returning the JSON
/// envelope of the execution (see [`Parser::parse_and_run`]).
pub fn parse_and_run(source: &str, grammar: &str, input: &str) -> (r: Result<String, GelError>)
    requires
        4 * source@.len() < usize::MAX,
    ensures
        crate::parser::lexer::lex_from(source@, 0, true) is Err ==> (r matches Err(e) && e is Lex && crate::parser::lexer::lex_failure(source@, e)),
        r matches Err(e) ==> e is Lex || e is Parse || e is Validation || e is Runtime,
        crate::parser::source_parses(source@) && crate::parser::source_validates(source@)
            && crate::parser::source_has_grammar(source@, grammar@) ==> r is Ok,
        r matches Ok(t) ==> exists|res: ExecutionResult|
            #[trigger] crate::exec::runner::ran_over(res, input.spec_bytes())
                && t@ == crate::jsonv::json_pretty_text(crate::exec::serialize::envelope_json(res, res.flat->0)),
{
    let parser = Parser::new(OutputFormat::Json);
    parser.parse_and_run(source, grammar, input)
}

/// Runs a grammar of a parsed document against an input and serializes the
/// bare data tree in a format.
pub fn execute_and_serialize(doc: &mut crate::parser::ast::GelDocument, grammar: &str, input: &str, format: RuntimeFormat) -> (r: Result<String, GelError>)
    requires
        old(doc).wf(),
    ensures
        final(doc).wf(),
        r is Ok <==> old(doc).grammars.spec_get(grammar@) is Some,
        r matches Err(e) ==> crate::errors::is_grammar_not_found(e, grammar@),
        r matches Ok(t) ==> exists|res: ExecutionResult|
            #[trigger] crate::exec::runner::run_result(res, input.spec_bytes())
                && res.consumed >= crate::exec::runner::grammar_advance(*final(doc), grammar@, input.spec_bytes()) && t@ == crate::exec::serialize::tree_text(res.flat->0, format),
{
    let exec = match execute(doc, grammar, input) {
        Ok(e) => e,
        Err(e) => { return Err(e); },
    };
    proof {
        assert(crate::exec::runner::run_result(exec, input.spec_bytes()));
    }
    Ok(serialize_tree(&exec, format))
}

} // verus!
