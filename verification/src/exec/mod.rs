//! Execution engine: runs a parsed Gel document against an input text.

use vstd::prelude::*;

pub mod skip;
pub mod matching;
pub mod out;
pub mod runner;
pub mod serialize;
pub mod yaml_out;
pub mod xml_out;
pub mod streaming;

pub use runner::{execute, execute_precompiled, Context, ExecutionResult, Runner};
pub use serialize::{serialize_execution, serialize_tree, RuntimeFormat};

verus! {

} // verus!
