//! Errors reported by the compiler core.
use vstd::prelude::*;
use kaspa_txscript::script_builder::ScriptBuilderError;

verus! {

/// An error of the compiler core.
#[derive(Debug)]
pub enum CompilerError {
    /// The program uses a construct the compiler does not support; the text
    /// says which.
    Unsupported(String),
    /// A name is used that no binding defines.
    UndefinedIdentifier(String),
    /// The script builder refused to grow the script.
    ScriptBuilder(ScriptBuilderError),
}

} // verus!
