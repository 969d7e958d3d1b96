//! The tool's command-line surface, as plain data: input and output paths,
//! a quiet flag, and a flag that lists imports instead of rewriting.
use vstd::prelude::*;

verus! {

/// Arguments of the rewriting tool.
#[derive(Clone, Debug)]
#[verifier::ext_equal]
pub struct Wasm2icArgs {
    /// Quiet mode
    pub quiet: bool,
    /// Show the module's imports instead of processing it
    pub imports: bool,
    /// Input file to process (binary or text form)
    pub input_file: String,
    /// Output file for the processed module
    pub output_file: String,
}

} // verus!
