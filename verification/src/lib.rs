//! Rewires a wasm module's system-interface imports to replacement
//! functions the module itself defines under a fixed naming convention,
//! normalizes the initialization entry point, and sweeps whatever became
//! unreachable.  If no function import from either recognized namespace
//! has a valid replacement, the module is left untouched.
use vstd::prelude::*;

pub mod arguments;
pub mod gc;
pub mod listing;
pub mod matcher;
pub mod model;
pub mod pass;
pub mod paths;
pub mod replace;
mod search;
pub mod start;
mod text;

verus! {

/// Rewire the recognized system-interface imports of `m` to their
/// in-module replacements.  If no import has a valid replacement, the
/// module is not modified at all.  Returns true exactly when the module
/// was modified.
pub fn process_module(m: &mut crate::model::Module) -> (modified: bool)
    requires
        crate::model::module_wf(*old(m)),
    ensures
        modified == (crate::replace::replacement_map(*old(m)).dom().len() != 0),
        !modified ==> *final(m) == *old(m),
        modified ==> crate::pass::pass_rewrites(*old(m), *final(m)),
{
    crate::pass::do_module_replacements(m)
}

/// Convenience listing of the module's function imports.
///
/// Returns pairs of values: (namespace name, function name).
pub fn module_imports(m: &mut crate::model::Module) -> (r: Vec<(String, String)>)
    ensures
        *final(m) == *old(m),
        r@ == crate::listing::spec_module_imports(*old(m)),
{
    crate::listing::get_module_imports(m)
}

} // verus!
