//! Read-only introspection of a module's imports: the (namespace, name)
//! listing in declaration order, and the check that every remaining
//! function import belongs to one approved runtime namespace.
use vstd::prelude::*;

use crate::model::{import_fid, Import, ImportKind, Module};
use crate::text::str_eq;
use vstd::string::StrSliceExecFns;

verus! {

/// Predicate selecting the function-backed imports.
pub open spec fn fn_import_pred() -> spec_fn(Import) -> bool {
    |imp: Import| import_fid(imp.kind) is Some
}

/// The mapping from an import to its listed (namespace, name) pair.
pub open spec fn import_pair_fn() -> spec_fn(Import) -> (String, String) {
    |imp: Import| (imp.module, imp.name)
}

/// The (namespace, name) pairs of every function-backed import, in import
/// declaration order.
pub open spec fn spec_module_imports(m: Module) -> Seq<(String, String)> {
    m.imports@.filter(fn_import_pred()).map_values(import_pair_fn())
}

/// List every function-backed import as a (namespace, name) pair, in
/// declaration order.
pub fn get_module_imports(module: &Module) -> (r: Vec<(String, String)>)
    ensures
        r@ == spec_module_imports(*module),
{
    let mut out: Vec<(String, String)> = Vec::new();
    let n = module.imports.len();
    let mut i: usize = 0;
    while i < n
        invariant
            n == module.imports@.len(),
            0 <= i <= n,
            out@ == module.imports@.take(i as int).filter(fn_import_pred()).map_values(
                import_pair_fn(),
            ),
        decreases n - i,
    {
        let ghost pre = module.imports@.take(i as int);
        let imp = &module.imports[i];
        let is_fn = match imp.kind {
            ImportKind::Function(_) => true,
            _ => false,
        };
        if is_fn {
            out.push((imp.module.clone(), imp.name.clone()));
        }
        proof {
            let f = import_pair_fn();
            pre.lemma_filter_push(module.imports@[i as int], fn_import_pred());
            assert(module.imports@.take(i as int + 1) =~= pre.push(module.imports@[i as int]));
            if is_fn {
                assert(pre.push(module.imports@[i as int]).filter(fn_import_pred()) == pre.filter(
                    fn_import_pred(),
                ).push(module.imports@[i as int]));
                assert(pre.filter(fn_import_pred()).push(module.imports@[i as int]).map_values(f)
                    =~= pre.filter(fn_import_pred()).map_values(f).push(
                    f(module.imports@[i as int]),
                ));
            }
        }
        i += 1;
    }
    proof {
        assert(module.imports@.take(n as int) =~= module.imports@);
    }
    out
}

/// Some function-backed import names a namespace other than `allowed`.
pub open spec fn spec_has_disallowed_imports(m: Module, allowed: Seq<char>) -> bool {
    exists|i: int|
        0 <= i < m.imports@.len() && import_fid((#[trigger] m.imports@[i]).kind) is Some
            && m.imports@[i].module@ != allowed
}

/// Report whether any function-backed import names a namespace other than
/// the single approved one.
pub fn has_disallowed_imports(module: &Module, allowed: &str) -> (r: bool)
    ensures
        r == spec_has_disallowed_imports(*module, allowed@),
{
    let n = module.imports.len();
    let mut i: usize = 0;
    while i < n
        invariant
            n == module.imports@.len(),
            0 <= i <= n,
            forall|j: int|
                0 <= j < i ==> !(import_fid((#[trigger] module.imports@[j]).kind) is Some
                    && module.imports@[j].module@ != allowed@),
        decreases n - i,
    {
        let imp = &module.imports[i];
        let is_fn = match imp.kind {
            ImportKind::Function(_) => true,
            _ => false,
        };
        if is_fn && !str_eq(imp.module.as_str(), allowed) {
            return true;
        }
        i += 1;
    }
    false
}

} // verus!
