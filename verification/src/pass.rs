//! The pass orchestrator.  The replacement map is built first, in
//! isolation, before anything is mutated; when it is empty the module is
//! returned byte-for-byte unchanged with a "not modified" signal, so a
//! module that never meant to use this mechanism is never silently
//! altered.  Only a non-empty map triggers the rewrite, the start
//! normalization and the unreachability sweep.
use vstd::prelude::*;

use crate::gc::{is_gc_of, run_module_gc};
use crate::model::{
    exports_target_fns, fn_by_id, fn_ids_unique, fn_index_of, import_fid, imports_backed,
    lemma_fn_index_of, lemma_fn_index_of_pointwise, module_wf, Module,
};
use crate::replace::{
    calls_replaced, fn_rewritten, gather_replacement_ids, replace_calls, replacement_map,
};
use crate::start::{add_start_entry, remove_start_export, start_normalized};

verus! {

broadcast use vstd::std_specs::hash::group_hash_axioms;

/// The result relation of a live pass: the module passed through the
/// reference rewriter under its own replacement map, then the start
/// normalizer, then the unreachability sweep.
pub open spec fn pass_rewrites(o: Module, n: Module) -> bool {
    exists|m1: Module, m2: Module|
        #![trigger calls_replaced(o, m1, replacement_map(o)), is_gc_of(m2, n)]
        calls_replaced(o, m1, replacement_map(o)) && start_normalized(m1, m2) && is_gc_of(m2, n)
}

/// Rewriting preserves the structural invariant the sweep needs: function
/// ids are untouched, and imported placeholders stay imported.
proof fn lemma_rewrite_preserves_wf(o: Module, n: Module, mv: Map<u64, u64>)
    requires
        calls_replaced(o, n, mv),
        fn_ids_unique(o),
        imports_backed(o),
    ensures
        fn_ids_unique(n),
        imports_backed(n),
{
    assert forall|i: int|
        0 <= i < n.funcs@.len() implies (#[trigger] n.funcs@[i]).id == o.funcs@[i].id by {
        assert(fn_rewritten(o.funcs@[i], n.funcs@[i], mv));
    }
    assert forall|i: int|
        0 <= i < n.imports@.len() implies match import_fid((#[trigger] n.imports@[i]).kind) {
        Some(f) => match fn_by_id(n, f) {
            Some(rec) => rec.kind is Imported,
            None => false,
        },
        None => true,
    } by {
        assert(n.imports@[i] == o.imports@[i]);
        match import_fid(o.imports@[i].kind) {
            Some(f) => {
                lemma_fn_index_of_pointwise(o.funcs@, n.funcs@, f);
                lemma_fn_index_of(o.funcs@, f);
                match fn_index_of(o.funcs@, f) {
                    Some(idx) => {
                        assert(fn_rewritten(o.funcs@[idx], n.funcs@[idx], mv));
                    },
                    None => {},
                }
            },
            None => {},
        }
    }
}

/// Build the replacement map first; if it is empty, leave the module
/// untouched and report "not modified".  Otherwise retarget every
/// reference, normalize the start function, sweep the unreachable
/// leftovers, and report "modified".
pub fn do_module_replacements(module: &mut Module) -> (modified: bool)
    requires
        module_wf(*old(module)),
    ensures
        modified == (replacement_map(*old(module)).dom().len() != 0),
        !modified ==> *final(module) == *old(module),
        modified ==> pass_rewrites(*old(module), *final(module)),
{
    let ghost om = *module;
    // find corresponding ids for replacements
    let fn_replacement_ids = gather_replacement_ids(module);

    if fn_replacement_ids.is_empty() {
        // do not modify the module if there is nothing to rewire
        return false;
    }
    // do recursive call replacement
    replace_calls(module, &fn_replacement_ids);
    let ghost m1 = *module;

    // designate the initialization entry (needed to run initialization),
    // then remove its export to clean up the module's export list
    add_start_entry(module);
    let ghost mid = *module;
    remove_start_export(module);
    let ghost m2 = *module;
    proof {
        assert(start_normalized(m1, m2)) by {
            assert(crate::start::start_assigned(m1, mid) && crate::start::start_export_stripped(
                mid,
                m2,
            ));
        }
        lemma_rewrite_preserves_wf(om, m1, fn_replacement_ids@);
        assert(fn_ids_unique(m2) && imports_backed(m2)) by {
            assert(m2.funcs == m1.funcs && m2.imports == m1.imports);
            assert forall|i: int|
                0 <= i < m2.imports@.len() implies match import_fid(
                (#[trigger] m2.imports@[i]).kind,
            ) {
                Some(f) => match fn_by_id(m2, f) {
                    Some(rec) => rec.kind is Imported,
                    None => false,
                },
                None => true,
            } by {
                assert(m2.imports@[i] == m1.imports@[i]);
            }
        }
    }

    // clean up the unreachable imports and functions
    run_module_gc(module);
    proof {
        assert(calls_replaced(om, m1, replacement_map(om)) && start_normalized(m1, m2) && is_gc_of(
            m2,
            *module,
        ));
    }
    true
}

} // verus!
