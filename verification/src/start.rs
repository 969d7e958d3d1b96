//! Normalizes the module's initialization entry point: designate the
//! conventional initialization function as the start function if none is
//! set, and strip its now-redundant export so the host alone ever invokes
//! it.
use vstd::prelude::*;

use crate::matcher::fn_named;
use crate::model::{export_fid, Export, ExportItem, Function, Module};
use crate::search::find_first;
use crate::text::{has_prefix, str_eq, str_starts_with};
use vstd::string::StrSliceExecFns;

verus! {

/// The conventional name of the initialization function.
pub open spec fn initialize_name() -> Seq<char> {
    "_initialize"@
}

/// Predicate for the initialization-function probe.
pub open spec fn init_fn_pred() -> spec_fn(Function) -> bool {
    |f: Function| fn_named(f, initialize_name())
}

/// Predicate for the redundant-export probe: the export's name begins with
/// the initialization name (prefix match, so disambiguation suffixes a
/// producer appended are caught too) and it exports a function.
pub open spec fn init_export_pred() -> spec_fn(Export) -> bool {
    |e: Export| has_prefix(e.name@, initialize_name()) && export_fid(e.item) is Some
}

/// What the start field holds after the assign-start step: an existing
/// start always wins; otherwise the first function named `_initialize`, if
/// any, becomes the start.
pub open spec fn assigned_start(o: Module) -> Option<u64> {
    if o.start is Some {
        o.start
    } else {
        match find_first(o.funcs@, init_fn_pred()) {
            Some(i) => Some(o.funcs@[i].id),
            None => None,
        }
    }
}

/// Relation of the assign-start step: only the start field changes, and it
/// becomes `assigned_start`.
pub open spec fn start_assigned(o: Module, n: Module) -> bool {
    n.funcs == o.funcs && n.imports == o.imports && n.exports == o.exports && n.elements
        == o.elements && n.start == assigned_start(o)
}

/// Relation of the strip-export step: the first function-targeting export
/// whose name begins with the initialization name is removed; everything
/// else is untouched.
pub open spec fn start_export_stripped(o: Module, n: Module) -> bool {
    n.funcs == o.funcs && n.imports == o.imports && n.elements == o.elements && n.start == o.start
        && match find_first(o.exports@, init_export_pred()) {
        Some(i) => n.exports@ == o.exports@.remove(i),
        None => n.exports == o.exports,
    }
}

/// Both steps of the Start Normalizer, in order.
pub open spec fn start_normalized(o: Module, n: Module) -> bool {
    exists|mid: Module| #[trigger] start_assigned(o, mid) && start_export_stripped(mid, n)
}

/// Look up the first function named `_initialize`.
fn find_initialize(module: &Module) -> (r: Option<u64>)
    ensures
        r == match find_first(module.funcs@, init_fn_pred()) {
            Some(i) => Some(module.funcs@[i].id),
            None => None::<u64>,
        },
{
    let n = module.funcs.len();
    let mut i: usize = 0;
    while i < n
        invariant
            n == module.funcs@.len(),
            0 <= i <= n,
            forall|j: int| 0 <= j < i ==> !fn_named(#[trigger] module.funcs@[j], initialize_name()),
        decreases n - i,
    {
        let f = &module.funcs[i];
        let found = match &f.name {
            Some(nm) => str_eq(nm.as_str(), "_initialize"),
            None => false,
        };
        if found {
            proof {
                let p = init_fn_pred();
                assert forall|j: int| 0 <= j < i implies !#[trigger] p(module.funcs@[j]) by {
                    assert(!fn_named(module.funcs@[j], initialize_name()));
                }
                assert(p(module.funcs@[i as int]));
                crate::search::lemma_find_first_eq(module.funcs@, p, i as int);
            }
            return Some(f.id);
        }
        i += 1;
    }
    proof {
        let p = init_fn_pred();
        assert forall|j: int| 0 <= j < module.funcs@.len() implies !#[trigger] p(
            module.funcs@[j],
        ) by {
            assert(!fn_named(module.funcs@[j], initialize_name()));
        }
        crate::search::lemma_find_first_none(module.funcs@, p);
    }
    None
}

/// Designate the function named `_initialize` as the module's start
/// function, if one exists and no start function is set; explicit prior
/// configuration always wins.
pub fn add_start_entry(module: &mut Module)
    ensures
        start_assigned(*old(module), *final(module)),
{
    let initialize_function = find_initialize(module);
    if let Some(initialize) = initialize_function {
        if module.start.is_none() {
            module.start = Some(initialize);
        }
    }
}

/// Look up the first export whose name begins with `_initialize` and whose
/// target is a function.
fn find_start_export(module: &Module) -> (r: Option<usize>)
    ensures
        match r {
            Some(idx) => find_first(module.exports@, init_export_pred()) == Some(idx as int) && idx
                < module.exports@.len(),
            None => find_first(module.exports@, init_export_pred()) is None,
        },
{
    let n = module.exports.len();
    let mut i: usize = 0;
    while i < n
        invariant
            n == module.exports@.len(),
            0 <= i <= n,
            forall|j: int|
                0 <= j < i ==> !(has_prefix((#[trigger] module.exports@[j]).name@, initialize_name())
                    && export_fid(module.exports@[j].item) is Some),
        decreases n - i,
    {
        let e = &module.exports[i];
        if str_starts_with(e.name.as_str(), "_initialize") {
            let is_fn = match e.item {
                ExportItem::Function(_) => true,
                _ => false,
            };
            if is_fn {
                proof {
                    let p = init_export_pred();
                    assert forall|j: int| 0 <= j < i implies !#[trigger] p(module.exports@[j]) by {
                        assert(!(has_prefix(module.exports@[j].name@, initialize_name())
                            && export_fid(module.exports@[j].item) is Some));
                    }
                    assert(p(module.exports@[i as int]));
                    crate::search::lemma_find_first_eq(module.exports@, p, i as int);
                }
                return Some(i);
            }
        }
        i += 1;
    }
    proof {
        let p = init_export_pred();
        assert forall|j: int| 0 <= j < module.exports@.len() implies !#[trigger] p(
            module.exports@[j],
        ) by {
            assert(!(has_prefix(module.exports@[j].name@, initialize_name())
                && export_fid(module.exports@[j].item) is Some));
        }
        crate::search::lemma_find_first_none(module.exports@, p);
    }
    None
}

/// Find and delete the redundant initialization export, if one exists.
pub fn remove_start_export(module: &mut Module)
    ensures
        start_export_stripped(*old(module), *final(module)),
{
    let ghost om = *module;
    let export_found = find_start_export(module);
    if let Some(idx) = export_found {
        module.exports.remove(idx);
        proof {
            assert(module.exports@ == om.exports@.remove(idx as int));
        }
    }
}


/// An export matches the redundant-initialization probe.
pub open spec fn start_export_matches(e: Export) -> bool {
    has_prefix(e.name@, initialize_name()) && export_fid(e.item) is Some
}

/// At most one export matches the redundant-initialization probe.
pub open spec fn at_most_one_start_export(m: Module) -> bool {
    forall|i: int, j: int|
        0 <= i < j < m.exports@.len() ==> !(start_export_matches(#[trigger] m.exports@[i])
            && start_export_matches(#[trigger] m.exports@[j]))
}

/// The start-idempotence law: running the Start Normalizer twice in
/// succession produces the same module as running it once — the start
/// function is never reassigned and no second export is removed — provided
/// at most one export matches the initialization probe.  (With two
/// matching exports, say one named `_initialize` and another
/// `_initialize_v2`, a second run would remove the second one.)
pub proof fn lemma_start_normalize_idempotent(m0: Module, m1: Module, m2: Module)
    requires
        at_most_one_start_export(m0),
        start_normalized(m0, m1),
        start_normalized(m1, m2),
    ensures
        m2 == m1,
{
    let mid1 = choose|mid: Module| #[trigger] start_assigned(m0, mid) && start_export_stripped(
        mid,
        m1,
    );
    let mid2 = choose|mid: Module| #[trigger] start_assigned(m1, mid) && start_export_stripped(
        mid,
        m2,
    );
    let p = init_export_pred();
    assert forall|j: int|
        0 <= j < m0.exports@.len() implies #[trigger] p(m0.exports@[j]) == start_export_matches(
        m0.exports@[j],
    ) by {}

    // The second assign step changes nothing: either the start was already
    // set after the first run, or no initialization function exists and
    // the function list is unchanged.
    assert(m1.funcs == mid1.funcs && mid1.funcs == m0.funcs);
    assert(m1.start == mid1.start && mid1.start == assigned_start(m0));
    if m1.start is Some {
        assert(assigned_start(m1) == m1.start);
    } else {
        assert(assigned_start(m0) is None);
        assert(m0.start is None || find_first(m0.funcs@, init_fn_pred()) is None);
        assert(find_first(m1.funcs@, init_fn_pred()) == find_first(m0.funcs@, init_fn_pred()));
        assert(assigned_start(m1) is None);
    }
    assert(mid2.start == m1.start);
    assert(mid2 =~= m1);

    // The second strip step finds nothing: the only matching export, if
    // there was one, is already gone.
    match find_first(m0.exports@, p) {
        Some(i) => {
            crate::search::lemma_find_first(m0.exports@, p);
            assert(m1.exports@ == m0.exports@.remove(i));
            assert forall|j: int| 0 <= j < m1.exports@.len() implies !#[trigger] p(
                m1.exports@[j],
            ) by {
                if j < i {
                    assert(m1.exports@[j] == m0.exports@[j]);
                    if p(m0.exports@[j]) {
                        assert(start_export_matches(m0.exports@[j]) && start_export_matches(
                            m0.exports@[i],
                        ));
                    }
                } else {
                    assert(m1.exports@[j] == m0.exports@[j + 1]);
                    if p(m0.exports@[j + 1]) {
                        assert(start_export_matches(m0.exports@[i]) && start_export_matches(
                            m0.exports@[j + 1],
                        ));
                    }
                }
            }
            crate::search::lemma_find_first_none(m1.exports@, p);
        },
        None => {
            crate::search::lemma_find_first(m0.exports@, p);
            assert(m1.exports@ == m0.exports@);
            assert forall|j: int| 0 <= j < m1.exports@.len() implies !#[trigger] p(
                m1.exports@[j],
            ) by {
                assert(!p(m0.exports@[j]));
            }
            crate::search::lemma_find_first_none(m1.exports@, p);
        },
    }
    assert(find_first(mid2.exports@, p) is None) by {
        assert(mid2.exports@ == m1.exports@);
    }
    assert(m2.exports == mid2.exports);
    assert(m2 =~= m1);
}

} // verus!
