//! Resolves one eligible import to its in-module replacement: derive the
//! candidate name, probe the function name table, then the export table, and
//! validate the candidate's signature and kind.
use vstd::prelude::*;

use crate::model::{
    fn_by_id, fn_index_of, find_fn_index, has_fn, lemma_fn_index_of, sig_eq, sig_matches,
    export_fid, exports_target_fns, Export, ExportItem, Function, FunctionKind, Module,
};
use crate::search::find_first;
use crate::text::str_eq;
use vstd::string::StrSliceExecFns;
use vstd::string::StringExecFns;

verus! {

/// The legacy system-interface namespace the pass recognizes.
pub open spec fn legacy_namespace() -> Seq<char> {
    "wasi_unstable"@
}

/// The current system-interface namespace the pass recognizes.
pub open spec fn current_namespace() -> Seq<char> {
    "wasi_snapshot_preview1"@
}

/// Only the two system-interface namespaces qualify for replacement.
pub open spec fn recognized_namespace(ns: Seq<char>) -> bool {
    ns == legacy_namespace() || ns == current_namespace()
}

/// The fixed prefix of every replacement function's name.
pub open spec fn replacement_prefix() -> Seq<char> {
    "__ic_custom_"@
}

/// The name a replacement for the given import must carry.
pub open spec fn candidate_name(import_name: Seq<char>) -> Seq<char> {
    replacement_prefix() + import_name
}

/// The function's assigned name equals `n`.
pub open spec fn fn_named(f: Function, n: Seq<char>) -> bool {
    match f.name {
        Some(s) => s@ == n,
        None => false,
    }
}

/// The export's name equals `n` and it exports a function.
pub open spec fn export_names_fn(e: Export, n: Seq<char>) -> bool {
    e.name@ == n && export_fid(e.item) is Some
}

/// Predicate for the name-table probe, shared between spec and proofs.
pub open spec fn named_pred(n: Seq<char>) -> spec_fn(Function) -> bool {
    |f: Function| fn_named(f, n)
}

/// Predicate for the export-table probe, shared between spec and proofs.
pub open spec fn export_pred(n: Seq<char>) -> spec_fn(Export) -> bool {
    |e: Export| export_names_fn(e, n)
}

/// How resolving one import ended.  Every variant other than `Replaced`
/// leaves the import untouched; the three rejection variants double as the
/// diagnostics the pass reports.
#[derive(Clone, Copy, PartialEq, Eq, Structural, Debug)]
pub enum MatchOutcome {
    /// A validated replacement with the given function id was found.
    Replaced(u64),
    /// The import's namespace is not one of the two recognized ones.
    UnrecognizedNamespace,
    /// No function or export carries the candidate name.
    NotFound,
    /// A candidate was found but its signature differs from the import's.
    SignatureMismatch(u64),
    /// A candidate was found but is itself an imported function.
    ImportedCandidate(u64),
}

/// Validate a found candidate: its signature must equal the original
/// import's, and it must not itself be an imported function.  A candidate
/// found and rejected is resolved-and-failed: no further search happens.
pub open spec fn spec_validate(m: Module, orig: u64, cand: u64) -> MatchOutcome {
    match (fn_by_id(m, orig), fn_by_id(m, cand)) {
        (Some(of), Some(cf)) => if !sig_matches(of.sig, cf.sig) {
            MatchOutcome::SignatureMismatch(cand)
        } else if cf.kind is Imported {
            MatchOutcome::ImportedCandidate(cand)
        } else {
            MatchOutcome::Replaced(cand)
        },
        _ => MatchOutcome::NotFound,
    }
}

/// The whole resolution, as a function of the module and the import's
/// namespace, name and backing function id: gate on the namespace, derive
/// the candidate name, probe functions first and exports second (first
/// match wins), validate whatever the probe found.
pub open spec fn spec_match(m: Module, ns: Seq<char>, name: Seq<char>, fid: u64) -> MatchOutcome {
    if !recognized_namespace(ns) {
        MatchOutcome::UnrecognizedNamespace
    } else {
        let cname = candidate_name(name);
        match find_first(m.funcs@, named_pred(cname)) {
            Some(i) => spec_validate(m, fid, m.funcs@[i].id),
            None => match find_first(m.exports@, export_pred(cname)) {
                Some(j) => match export_fid(m.exports@[j].item) {
                    Some(c) => spec_validate(m, fid, c),
                    None => MatchOutcome::NotFound,
                },
                None => MatchOutcome::NotFound,
            },
        }
    }
}

/// The replacement id the resolution yields, if it succeeded.
pub open spec fn spec_replacement(m: Module, ns: Seq<char>, name: Seq<char>, fid: u64) -> Option<
    u64,
> {
    match spec_match(m, ns, name, fid) {
        MatchOutcome::Replaced(v) => Some(v),
        _ => None,
    }
}

/// Look up a function index from an id known to exist.
fn fn_index_for(m: &Module, id: u64) -> (r: usize)
    requires
        has_fn(*m, id),
    ensures
        fn_index_of(m.funcs@, id) == Some(r as int),
        r < m.funcs@.len(),
        m.funcs@[r as int].id == id,
{
    proof {
        lemma_fn_index_of(m.funcs@, id);
    }
    match find_fn_index(m, id) {
        Some(i) => i,
        None => 0,
    }
}

/// Validate a candidate replacement against the original import's function.
fn validate_candidate(m: &Module, orig: u64, cand: u64) -> (r: MatchOutcome)
    requires
        has_fn(*m, orig),
        has_fn(*m, cand),
    ensures
        r == spec_validate(*m, orig, cand),
{
    let oi = fn_index_for(m, orig);
    let ci = fn_index_for(m, cand);
    let of = &m.funcs[oi];
    let cf = &m.funcs[ci];
    if !sig_eq(&of.sig, &cf.sig) {
        MatchOutcome::SignatureMismatch(cand)
    } else {
        match &cf.kind {
            FunctionKind::Imported => MatchOutcome::ImportedCandidate(cand),
            _ => MatchOutcome::Replaced(cand),
        }
    }
}

/// Resolve one import.  Mirrors `spec_match` exactly; the rejection
/// variants of the outcome are this function's diagnostics.
pub fn match_import(m: &Module, module_name: &str, import_name: &str, fn_id: u64) -> (r:
    MatchOutcome)
    requires
        has_fn(*m, fn_id),
        exports_target_fns(*m),
    ensures
        r == spec_match(*m, module_name@, import_name@, fn_id),
{
    if !(str_eq(module_name, "wasi_unstable") || str_eq(module_name, "wasi_snapshot_preview1")) {
        return MatchOutcome::UnrecognizedNamespace;
    }
    let searched = String::from_str("__ic_custom_").concat(import_name);
    let ghost cname = candidate_name(import_name@);
    assert(searched@ == cname);

    // 1) search by function name
    let n = m.funcs.len();
    let mut i: usize = 0;
    while i < n
        invariant
            n == m.funcs@.len(),
            0 <= i <= n,
            searched@ == cname,
            cname == candidate_name(import_name@),
            recognized_namespace(module_name@),
            has_fn(*m, fn_id),
            forall|j: int| 0 <= j < i ==> !fn_named(#[trigger] m.funcs@[j], cname),
        decreases n - i,
    {
        let f = &m.funcs[i];
        let found = match &f.name {
            Some(nm) => str_eq(nm.as_str(), searched.as_str()),
            None => false,
        };
        if found {
            proof {
                let p = named_pred(cname);
                assert forall|j: int| 0 <= j < i implies !#[trigger] p(m.funcs@[j]) by {
                    assert(!fn_named(m.funcs@[j], cname));
                }
                assert(p(m.funcs@[i as int]));
                crate::search::lemma_find_first_eq(m.funcs@, p, i as int);
            }
            return validate_candidate(m, fn_id, f.id);
        }
        i += 1;
    }
    proof {
        let p = named_pred(cname);
        assert forall|j: int| 0 <= j < m.funcs@.len() implies !#[trigger] p(m.funcs@[j]) by {
            assert(!fn_named(m.funcs@[j], cname));
        }
        crate::search::lemma_find_first_none(m.funcs@, p);
    }

    // 2) additionally try the exports, in case the function was renamed
    let ne = m.exports.len();
    let mut k: usize = 0;
    while k < ne
        invariant
            ne == m.exports@.len(),
            0 <= k <= ne,
            searched@ == cname,
            cname == candidate_name(import_name@),
            recognized_namespace(module_name@),
            has_fn(*m, fn_id),
            exports_target_fns(*m),
            find_first(m.funcs@, named_pred(cname)) is None,
            forall|j: int| 0 <= j < k ==> !export_names_fn(#[trigger] m.exports@[j], cname),
        decreases ne - k,
    {
        let e = &m.exports[k];
        if str_eq(e.name.as_str(), searched.as_str()) {
            match e.item {
                ExportItem::Function(c) => {
                    proof {
                        let p = export_pred(cname);
                        assert forall|j: int| 0 <= j < k implies !#[trigger] p(m.exports@[j]) by {
                            assert(!export_names_fn(m.exports@[j], cname));
                        }
                        assert(p(m.exports@[k as int]));
                        crate::search::lemma_find_first_eq(m.exports@, p, k as int);
                    }
                    return validate_candidate(m, fn_id, c);
                },
                _ => {},
            }
        }
        k += 1;
    }
    proof {
        let p = export_pred(cname);
        assert forall|j: int| 0 <= j < m.exports@.len() implies !#[trigger] p(m.exports@[j]) by {
            assert(!export_names_fn(m.exports@[j], cname));
        }
        crate::search::lemma_find_first_none(m.exports@, p);
    }
    MatchOutcome::NotFound
}

/// The id of the validated replacement for one import, or `None` when the
/// namespace is foreign, no candidate exists, or the candidate was rejected.
pub fn get_replacement_module_id(m: &Module, module_name: &str, import_name: &str, fn_id: u64) -> (r:
    Option<u64>)
    requires
        has_fn(*m, fn_id),
        exports_target_fns(*m),
    ensures
        r == spec_replacement(*m, module_name@, import_name@, fn_id),
{
    match match_import(m, module_name, import_name, fn_id) {
        MatchOutcome::Replaced(v) => Some(v),
        _ => None,
    }
}

} // verus!
