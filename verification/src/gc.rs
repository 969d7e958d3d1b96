//! The unreachability sweep that follows a successful rewrite: starting
//! from the exports, the start function and the element segments, mark
//! every function the module can still reach, then drop every unmarked
//! function and every import whose backing function is unmarked.  Exports,
//! elements and the start field are the roots and are kept as they are.
use vstd::prelude::*;

use crate::model::{
    elem_fid, export_fid, fn_ids_unique, fn_index_of, import_fid, imports_backed, instr_fid,
    lemma_fn_index_of, find_fn_index, ElemItem, Export, ExportItem, Function, FunctionKind, Import,
    ImportKind, Instr, LocalBody, Module,
};
use crate::replace::{count_false, lemma_count_false_nonneg, lemma_count_false_update, work_has};

verus! {

/// A function id rooted directly: designated as start, targeted by an
/// export, or held by an element-segment slot.
pub open spec fn is_gc_root(m: Module, f: u64) -> bool {
    m.start == Some(f) || (exists|i: int|
        0 <= i < m.exports@.len() && export_fid((#[trigger] m.exports@[i]).item) == Some(f)) || (
    exists|e: int, k: int|
        0 <= e < m.elements@.len() && 0 <= k < m.elements@[e].items@.len() && elem_fid(
            #[trigger] m.elements@[e].items@[k],
        ) == Some(f))
}

/// The function record `f` references the function id `g` from some
/// instruction of its body.
pub open spec fn fn_refs(f: Function, g: u64) -> bool {
    match f.kind {
        FunctionKind::Local(b) => exists|s: int, k: int|
            0 <= s < b.seqs@.len() && 0 <= k < b.seqs@[s]@.len() && instr_fid(
                #[trigger] b.seqs@[s]@[k],
            ) == Some(g),
        _ => false,
    }
}

/// Some function record with id `a` references id `b`.
pub open spec fn fn_links(m: Module, a: u64, b: u64) -> bool {
    exists|i: int|
        0 <= i < m.funcs@.len() && (#[trigger] m.funcs@[i]).id == a && fn_refs(m.funcs@[i], b)
}

/// `p` is a chain of references from a root to `f`.
pub open spec fn is_live_path(m: Module, p: Seq<u64>, f: u64) -> bool {
    p.len() >= 1 && is_gc_root(m, p[0]) && p.last() == f && forall|k: int|
        0 <= k < p.len() - 1 ==> fn_links(m, #[trigger] p[k], p[k + 1])
}

/// The function id `f` is reachable from the module's roots.
#[verifier::opaque]
pub open spec fn is_live(m: Module, f: u64) -> bool {
    exists|p: Seq<u64>| is_live_path(m, p, f)
}

/// An import survives the sweep: either it does not back a function, or
/// the function it backs is live.
pub open spec fn import_live(m: Module, imp: Import) -> bool {
    match import_fid(imp.kind) {
        Some(f) => is_live(m, f),
        None => true,
    }
}

/// Predicate for filtering the function list, shared between the relation
/// and the proofs.
pub open spec fn live_fn_pred(m: Module) -> spec_fn(Function) -> bool {
    |f: Function| is_live(m, f.id)
}

/// Predicate for filtering the import list.
pub open spec fn live_import_pred(m: Module) -> spec_fn(Import) -> bool {
    |imp: Import| import_live(m, imp)
}

/// Relation of the sweep: exports, elements and start are untouched;
/// exactly the live functions and the imports backing live functions
/// survive, in order.
pub open spec fn is_gc_of(o: Module, n: Module) -> bool {
    n.exports == o.exports && n.elements == o.elements && n.start == o.start && n.funcs@
        == o.funcs@.filter(live_fn_pred(o)) && n.imports@ == o.imports@.filter(live_import_pred(o))
}

/// A root id is live.
pub proof fn lemma_live_root(m: Module, f: u64)
    requires
        is_gc_root(m, f),
    ensures
        is_live(m, f),
{
    reveal(is_live);
    let p: Seq<u64> = seq![f];
    assert(p.last() == f);
    assert(is_live_path(m, p, f));
}

/// Liveness is closed under one more reference.
pub proof fn lemma_live_step(m: Module, a: u64, b: u64)
    requires
        is_live(m, a),
        fn_links(m, a, b),
    ensures
        is_live(m, b),
{
    reveal(is_live);
    let p = choose|p: Seq<u64>| is_live_path(m, p, a);
    let q = p.push(b);
    assert(q.last() == b);
    assert(q[0] == p[0]);
    assert forall|k: int| 0 <= k < q.len() - 1 implies fn_links(m, #[trigger] q[k], q[k + 1]) by {
        if k < p.len() - 1 {
            assert(q[k] == p[k]);
            assert(q[k + 1] == p[k + 1]);
            assert(fn_links(m, p[k], p[k + 1]));
        } else {
            assert(k == p.len() - 1);
            assert(q[k] == p.last());
            assert(q[k + 1] == b);
        }
    }
    assert(is_live_path(m, q, b));
}

/// A live path's endpoint is marked in any mark table that covers the
/// roots and is closed under references.
proof fn lemma_live_path_marked(m: Module, lset: Seq<bool>, p: Seq<u64>, f: u64, idx: int)
    requires
        lset.len() == m.funcs@.len(),
        forall|i: int|
            0 <= i < lset.len() && is_gc_root(m, (#[trigger] m.funcs@[i]).id) ==> lset[i],
        forall|i: int, j: int|
            0 <= i < lset.len() && lset[i] && 0 <= j < lset.len() && fn_refs(
                #[trigger] m.funcs@[i],
                (#[trigger] m.funcs@[j]).id,
            ) ==> lset[j],
        is_live_path(m, p, f),
        0 <= idx < lset.len(),
        m.funcs@[idx].id == f,
    ensures
        lset[idx],
    decreases p.len(),
{
    if p.len() == 1 {
        assert(is_gc_root(m, f));
        assert(is_gc_root(m, m.funcs@[idx].id));
    } else {
        let a = p[p.len() - 2];
        assert(fn_links(m, a, f)) by {
            assert(fn_links(m, p[p.len() - 2], p[p.len() - 2 + 1]));
        }
        let ia = choose|i: int|
            0 <= i < m.funcs@.len() && (#[trigger] m.funcs@[i]).id == a && fn_refs(
                m.funcs@[i],
                f,
            );
        let q = p.drop_last();
        assert forall|k: int| 0 <= k < q.len() - 1 implies fn_links(m, #[trigger] q[k], q[k + 1]) by {
            assert(q[k] == p[k]);
            assert(q[k + 1] == p[k + 1]);
            assert(fn_links(m, p[k], p[k + 1]));
        }
        assert(q.last() == a);
        assert(is_live_path(m, q, a));
        lemma_live_path_marked(m, lset, q, a, ia);
        assert(fn_refs(m.funcs@[ia], m.funcs@[idx].id));
    }
}

/// A live id with a record is marked in any mark table that covers the
/// roots and is closed under references.
pub proof fn lemma_live_marked(m: Module, lset: Seq<bool>, idx: int)
    requires
        lset.len() == m.funcs@.len(),
        forall|i: int|
            0 <= i < lset.len() && is_gc_root(m, (#[trigger] m.funcs@[i]).id) ==> lset[i],
        forall|i: int, j: int|
            0 <= i < lset.len() && lset[i] && 0 <= j < lset.len() && fn_refs(
                #[trigger] m.funcs@[i],
                (#[trigger] m.funcs@[j]).id,
            ) ==> lset[j],
        0 <= idx < lset.len(),
        is_live(m, m.funcs@[idx].id),
    ensures
        lset[idx],
{
    reveal(is_live);
    let p = choose|p: Seq<u64>| is_live_path(m, p, m.funcs@[idx].id);
    lemma_live_path_marked(m, lset, p, m.funcs@[idx].id, idx);
}

/// Mark the function record carrying a live id, if there is one and it is
/// not marked yet, and queue it for scanning.
fn mark_live(m: &Module, live: &mut Vec<bool>, work: &mut Vec<usize>, f: u64)
    requires
        fn_ids_unique(*m),
        old(live)@.len() == m.funcs@.len(),
        is_live(*m, f),
        forall|i: int|
            0 <= i < old(live)@.len() && #[trigger] old(live)@[i] ==> is_live(
                *m,
                m.funcs@[i].id,
            ),
        forall|t: int|
            0 <= t < old(work)@.len() ==> ((#[trigger] old(work)@[t]) as int) < old(live)@.len()
                && old(live)@[old(work)@[t] as int],
    ensures
        final(live)@.len() == old(live)@.len(),
        forall|i: int|
            0 <= i < old(live)@.len() && #[trigger] old(live)@[i] ==> final(live)@[i],
        forall|i: int|
            0 <= i < old(live)@.len() && #[trigger] final(live)@[i] ==> is_live(
                *m,
                m.funcs@[i].id,
            ),
        forall|t: int|
            0 <= t < final(work)@.len() ==> ((#[trigger] final(work)@[t]) as int) < old(
                live,
            )@.len() && final(live)@[final(work)@[t] as int],
        forall|j: int|
            0 <= j < m.funcs@.len() && (#[trigger] m.funcs@[j]).id == f ==> final(live)@[j],
        forall|b: int| work_has(old(work)@, b) ==> work_has(final(work)@, b),
        (final(live)@ == old(live)@ && final(work)@ == old(work)@) || (exists|idx: usize|
            (idx as int) < old(live)@.len() && !old(live)@[idx as int] && final(live)@ == old(
                live,
            )@.update(idx as int, true) && final(work)@ == old(work)@.push(idx)),
{
    let ghost pre_live = live@;
    let ghost pre_work = work@;
    match find_fn_index(m, f) {
        Some(idx) => {
            proof {
                lemma_fn_index_of(m.funcs@, f);
            }
            if !live[idx] {
                live[idx] = true;
                work.push(idx);
                proof {
                    assert(live@ == pre_live.update(idx as int, true));
                    assert(work@ == pre_work.push(idx));
                    assert forall|j: int|
                        0 <= j < m.funcs@.len() && (#[trigger] m.funcs@[j]).id == f implies live@[j] by {
                        assert(m.funcs@[idx as int].id == f);
                        if j != idx as int {
                            assert(m.funcs@[j].id != m.funcs@[idx as int].id);
                        }
                    }
                    assert forall|b: int| work_has(pre_work, b) implies work_has(work@, b) by {
                        let t = choose|t: int|
                            0 <= t < pre_work.len() && (#[trigger] pre_work[t]) as int == b;
                        assert((work@[t]) as int == b);
                    }
                    assert((work@[work@.len() - 1]) as int == idx as int);
                }
            } else {
                proof {
                    assert forall|j: int|
                        0 <= j < m.funcs@.len() && (#[trigger] m.funcs@[j]).id == f implies live@[j] by {
                        assert(m.funcs@[idx as int].id == f);
                        if j != idx as int {
                            assert(m.funcs@[j].id != m.funcs@[idx as int].id);
                        }
                    }
                }
            }
        },
        None => {
            proof {
                lemma_fn_index_of(m.funcs@, f);
            }
        },
    }
}

/// Every record carrying the id `g` is marked.
pub open spec fn covered(m: Module, live: Seq<bool>, g: u64) -> bool {
    forall|j: int| 0 <= j < m.funcs@.len() && (#[trigger] m.funcs@[j]).id == g ==> live[j]
}

/// The id an instruction references, if any, is covered.
pub open spec fn covered_instr(m: Module, live: Seq<bool>, ins: Instr) -> bool {
    match instr_fid(ins) {
        Some(g) => covered(m, live, g),
        None => true,
    }
}

/// The id an export targets, if any, is covered.
pub open spec fn covered_export(m: Module, live: Seq<bool>, e: Export) -> bool {
    match export_fid(e.item) {
        Some(g) => covered(m, live, g),
        None => true,
    }
}

/// The id an element slot holds, if any, is covered.
pub open spec fn covered_elem_item(m: Module, live: Seq<bool>, it: ElemItem) -> bool {
    match elem_fid(it) {
        Some(g) => covered(m, live, g),
        None => true,
    }
}

/// The marking invariants shared by every phase: marks name existing
/// records of live ids, and the worklist holds marked indices only.
pub open spec fn marks_ok(m: Module, live: Seq<bool>, work: Seq<usize>) -> bool {
    live.len() == m.funcs@.len() && (forall|i: int|
        0 <= i < live.len() && #[trigger] live[i] ==> is_live(m, m.funcs@[i].id)) && (forall|t: int|
        0 <= t < work.len() ==> ((#[trigger] work[t]) as int) < live.len() && live[work[t] as int])
}

/// Coverage survives growing the mark table.
proof fn lemma_covered_mono(m: Module, a: Seq<bool>, b: Seq<bool>, g: u64)
    requires
        a.len() == b.len(),
        forall|i: int| 0 <= i < a.len() && #[trigger] a[i] ==> b[i],
        covered(m, a, g),
        a.len() == m.funcs@.len(),
    ensures
        covered(m, b, g),
{
    assert forall|j: int|
        0 <= j < m.funcs@.len() && (#[trigger] m.funcs@[j]).id == g implies b[j] by {
        assert(a[j]);
    }
}

/// Scan the body of the marked function at index `fi` and mark every
/// function id its instructions reference, queuing newly marked records.
fn scan_body(
    m: &Module,
    body: &LocalBody,
    live: &mut Vec<bool>,
    work: &mut Vec<usize>,
    Ghost(fi): Ghost<int>,
)
    requires
        fn_ids_unique(*m),
        0 <= fi < m.funcs@.len(),
        m.funcs@[fi].kind == FunctionKind::Local(*body),
        is_live(*m, m.funcs@[fi].id),
        marks_ok(*m, old(live)@, old(work)@),
    ensures
        marks_ok(*m, final(live)@, final(work)@),
        final(live)@.len() == old(live)@.len(),
        forall|i: int|
            0 <= i < old(live)@.len() && #[trigger] old(live)@[i] ==> final(live)@[i],
        forall|g: u64| #[trigger] fn_refs(m.funcs@[fi], g) ==> covered(*m, final(live)@, g),
        forall|b: int| work_has(old(work)@, b) ==> work_has(final(work)@, b),
        forall|i: int|
            0 <= i < old(live)@.len() && #[trigger] final(live)@[i] && !old(live)@[i] ==> work_has(
                final(work)@,
                i,
            ),
        (final(live)@ == old(live)@ && final(work)@ == old(work)@) || count_false(final(live)@)
            < count_false(old(live)@),
{
    let ghost entry_live = live@;
    let ghost entry_work = work@;
    let ns = body.seqs.len();
    let mut s: usize = 0;
    while s < ns
        invariant
            fn_ids_unique(*m),
            0 <= fi < m.funcs@.len(),
            m.funcs@[fi].kind == FunctionKind::Local(*body),
            is_live(*m, m.funcs@[fi].id),
            ns == body.seqs@.len(),
            0 <= s <= ns,
            marks_ok(*m, live@, work@),
            live@.len() == entry_live.len(),
            forall|i: int| 0 <= i < entry_live.len() && #[trigger] entry_live[i] ==> live@[i],
            forall|s2: int, k2: int|
                0 <= s2 < s && 0 <= k2 < body.seqs@[s2]@.len() ==> covered_instr(
                    *m,
                    live@,
                    #[trigger] body.seqs@[s2]@[k2],
                ),
            forall|b: int| work_has(entry_work, b) ==> work_has(work@, b),
            forall|i: int|
                0 <= i < entry_live.len() && #[trigger] live@[i] && !entry_live[i] ==> work_has(
                    work@,
                    i,
                ),
            (live@ == entry_live && work@ == entry_work) || count_false(live@) < count_false(
                entry_live,
            ),
        decreases ns - s,
    {
        let seq_ref = &body.seqs[s];
        let nk = seq_ref.len();
        let mut k: usize = 0;
        while k < nk
            invariant
                fn_ids_unique(*m),
                0 <= fi < m.funcs@.len(),
                m.funcs@[fi].kind == FunctionKind::Local(*body),
                is_live(*m, m.funcs@[fi].id),
                ns == body.seqs@.len(),
                0 <= s < ns,
                *seq_ref == body.seqs@[s as int],
                nk == seq_ref@.len(),
                0 <= k <= nk,
                marks_ok(*m, live@, work@),
                live@.len() == entry_live.len(),
                forall|i: int| 0 <= i < entry_live.len() && #[trigger] entry_live[i] ==> live@[i],
                forall|s2: int, k2: int|
                    0 <= s2 < s && 0 <= k2 < body.seqs@[s2]@.len() ==> covered_instr(
                        *m,
                        live@,
                        #[trigger] body.seqs@[s2]@[k2],
                    ),
                forall|k2: int|
                    0 <= k2 < k ==> covered_instr(*m, live@, #[trigger] body.seqs@[s as int]@[k2]),
                forall|b: int| work_has(entry_work, b) ==> work_has(work@, b),
                forall|i: int|
                    0 <= i < entry_live.len() && #[trigger] live@[i] && !entry_live[i]
                        ==> work_has(work@, i),
                (live@ == entry_live && work@ == entry_work) || count_false(live@) < count_false(
                    entry_live,
                ),
            decreases nk - k,
        {
            let ghost pre_live = live@;
            let ghost pre_work = work@;
            let ins = seq_ref[k];
            let target: Option<u64> = match ins {
                Instr::Call { func } => Some(func),
                Instr::ReturnCall { func } => Some(func),
                Instr::RefFunc { func } => Some(func),
                _ => None,
            };
            match target {
                Some(g) => {
                    proof {
                        assert(instr_fid(body.seqs@[s as int]@[k as int]) == Some(g));
                        assert(fn_refs(m.funcs@[fi], g)) by {
                            assert(0 <= s < body.seqs@.len() && 0 <= k
                                < body.seqs@[s as int]@.len() && instr_fid(
                                body.seqs@[s as int]@[k as int],
                            ) == Some(g));
                        }
                        assert(fn_links(*m, m.funcs@[fi].id, g)) by {
                            assert(0 <= fi < m.funcs@.len() && m.funcs@[fi].id == m.funcs@[fi].id
                                && fn_refs(m.funcs@[fi], g));
                        }
                        lemma_live_step(*m, m.funcs@[fi].id, g);
                    }
                    mark_live(m, live, work, g);
                    proof {
                        if live@ != pre_live {
                            let idx = choose|idx: usize|
                                (idx as int) < pre_live.len() && !pre_live[idx as int] && live@
                                    == pre_live.update(idx as int, true) && work@ == pre_work.push(
                                    idx,
                                );
                            lemma_count_false_update(pre_live, idx as int);
                            lemma_count_false_nonneg(live@);
                        }
                        assert forall|i: int|
                            0 <= i < entry_live.len() && #[trigger] live@[i] && !entry_live[i]
                            implies work_has(work@, i) by {
                            if pre_live[i] {
                                assert(work_has(pre_work, i));
                            } else {
                                assert(live@ != pre_live);
                                let idx = choose|idx: usize|
                                    (idx as int) < pre_live.len() && !pre_live[idx as int] && live@
                                        == pre_live.update(idx as int, true) && work@ == pre_work
                                        .push(idx);
                                assert(i == idx as int);
                                assert((work@[work@.len() - 1]) as int == i);
                            }
                        }
                    }
                },
                None => {},
            }
            proof {
                assert forall|k2: int|
                    0 <= k2 < k + 1 implies covered_instr(
                    *m,
                    live@,
                    #[trigger] body.seqs@[s as int]@[k2],
                ) by {
                    if k2 < k {
                        assert(covered_instr(*m, pre_live, body.seqs@[s as int]@[k2]));
                    }
                }
            }
            k += 1;
        }
        s += 1;
    }
    proof {
        assert forall|g: u64| #[trigger] fn_refs(m.funcs@[fi], g) implies covered(
            *m,
            live@,
            g,
        ) by {
            let b = match m.funcs@[fi].kind {
                FunctionKind::Local(b) => b,
                _ => arbitrary(),
            };
            assert(b == *body);
            let (s2, k2) = choose|s2: int, k2: int|
                0 <= s2 < b.seqs@.len() && 0 <= k2 < b.seqs@[s2]@.len() && instr_fid(
                    #[trigger] b.seqs@[s2]@[k2],
                ) == Some(g);
            assert(covered_instr(*m, live@, body.seqs@[s2]@[k2]));
        }
    }
}


/// Every mark has been queued for scanning: the invariant of the root
/// phase, where nothing has been popped yet.
proof fn lemma_queued_after_mark(
    pre_live: Seq<bool>,
    pre_work: Seq<usize>,
    post_live: Seq<bool>,
    post_work: Seq<usize>,
)
    requires
        forall|i: int| 0 <= i < pre_live.len() && #[trigger] pre_live[i] ==> work_has(pre_work, i),
        forall|b: int| work_has(pre_work, b) ==> work_has(post_work, b),
        post_live.len() == pre_live.len(),
        forall|i: int| 0 <= i < pre_live.len() && #[trigger] pre_live[i] ==> post_live[i],
        (post_live == pre_live && post_work == pre_work) || (exists|idx: usize|
            (idx as int) < pre_live.len() && !pre_live[idx as int] && post_live == pre_live.update(
                idx as int,
                true,
            ) && post_work == pre_work.push(idx)),
    ensures
        forall|i: int|
            0 <= i < post_live.len() && #[trigger] post_live[i] ==> work_has(post_work, i),
{
    assert forall|i: int|
        0 <= i < post_live.len() && #[trigger] post_live[i] implies work_has(post_work, i) by {
        if pre_live[i] {
            assert(work_has(pre_work, i));
        } else {
            assert(post_live != pre_live);
            let idx = choose|idx: usize|
                (idx as int) < pre_live.len() && !pre_live[idx as int] && post_live == pre_live
                    .update(idx as int, true) && post_work == pre_work.push(idx);
            assert(i == idx as int);
            assert((post_work[post_work.len() - 1]) as int == i);
        }
    }
}

/// Remove every function the module's roots no longer reach, and every
/// import whose backing function is unreachable: the structural sweep that
/// follows a successful rewrite.  Exports, element segments and the start
/// field are the roots of the sweep and stay exactly as they are, as does
/// every import that does not back a function.
#[verifier::rlimit(60)]
pub fn run_module_gc(m: &mut Module)
    requires
        fn_ids_unique(*old(m)),
        imports_backed(*old(m)),
    ensures
        is_gc_of(*old(m), *final(m)),
{
    let ghost om = *m;
    let nf = m.funcs.len();
    let mut live: Vec<bool> = Vec::new();
    while live.len() < nf
        invariant
            live@.len() <= nf,
            forall|j: int| 0 <= j < live@.len() ==> !(#[trigger] live@[j]),
        decreases nf - live@.len(),
    {
        live.push(false);
    }
    let mut work: Vec<usize> = Vec::new();

    // Roots: every function an export targets
    let ne = m.exports.len();
    let mut ei: usize = 0;
    while ei < ne
        invariant
            *m == om,
            fn_ids_unique(om),
            nf == m.funcs@.len(),
            ne == m.exports@.len(),
            0 <= ei <= ne,
            marks_ok(om, live@, work@),
            forall|i: int| 0 <= i < nf && #[trigger] live@[i] ==> work_has(work@, i),
            forall|j: int| 0 <= j < ei ==> covered_export(om, live@, #[trigger] om.exports@[j]),
        decreases ne - ei,
    {
        let ghost pre_live = live@;
        let ghost pre_work = work@;
        let item = m.exports[ei].item;
        match item {
            ExportItem::Function(f) => {
                proof {
                    assert(export_fid(om.exports@[ei as int].item) == Some(f));
                    assert(is_gc_root(om, f));
                    lemma_live_root(om, f);
                }
                mark_live(m, &mut live, &mut work, f);
            },
            _ => {},
        }
        proof {
            lemma_queued_after_mark(pre_live, pre_work, live@, work@);
            assert forall|j: int| 0 <= j < ei + 1 implies covered_export(
                om,
                live@,
                #[trigger] om.exports@[j],
            ) by {
                if j < ei {
                    match export_fid(om.exports@[j].item) {
                        Some(g) => {
                            lemma_covered_mono(om, pre_live, live@, g);
                        },
                        None => {},
                    }
                }
            }
        }
        ei += 1;
    }

    // Root: the start function
    let ghost live_after_exports = live@;
    let ghost work_after_exports = work@;
    match m.start {
        Some(f) => {
            proof {
                assert(is_gc_root(om, f));
                lemma_live_root(om, f);
            }
            mark_live(m, &mut live, &mut work, f);
            proof {
                lemma_queued_after_mark(live_after_exports, work_after_exports, live@, work@);
                assert forall|j: int| 0 <= j < om.exports@.len() implies covered_export(
                    om,
                    live@,
                    #[trigger] om.exports@[j],
                ) by {
                    match export_fid(om.exports@[j].item) {
                        Some(g) => {
                            lemma_covered_mono(om, live_after_exports, live@, g);
                        },
                        None => {},
                    }
                }
            }
        },
        None => {},
    }

    // Roots: every function an element slot holds
    let nel = m.elements.len();
    let mut e2: usize = 0;
    while e2 < nel
        invariant
            *m == om,
            fn_ids_unique(om),
            nf == m.funcs@.len(),
            nel == m.elements@.len(),
            0 <= e2 <= nel,
            marks_ok(om, live@, work@),
            forall|i: int| 0 <= i < nf && #[trigger] live@[i] ==> work_has(work@, i),
            forall|j: int|
                0 <= j < om.exports@.len() ==> covered_export(om, live@, #[trigger] om.exports@[j]),
            match om.start {
                Some(f) => covered(om, live@, f),
                None => true,
            },
            forall|j: int, k2: int|
                0 <= j < e2 && 0 <= k2 < om.elements@[j].items@.len() ==> covered_elem_item(
                    om,
                    live@,
                    #[trigger] om.elements@[j].items@[k2],
                ),
        decreases nel - e2,
    {
        let ghost pre_seg_live = live@;
        let nit = m.elements[e2].items.len();
        let mut k: usize = 0;
        while k < nit
            invariant
                *m == om,
                fn_ids_unique(om),
                nf == m.funcs@.len(),
                nel == m.elements@.len(),
                0 <= e2 < nel,
                nit == om.elements@[e2 as int].items@.len(),
                0 <= k <= nit,
                marks_ok(om, live@, work@),
                forall|i: int| 0 <= i < nf && #[trigger] live@[i] ==> work_has(work@, i),
                forall|j: int|
                    0 <= j < om.exports@.len() ==> covered_export(
                        om,
                        live@,
                        #[trigger] om.exports@[j],
                    ),
                match om.start {
                    Some(f) => covered(om, live@, f),
                    None => true,
                },
                forall|j: int, k2: int|
                    0 <= j < e2 && 0 <= k2 < om.elements@[j].items@.len() ==> covered_elem_item(
                        om,
                        live@,
                        #[trigger] om.elements@[j].items@[k2],
                    ),
                forall|k2: int|
                    0 <= k2 < k ==> covered_elem_item(
                        om,
                        live@,
                        #[trigger] om.elements@[e2 as int].items@[k2],
                    ),
            decreases nit - k,
        {
            let ghost pre_live = live@;
            let ghost pre_work = work@;
            let it = m.elements[e2].items[k];
            match it {
                ElemItem::Func(f) => {
                    proof {
                        assert(elem_fid(om.elements@[e2 as int].items@[k as int]) == Some(f));
                        assert(is_gc_root(om, f));
                        lemma_live_root(om, f);
                    }
                    mark_live(m, &mut live, &mut work, f);
                },
                ElemItem::Expr => {},
            }
            proof {
                lemma_queued_after_mark(pre_live, pre_work, live@, work@);
                assert forall|j: int| 0 <= j < om.exports@.len() implies covered_export(
                    om,
                    live@,
                    #[trigger] om.exports@[j],
                ) by {
                    match export_fid(om.exports@[j].item) {
                        Some(g) => {
                            lemma_covered_mono(om, pre_live, live@, g);
                        },
                        None => {},
                    }
                }
                match om.start {
                    Some(f0) => {
                        lemma_covered_mono(om, pre_live, live@, f0);
                    },
                    None => {},
                }
                assert forall|j: int, k2: int|
                    0 <= j < e2 && 0 <= k2 < om.elements@[j].items@.len() implies covered_elem_item(
                    om,
                    live@,
                    #[trigger] om.elements@[j].items@[k2],
                ) by {
                    match elem_fid(om.elements@[j].items@[k2]) {
                        Some(g) => {
                            lemma_covered_mono(om, pre_live, live@, g);
                        },
                        None => {},
                    }
                }
                assert forall|k2: int|
                    0 <= k2 < k + 1 implies covered_elem_item(
                    om,
                    live@,
                    #[trigger] om.elements@[e2 as int].items@[k2],
                ) by {
                    if k2 < k {
                        match elem_fid(om.elements@[e2 as int].items@[k2]) {
                            Some(g) => {
                                lemma_covered_mono(om, pre_live, live@, g);
                            },
                            None => {},
                        }
                    }
                }
            }
            k += 1;
        }
        e2 += 1;
    }

    // Work the queue to a fixpoint: scan each marked function once
    while work.len() > 0
        invariant
            *m == om,
            fn_ids_unique(om),
            nf == m.funcs@.len(),
            marks_ok(om, live@, work@),
            forall|j: int|
                0 <= j < om.exports@.len() ==> covered_export(om, live@, #[trigger] om.exports@[j]),
            match om.start {
                Some(f) => covered(om, live@, f),
                None => true,
            },
            forall|j: int, k2: int|
                0 <= j < om.elements@.len() && 0 <= k2 < om.elements@[j].items@.len()
                    ==> covered_elem_item(om, live@, #[trigger] om.elements@[j].items@[k2]),
            forall|i: int, j: int|
                0 <= i < nf && live@[i] && !work_has(work@, i) && 0 <= j < nf && fn_refs(
                    #[trigger] om.funcs@[i],
                    (#[trigger] om.funcs@[j]).id,
                ) ==> live@[j],
        decreases count_false(live@), work@.len(),
    {
        let ghost pre_live = live@;
        let ghost pre_work = work@;
        let fi = match work.pop() {
            Some(x) => x,
            None => 0,
        };
        proof {
            assert(pre_work[pre_work.len() - 1] == fi);
            assert((fi as int) < nf && pre_live[fi as int]);
            assert forall|t: int|
                0 <= t < work@.len() implies ((#[trigger] work@[t]) as int) < live@.len()
                && live@[work@[t] as int] by {
                assert(work@[t] == pre_work[t]);
            }
            assert forall|b: int|
                work_has(pre_work, b) && b != fi as int implies work_has(work@, b) by {
                let t = choose|t: int|
                    0 <= t < pre_work.len() && (#[trigger] pre_work[t]) as int == b;
                assert(t < pre_work.len() - 1);
                assert((work@[t]) as int == b);
            }
        }
        let ghost post_pop_work = work@;
        match &m.funcs[fi].kind {
            FunctionKind::Local(body) => {
                scan_body(m, body, &mut live, &mut work, Ghost(fi as int));
            },
            _ => {},
        }
        proof {
            lemma_count_false_nonneg(live@);
            assert forall|i: int, j: int|
                0 <= i < nf && live@[i] && !work_has(work@, i) && 0 <= j < nf && fn_refs(
                    #[trigger] om.funcs@[i],
                    (#[trigger] om.funcs@[j]).id,
                ) implies live@[j] by {
                if i == fi as int {
                    assert(covered(om, live@, om.funcs@[j].id));
                } else {
                    if pre_live[i] {
                        if work_has(pre_work, i) {
                            assert(work_has(post_pop_work, i));
                            assert(work_has(work@, i));
                            assert(false);
                        } else {
                            assert(pre_live[j]);
                        }
                    } else {
                        assert(work_has(work@, i));
                        assert(false);
                    }
                }
            }
        }
    }

    // The marks now agree exactly with liveness
    let ghost lset = live@;
    proof {
        assert forall|idx: int|
            0 <= idx < nf && is_gc_root(om, (#[trigger] om.funcs@[idx]).id) implies lset[idx] by {
            let f = om.funcs@[idx].id;
            if om.start == Some(f) {
                assert(covered(om, lset, f));
            } else if exists|i: int|
                0 <= i < om.exports@.len() && export_fid((#[trigger] om.exports@[i]).item) == Some(
                    f,
                ) {
                let i = choose|i: int|
                    0 <= i < om.exports@.len() && export_fid((#[trigger] om.exports@[i]).item)
                        == Some(f);
                assert(covered_export(om, lset, om.exports@[i]));
                assert(covered(om, lset, f));
            } else {
                let (e3, k3) = choose|e3: int, k3: int|
                    0 <= e3 < om.elements@.len() && 0 <= k3 < om.elements@[e3].items@.len()
                        && elem_fid(#[trigger] om.elements@[e3].items@[k3]) == Some(f);
                assert(covered_elem_item(om, lset, om.elements@[e3].items@[k3]));
                assert(covered(om, lset, f));
            }
        }
        assert forall|idx: int|
            0 <= idx < nf implies (lset[idx] <==> is_live(om, (#[trigger] om.funcs@[idx]).id)) by {
            if lset[idx] {
                assert(is_live(om, om.funcs@[idx].id));
            }
            if is_live(om, om.funcs@[idx].id) {
                lemma_live_marked(om, lset, idx);
            }
        }
    }

    // Sweep the imports backing unreachable functions
    let mut new_imports: Vec<Import> = Vec::new();
    let ni = m.imports.len();
    let mut ii: usize = 0;
    while ii < ni
        invariant
            m.funcs == om.funcs,
            m.exports == om.exports,
            m.elements == om.elements,
            m.start == om.start,
            fn_ids_unique(om),
            imports_backed(om),
            nf == m.funcs@.len(),
            ni == om.imports@.len(),
            0 <= ii <= ni,
            m.imports@ == om.imports@.skip(ii as int),
            new_imports@ == om.imports@.take(ii as int).filter(live_import_pred(om)),
            live@ == lset,
            lset.len() == nf,
            forall|idx: int|
                0 <= idx < nf ==> (lset[idx] <==> is_live(om, (#[trigger] om.funcs@[idx]).id)),
        decreases ni - ii,
    {
        let imp = m.imports.remove(0);
        proof {
            assert(imp == om.imports@[ii as int]);
            assert(m.imports@ =~= om.imports@.skip(ii as int + 1));
        }
        let keep = match imp.kind {
            ImportKind::Function(f) => {
                match find_fn_index(m, f) {
                    Some(idx) => {
                        proof {
                            lemma_fn_index_of(m.funcs@, f);
                        }
                        live[idx]
                    },
                    None => {
                        proof {
                            lemma_fn_index_of(m.funcs@, f);
                            assert(import_fid(om.imports@[ii as int].kind) == Some(f));
                            assert(false);
                        }
                        false
                    },
                }
            },
            _ => true,
        };
        proof {
            assert(keep == live_import_pred(om)(imp));
            om.imports@.take(ii as int).lemma_filter_push(imp, live_import_pred(om));
            assert(om.imports@.take(ii as int + 1) =~= om.imports@.take(ii as int).push(imp));
        }
        if keep {
            new_imports.push(imp);
        }
        ii += 1;
    }
    m.imports = new_imports;
    proof {
        assert(om.imports@.take(ni as int) =~= om.imports@);
    }

    // Sweep the unreachable functions
    let mut new_funcs: Vec<Function> = Vec::new();
    let mut fi2: usize = 0;
    while fi2 < nf
        invariant
            m.exports == om.exports,
            m.elements == om.elements,
            m.start == om.start,
            m.imports@ == om.imports@.filter(live_import_pred(om)),
            nf == om.funcs@.len(),
            0 <= fi2 <= nf,
            m.funcs@ == om.funcs@.skip(fi2 as int),
            new_funcs@ == om.funcs@.take(fi2 as int).filter(live_fn_pred(om)),
            live@ == lset,
            lset.len() == nf,
            forall|idx: int|
                0 <= idx < nf ==> (lset[idx] <==> is_live(om, (#[trigger] om.funcs@[idx]).id)),
        decreases nf - fi2,
    {
        let f = m.funcs.remove(0);
        proof {
            assert(f == om.funcs@[fi2 as int]);
            assert(m.funcs@ =~= om.funcs@.skip(fi2 as int + 1));
        }
        let keep = live[fi2];
        proof {
            assert(keep == live_fn_pred(om)(f));
            om.funcs@.take(fi2 as int).lemma_filter_push(f, live_fn_pred(om));
            assert(om.funcs@.take(fi2 as int + 1) =~= om.funcs@.take(fi2 as int).push(f));
        }
        if keep {
            new_funcs.push(f);
        }
        fi2 += 1;
    }
    m.funcs = new_funcs;
    proof {
        assert(om.funcs@.take(nf as int) =~= om.funcs@);
    }
}

} // verus!
