//! Builds the replacement map and rewrites every reference to a mapped
//! function id: element-segment slots first, then every instruction of every
//! local function, by a worklist traversal over the instruction-sequence
//! arena that visits each sequence id at most once.
use vstd::prelude::*;

use crate::matcher::spec_replacement;
use crate::model::{
    exports_target_fns, fn_by_id, fn_index_of, import_fid, imports_backed, instr_nested,
    lemma_fn_index_of, sig_matches, ElemItem, Function, FunctionKind, ImportKind, Instr, Module,
};
use std::collections::HashMap;

verus! {

broadcast use vstd::std_specs::hash::group_hash_axioms;

/// The replacement map restricted to the first `n` imports.
pub open spec fn gather_upto(m: Module, n: int) -> Map<u64, u64>
    decreases n,
{
    if n <= 0 {
        Map::empty()
    } else {
        let prev = gather_upto(m, n - 1);
        let imp = m.imports@[n - 1];
        match import_fid(imp.kind) {
            Some(fid) => match spec_replacement(m, imp.module@, imp.name@, fid) {
                Some(rep) => prev.insert(fid, rep),
                None => prev,
            },
            None => prev,
        }
    }
}

/// The whole pass's replacement map: for every function-backed import whose
/// resolution succeeded, the import's backing function id maps to the
/// validated replacement id.
pub open spec fn replacement_map(m: Module) -> Map<u64, u64> {
    gather_upto(m, m.imports@.len() as int)
}

/// Iterate every import; function-backed ones are resolved through the
/// matcher and successful matches are collected, keyed by the import's
/// backing function id.  Imports backing tables, memories or globals are
/// skipped.  Builds the map only; the module is not touched.
pub fn gather_replacement_ids(m: &Module) -> (r: HashMap<u64, u64>)
    requires
        imports_backed(*m),
        exports_target_fns(*m),
    ensures
        r@ == replacement_map(*m),
{
    let mut out: HashMap<u64, u64> = HashMap::new();
    let n = m.imports.len();
    let mut i: usize = 0;
    while i < n
        invariant
            n == m.imports@.len(),
            0 <= i <= n,
            imports_backed(*m),
            exports_target_fns(*m),
            out@ == gather_upto(*m, i as int),
        decreases n - i,
    {
        let imp = &m.imports[i];
        match imp.kind {
            ImportKind::Function(fn_id) => {
                proof {
                    assert(import_fid(m.imports@[i as int].kind) == Some(fn_id));
                    lemma_fn_index_of(m.funcs@, fn_id);
                    match fn_index_of(m.funcs@, fn_id) {
                        Some(idx) => {
                            assert(m.funcs@[idx].id == fn_id);
                        },
                        None => {
                            assert(false);
                        },
                    }
                }
                let replace_id = crate::matcher::get_replacement_module_id(
                    m,
                    imp.module.as_str(),
                    imp.name.as_str(),
                    fn_id,
                );
                if let Some(rep_id) = replace_id {
                    out.insert(fn_id, rep_id);
                }
            },
            _ => {},
        }
        i += 1;
    }
    out
}

/// A mapped function id becomes its replacement; any other id stays.
pub open spec fn map_fid(mv: Map<u64, u64>, f: u64) -> u64 {
    if mv.contains_key(f) {
        mv[f]
    } else {
        f
    }
}

/// Rewriting one instruction: the three id-carrying leaf forms have their
/// id mapped; every other instruction is untouched.
pub open spec fn rewrite_instr(ins: Instr, mv: Map<u64, u64>) -> Instr {
    match ins {
        Instr::Call { func } => Instr::Call { func: map_fid(mv, func) },
        Instr::ReturnCall { func } => Instr::ReturnCall { func: map_fid(mv, func) },
        Instr::RefFunc { func } => Instr::RefFunc { func: map_fid(mv, func) },
        _ => ins,
    }
}

/// Rewriting a whole instruction sequence, pointwise.
pub open spec fn rewrite_instr_seq(s: Seq<Instr>, mv: Map<u64, u64>) -> Seq<Instr> {
    s.map_values(|ins: Instr| rewrite_instr(ins, mv))
}

/// Rewriting one element-segment slot: a direct function id is mapped; an
/// expression-computed slot is untouched.
pub open spec fn rewrite_elem_item(it: ElemItem, mv: Map<u64, u64>) -> ElemItem {
    match it {
        ElemItem::Func(f) => ElemItem::Func(map_fid(mv, f)),
        ElemItem::Expr => it,
    }
}

/// Sequence `s` owns a structured instruction with nested sequence id `j`.
pub open spec fn seq_links_to(s: Seq<Instr>, j: int) -> bool {
    exists|k: int| 0 <= k < s.len() && instr_nested(#[trigger] s[k]).contains(j)
}

/// Sequence id `a` of the arena links to sequence id `b`.
pub open spec fn arena_links(seqs: Seq<Vec<Instr>>, a: int, b: int) -> bool {
    0 <= a < seqs.len() && seq_links_to(seqs[a]@, b)
}

/// `p` is a chain of nested-sequence links from `from` to `to`.  Every id
/// on the path except possibly the last is a valid arena index.
pub open spec fn is_seq_path(seqs: Seq<Vec<Instr>>, p: Seq<int>, from: int, to: int) -> bool {
    p.len() >= 1 && p[0] == from && p.last() == to && forall|k: int|
        0 <= k < p.len() - 1 ==> arena_links(seqs, #[trigger] p[k], p[k + 1])
}

/// Sequence id `j` is reachable from `entry` through nested-sequence links.
#[verifier::opaque]
pub open spec fn seq_reachable(seqs: Seq<Vec<Instr>>, entry: int, j: int) -> bool {
    exists|p: Seq<int>| is_seq_path(seqs, p, entry, j)
}

/// The entry id reaches itself.
pub proof fn lemma_seq_reachable_refl(seqs: Seq<Vec<Instr>>, entry: int)
    ensures
        seq_reachable(seqs, entry, entry),
{
    reveal(seq_reachable);
    let p: Seq<int> = seq![entry];
    assert(p.last() == entry);
    assert(is_seq_path(seqs, p, entry, entry));
}

/// Reachability is closed under one more link.
pub proof fn lemma_seq_reachable_step(seqs: Seq<Vec<Instr>>, entry: int, a: int, b: int)
    requires
        seq_reachable(seqs, entry, a),
        arena_links(seqs, a, b),
    ensures
        seq_reachable(seqs, entry, b),
{
    reveal(seq_reachable);
    let p = choose|p: Seq<int>| is_seq_path(seqs, p, entry, a);
    let q = p.push(b);
    assert(q.last() == b);
    assert(q[0] == p[0]);
    assert forall|k: int| 0 <= k < q.len() - 1 implies arena_links(seqs, #[trigger] q[k], q[k + 1]) by {
        if k < p.len() - 1 {
            assert(q[k] == p[k]);
            assert(q[k + 1] == p[k + 1]);
            assert(arena_links(seqs, p[k], p[k + 1]));
        } else {
            assert(k == p.len() - 1);
            assert(q[k] == p.last());
            assert(q[k + 1] == b);
        }
    }
    assert(is_seq_path(seqs, q, entry, b));
}

/// A path's endpoint lies in any set that contains the entry and is closed
/// under links into valid ids.
proof fn lemma_path_end_in_closed_set(
    seqs: Seq<Vec<Instr>>,
    vset: Seq<bool>,
    p: Seq<int>,
    entry: int,
    j: int,
)
    requires
        seqs.len() == vset.len(),
        0 <= entry < vset.len() ==> vset[entry],
        forall|a: int, b: int|
            0 <= a < vset.len() && vset[a] && #[trigger] arena_links(seqs, a, b) && 0 <= b
                < vset.len() ==> vset[b],
        is_seq_path(seqs, p, entry, j),
        0 <= j < vset.len(),
    ensures
        vset[j],
    decreases p.len(),
{
    if p.len() == 1 {
        assert(j == entry);
    } else {
        let a = p[p.len() - 2];
        assert(arena_links(seqs, a, j)) by {
            assert(arena_links(seqs, p[p.len() - 2], p[p.len() - 2 + 1]));
        }
        let q = p.drop_last();
        assert forall|k: int| 0 <= k < q.len() - 1 implies arena_links(
            seqs,
            #[trigger] q[k],
            q[k + 1],
        ) by {
            assert(q[k] == p[k]);
            assert(q[k + 1] == p[k + 1]);
            assert(arena_links(seqs, p[k], p[k + 1]));
        }
        assert(q.last() == a);
        assert(is_seq_path(seqs, q, entry, a));
        lemma_path_end_in_closed_set(seqs, vset, q, entry, a);
    }
}

/// Every reachable valid id lies in any set that contains the entry and is
/// closed under links into valid ids.
pub proof fn lemma_reachable_in_closed_set(
    seqs: Seq<Vec<Instr>>,
    vset: Seq<bool>,
    entry: int,
    j: int,
)
    requires
        seqs.len() == vset.len(),
        0 <= entry < vset.len() ==> vset[entry],
        forall|a: int, b: int|
            0 <= a < vset.len() && vset[a] && #[trigger] arena_links(seqs, a, b) && 0 <= b
                < vset.len() ==> vset[b],
        seq_reachable(seqs, entry, j),
        0 <= j < vset.len(),
    ensures
        vset[j],
{
    reveal(seq_reachable);
    let p = choose|p: Seq<int>| is_seq_path(seqs, p, entry, j);
    lemma_path_end_in_closed_set(seqs, vset, p, entry, j);
}

/// How many entries of a bool sequence are still false.
pub open spec fn count_false(s: Seq<bool>) -> int
    decreases s.len(),
{
    if s.len() == 0 {
        0
    } else {
        count_false(s.drop_last()) + if s.last() {
            0int
        } else {
            1int
        }
    }
}

/// The count of false entries is never negative.
pub broadcast proof fn lemma_count_false_nonneg(s: Seq<bool>)
    ensures
        #[trigger] count_false(s) >= 0,
    decreases s.len(),
{
    if s.len() != 0 {
        lemma_count_false_nonneg(s.drop_last());
    }
}

/// The worklist holds the id `b` at some position.
pub open spec fn work_has(w: Seq<usize>, b: int) -> bool {
    exists|t: int| 0 <= t < w.len() && (#[trigger] w[t]) as int == b
}

/// Setting a false entry to true lowers the count of false entries by one.
pub proof fn lemma_count_false_update(s: Seq<bool>, i: int)
    requires
        0 <= i < s.len(),
        !s[i],
    ensures
        count_false(s.update(i, true)) == count_false(s) - 1,
    decreases s.len(),
{
    let t = s.update(i, true);
    if i == s.len() - 1 {
        assert(t.drop_last() =~= s.drop_last());
        assert(t.last());
    } else {
        assert(t.drop_last() =~= s.drop_last().update(i, true));
        assert(t.last() == s.last());
        lemma_count_false_update(s.drop_last(), i);
    }
}

/// Rewrite one instruction sequence in place and push every nested sequence
/// id its structured instructions own onto the worklist.
fn process_one_seq(
    sv: &mut Vec<Instr>,
    work: &mut Vec<usize>,
    map: &HashMap<u64, u64>,
    Ghost(oseqs): Ghost<Seq<Vec<Instr>>>,
    Ghost(entry): Ghost<int>,
    Ghost(id): Ghost<int>,
)
    requires
        0 <= id < oseqs.len(),
        old(sv)@ == oseqs[id]@,
        seq_reachable(oseqs, entry, id),
        forall|t: int|
            0 <= t < old(work)@.len() ==> seq_reachable(
                oseqs,
                entry,
                (#[trigger] old(work)@[t]) as int,
            ),
    ensures
        final(sv)@ == rewrite_instr_seq(oseqs[id]@, map@),
        forall|t: int|
            0 <= t < final(work)@.len() ==> seq_reachable(
                oseqs,
                entry,
                (#[trigger] final(work)@[t]) as int,
            ),
        forall|b: int| work_has(old(work)@, b) ==> work_has(final(work)@, b),
        forall|b: int| arena_links(oseqs, id, b) ==> work_has(final(work)@, b),
{
    let ghost osv = oseqs[id]@;
    let mut kk: usize = 0;
    while kk < sv.len()
        invariant
            sv@.len() == osv.len(),
            0 <= kk <= osv.len(),
            0 <= id < oseqs.len(),
            osv == oseqs[id]@,
            seq_reachable(oseqs, entry, id),
            forall|t: int| 0 <= t < kk ==> #[trigger] sv@[t] == rewrite_instr(osv[t], map@),
            forall|t: int| kk <= t < osv.len() ==> #[trigger] sv@[t] == osv[t],
            forall|t: int|
                0 <= t < work@.len() ==> seq_reachable(
                    oseqs,
                    entry,
                    (#[trigger] work@[t]) as int,
                ),
            forall|t: int, b: int|
                0 <= t < kk && #[trigger] instr_nested(osv[t]).contains(b) ==> work_has(
                    work@,
                    b,
                ),
            forall|b: int| work_has(old(work)@, b) ==> work_has(work@, b),
        decreases osv.len() - kk,
    {
        let ghost pre_inner_work = work@;
        let ins = sv[kk];
        match ins {
            Instr::Call { func } => {
                match map.get(&func) {
                    Some(nf) => {
                        let nv = *nf;
                        sv[kk] = Instr::Call { func: nv };
                    },
                    None => {},
                }
            },
            Instr::ReturnCall { func } => {
                match map.get(&func) {
                    Some(nf) => {
                        let nv = *nf;
                        sv[kk] = Instr::ReturnCall { func: nv };
                    },
                    None => {},
                }
            },
            Instr::RefFunc { func } => {
                match map.get(&func) {
                    Some(nf) => {
                        let nv = *nf;
                        sv[kk] = Instr::RefFunc { func: nv };
                    },
                    None => {},
                }
            },
            Instr::Block { seq } => {
                work.push(seq);
                proof {
                    assert(ins == osv[kk as int]);
                    assert(instr_nested(ins)[0] == seq as int);
                    assert(instr_nested(osv[kk as int]).contains(seq as int));
                    assert(seq_links_to(osv, seq as int));
                    assert(arena_links(oseqs, id, seq as int));
                    lemma_seq_reachable_step(oseqs, entry, id, seq as int);
                    assert((work@[work@.len() - 1]) as int == seq as int);
                    assert forall|b: int|
                        instr_nested(osv[kk as int]).contains(b) implies work_has(work@, b) by {
                        assert(b == seq as int);
                    }
                }
            },
            Instr::Loop { seq } => {
                work.push(seq);
                proof {
                    assert(ins == osv[kk as int]);
                    assert(instr_nested(ins)[0] == seq as int);
                    assert(instr_nested(osv[kk as int]).contains(seq as int));
                    assert(seq_links_to(osv, seq as int));
                    assert(arena_links(oseqs, id, seq as int));
                    lemma_seq_reachable_step(oseqs, entry, id, seq as int);
                    assert((work@[work@.len() - 1]) as int == seq as int);
                    assert forall|b: int|
                        instr_nested(osv[kk as int]).contains(b) implies work_has(work@, b) by {
                        assert(b == seq as int);
                    }
                }
            },
            Instr::IfElse { consequent, alternative } => {
                work.push(consequent);
                work.push(alternative);
                proof {
                    assert(ins == osv[kk as int]);
                    assert(instr_nested(ins)[0] == consequent as int);
                    assert(instr_nested(ins)[1] == alternative as int);
                    assert(instr_nested(osv[kk as int]).contains(consequent as int));
                    assert(instr_nested(osv[kk as int]).contains(alternative as int));
                    assert(seq_links_to(osv, consequent as int));
                    assert(seq_links_to(osv, alternative as int));
                    assert(arena_links(oseqs, id, consequent as int));
                    assert(arena_links(oseqs, id, alternative as int));
                    lemma_seq_reachable_step(oseqs, entry, id, consequent as int);
                    lemma_seq_reachable_step(oseqs, entry, id, alternative as int);
                    assert((work@[work@.len() - 2]) as int == consequent as int);
                    assert((work@[work@.len() - 1]) as int == alternative as int);
                    assert(work_has(work@, consequent as int));
                    assert(work_has(work@, alternative as int));
                    assert forall|b: int|
                        instr_nested(osv[kk as int]).contains(b) implies work_has(work@, b) by {
                        assert(b == consequent as int || b == alternative as int);
                    }
                }
            },
            Instr::Other => {},
        }
        proof {
            assert(sv@[kk as int] == rewrite_instr(osv[kk as int], map@));
            assert forall|b: int| work_has(pre_inner_work, b) implies work_has(work@, b) by {
                let t = choose|t: int|
                    0 <= t < pre_inner_work.len() && (#[trigger] pre_inner_work[t]) as int == b;
                assert((work@[t]) as int == b);
            }
        }
        kk += 1;
    }
    proof {
        assert(sv@ =~= rewrite_instr_seq(osv, map@));
        assert forall|b: int| arena_links(oseqs, id, b) implies work_has(work@, b) by {
            assert(seq_links_to(osv, b));
            let k = choose|k: int|
                0 <= k < osv.len() && instr_nested(#[trigger] osv[k]).contains(b);
        }
    }
}

/// Rewrite every instruction of one local function's body.  The arena is
/// walked from the entry sequence by an explicit worklist guarded by a
/// visited set, so each sequence id is visited at most once and the walk
/// terminates even when the structured instructions of a malformed input
/// form a cycle among sequence ids; no well-formedness is required of the
/// arena.  Every sequence reachable from the entry is rewritten; any
/// sequence the entry does not reach is left untouched.
#[verifier::rlimit(100)]
pub fn rewrite_body_seqs(seqs: &mut Vec<Vec<Instr>>, entry: usize, map: &HashMap<u64, u64>)
    ensures
        final(seqs)@.len() == old(seqs)@.len(),
        forall|s: int|
            0 <= s < old(seqs)@.len() && seq_reachable(old(seqs)@, entry as int, s) ==> (
            #[trigger] final(seqs)@[s])@ == rewrite_instr_seq(old(seqs)@[s]@, map@),
        forall|s: int|
            0 <= s < old(seqs)@.len() && !seq_reachable(old(seqs)@, entry as int, s)
                ==> #[trigger] final(seqs)@[s] == old(seqs)@[s],
{
    broadcast use lemma_count_false_nonneg;

    let ghost oseqs = seqs@;
    let n = seqs.len();
    let mut visited: Vec<bool> = Vec::new();
    while visited.len() < n
        invariant
            visited@.len() <= n,
            forall|j: int| 0 <= j < visited@.len() ==> !(#[trigger] visited@[j]),
        decreases n - visited@.len(),
    {
        visited.push(false);
    }
    let mut work: Vec<usize> = Vec::new();
    work.push(entry);
    proof {
        lemma_seq_reachable_refl(oseqs, entry as int);
        assert((work@[0]) as int == entry as int);
        assert(work_has(work@, entry as int));
    }
    while work.len() > 0
        invariant
            seqs@.len() == n,
            oseqs.len() == n,
            visited@.len() == n,
            forall|s: int|
                0 <= s < n && #[trigger] visited@[s] ==> seq_reachable(oseqs, entry as int, s),
            forall|s: int|
                0 <= s < n && #[trigger] visited@[s] ==> seqs@[s]@ == rewrite_instr_seq(
                    oseqs[s]@,
                    map@,
                ),
            forall|s: int| 0 <= s < n && !(#[trigger] visited@[s]) ==> seqs@[s] == oseqs[s],
            forall|t: int|
                0 <= t < work@.len() ==> seq_reachable(
                    oseqs,
                    entry as int,
                    (#[trigger] work@[t]) as int,
                ),
            forall|a: int, b: int|
                0 <= a < n && visited@[a] && #[trigger] arena_links(oseqs, a, b) && 0 <= b < n
                    ==> visited@[b] || work_has(work@, b),
            (entry as int) < n ==> visited@[entry as int] || work_has(work@, entry as int),
        decreases count_false(visited@), work@.len(),
    {
        let ghost pre_visited = visited@;
        let ghost pre_work = work@;
        let ghost pre_seqs = seqs@;
        let id = match work.pop() {
            Some(x) => x,
            None => 0,
        };
        proof {
            assert(pre_work[pre_work.len() - 1] == id);
            assert(seq_reachable(oseqs, entry as int, id as int));
            assert forall|b: int|
                work_has(pre_work, b) && b != id as int implies work_has(
                pre_work.drop_last(),
                b,
            ) by {
                let t = choose|t: int|
                    0 <= t < pre_work.len() && (#[trigger] pre_work[t]) as int == b;
                assert(t < pre_work.len() - 1);
                assert((pre_work.drop_last()[t]) as int == b);
            }
        }
        if id < n && !visited[id] {
            visited[id] = true;
            proof {
                lemma_count_false_update(pre_visited, id as int);
            }
            let mut sv = seqs.remove(id);
            let ghost post_pop_work = work@;
            assert(sv@ == oseqs[id as int]@);
            process_one_seq(
                &mut sv,
                &mut work,
                map,
                Ghost(oseqs),
                Ghost(entry as int),
                Ghost(id as int),
            );
            seqs.insert(id, sv);
            proof {
                assert(count_false(visited@) == count_false(pre_visited) - 1);
                assert(seqs@ =~= pre_seqs.update(id as int, sv));
                assert forall|a: int, b: int|
                    0 <= a < n && visited@[a] && #[trigger] arena_links(oseqs, a, b) && 0 <= b < n
                        implies visited@[b] || work_has(work@, b) by {
                    if a == id as int {
                        assert(work_has(work@, b));
                    } else {
                        assert(pre_visited[a]);
                        if !(0 <= b < n && pre_visited[b]) {
                            assert(work_has(pre_work, b));
                            if b != id as int {
                                assert(work_has(pre_work.drop_last(), b));
                                assert(work_has(post_pop_work, b));
                            }
                        }
                    }
                }
            }
        }
        proof {
            lemma_count_false_nonneg(visited@);
        }
    }
    proof {
        assert forall|s: int|
            0 <= s < n && seq_reachable(oseqs, entry as int, s) implies #[trigger] seqs@[s]@
            == rewrite_instr_seq(oseqs[s]@, map@) by {
            lemma_reachable_in_closed_set(oseqs, visited@, entry as int, s);
            assert(visited@[s]);
        }
        assert forall|s: int|
            0 <= s < n && !seq_reachable(oseqs, entry as int, s) implies #[trigger] seqs@[s]
            == oseqs[s] by {
            assert(!visited@[s]);
        }
    }
}


/// Element slots rewritten pointwise: every direct function id mapped,
/// every expression-computed slot untouched.
pub open spec fn elem_items_rewritten(o: Seq<ElemItem>, n: Seq<ElemItem>, mv: Map<u64, u64>) -> bool {
    n.len() == o.len() && forall|t: int| 0 <= t < o.len() ==> #[trigger] n[t] == rewrite_elem_item(
        o[t],
        mv,
    )
}

/// Relation between one function before and after reference rewriting: id,
/// name, signature and kind are kept; a local body has every sequence the
/// entry reaches rewritten and every other sequence untouched; imported and
/// uninitialized functions have no body and are never traversed.
pub open spec fn fn_rewritten(of: Function, nf: Function, mv: Map<u64, u64>) -> bool {
    nf.id == of.id && nf.name == of.name && nf.sig == of.sig && match (of.kind, nf.kind) {
        (FunctionKind::Local(ob), FunctionKind::Local(nb)) => {
            nb.entry == ob.entry && nb.seqs@.len() == ob.seqs@.len() && (forall|s: int|
                0 <= s < ob.seqs@.len() && seq_reachable(ob.seqs@, ob.entry as int, s) ==> (
                #[trigger] nb.seqs@[s])@ == rewrite_instr_seq(ob.seqs@[s]@, mv)) && (forall|s: int|
                0 <= s < ob.seqs@.len() && !seq_reachable(ob.seqs@, ob.entry as int, s)
                    ==> #[trigger] nb.seqs@[s] == ob.seqs@[s])
        },
        (FunctionKind::Imported, FunctionKind::Imported) => true,
        (FunctionKind::Uninitialized, FunctionKind::Uninitialized) => true,
        _ => false,
    }
}

/// Relation between a module before and after the reference rewriter ran:
/// imports, exports and the start field untouched; element slots and every
/// local function body rewritten through the map.
pub open spec fn calls_replaced(o: Module, n: Module, mv: Map<u64, u64>) -> bool {
    n.imports == o.imports && n.exports == o.exports && n.start == o.start && n.elements@.len()
        == o.elements@.len() && (forall|e: int|
        0 <= e < o.elements@.len() ==> elem_items_rewritten(
            o.elements@[e].items@,
            (#[trigger] n.elements@[e]).items@,
            mv,
        )) && n.funcs@.len() == o.funcs@.len() && (forall|i: int|
        0 <= i < o.funcs@.len() ==> fn_rewritten(o.funcs@[i], #[trigger] n.funcs@[i], mv))
}

/// Retarget every reference to a mapped function id, everywhere one can
/// occur: first the element segments, then the bodies of all local
/// functions.  The map itself is never changed, so both sweeps observe the
/// same view of it.
pub fn replace_calls(m: &mut Module, fn_replacement_ids: &HashMap<u64, u64>)
    ensures
        calls_replaced(*old(m), *final(m), fn_replacement_ids@),
{
    let ghost om = *m;
    // First, patch element segments
    let ne = m.elements.len();
    let mut e: usize = 0;
    while e < ne
        invariant
            m.funcs == om.funcs,
            m.imports == om.imports,
            m.exports == om.exports,
            m.start == om.start,
            ne == om.elements@.len(),
            m.elements@.len() == ne,
            0 <= e <= ne,
            forall|j: int|
                0 <= j < e ==> elem_items_rewritten(
                    om.elements@[j].items@,
                    (#[trigger] m.elements@[j]).items@,
                    fn_replacement_ids@,
                ),
            forall|j: int| e <= j < ne ==> #[trigger] m.elements@[j] == om.elements@[j],
        decreases ne - e,
    {
        let ghost pre_elements = m.elements@;
        let mut seg = m.elements.remove(e);
        let ghost oitems = om.elements@[e as int].items@;
        assert(seg.items@ == oitems);
        let ni = seg.items.len();
        let mut kk: usize = 0;
        while kk < ni
            invariant
                seg.items@.len() == ni == oitems.len(),
                0 <= kk <= ni,
                forall|t: int|
                    0 <= t < kk ==> #[trigger] seg.items@[t] == rewrite_elem_item(
                        oitems[t],
                        fn_replacement_ids@,
                    ),
                forall|t: int| kk <= t < ni ==> #[trigger] seg.items@[t] == oitems[t],
            decreases ni - kk,
        {
            let it = seg.items[kk];
            match it {
                ElemItem::Func(fid) => {
                    match fn_replacement_ids.get(&fid) {
                        Some(nid) => {
                            let nv = *nid;
                            seg.items[kk] = ElemItem::Func(nv);
                        },
                        None => {},
                    }
                },
                ElemItem::Expr => {},
            }
            kk += 1;
        }
        m.elements.insert(e, seg);
        proof {
            assert(m.elements@ =~= pre_elements.update(e as int, seg));
        }
        e += 1;
    }
    // Then, replace dependent calls in function bodies
    let nf = m.funcs.len();
    let mut i: usize = 0;
    while i < nf
        invariant
            m.imports == om.imports,
            m.exports == om.exports,
            m.start == om.start,
            m.elements@.len() == om.elements@.len(),
            forall|j: int|
                0 <= j < om.elements@.len() ==> elem_items_rewritten(
                    om.elements@[j].items@,
                    (#[trigger] m.elements@[j]).items@,
                    fn_replacement_ids@,
                ),
            nf == om.funcs@.len(),
            m.funcs@.len() == nf,
            0 <= i <= nf,
            forall|j: int|
                0 <= j < i ==> fn_rewritten(
                    om.funcs@[j],
                    #[trigger] m.funcs@[j],
                    fn_replacement_ids@,
                ),
            forall|j: int| i <= j < nf ==> #[trigger] m.funcs@[j] == om.funcs@[j],
        decreases nf - i,
    {
        let ghost pre_funcs = m.funcs@;
        let f = m.funcs.remove(i);
        let Function { id, name, sig, kind } = f;
        let kind2 = match kind {
            FunctionKind::Local(mut body) => {
                rewrite_body_seqs(&mut body.seqs, body.entry, fn_replacement_ids);
                FunctionKind::Local(body)
            },
            other => other,
        };
        m.funcs.insert(i, Function { id, name, sig, kind: kind2 });
        proof {
            assert(m.funcs@ =~= pre_funcs.update(i as int, m.funcs@[i as int]));
            assert(fn_rewritten(om.funcs@[i as int], m.funcs@[i as int], fn_replacement_ids@));
        }
        i += 1;
    }
}


/// A module in which no function-backed import resolves to a valid
/// replacement gathers an empty map.
proof fn lemma_gather_upto_empty(m: Module, n: int)
    requires
        0 <= n <= m.imports@.len(),
        forall|i: int|
            0 <= i < m.imports@.len() ==> match import_fid((#[trigger] m.imports@[i]).kind) {
                Some(fid) => spec_replacement(
                    m,
                    m.imports@[i].module@,
                    m.imports@[i].name@,
                    fid,
                ) is None,
                None => true,
            },
    ensures
        gather_upto(m, n) == Map::<u64, u64>::empty(),
    decreases n,
{
    if n > 0 {
        lemma_gather_upto_empty(m, n - 1);
    }
}

/// The no-op law: when the module holds no function import from either
/// recognized namespace with a valid replacement, the replacement map is
/// empty, so the pass leaves the module byte-for-byte unchanged and
/// reports "not modified".
pub proof fn lemma_noop_when_no_replacements(m: Module)
    requires
        forall|i: int|
            0 <= i < m.imports@.len() ==> match import_fid((#[trigger] m.imports@[i]).kind) {
                Some(fid) => spec_replacement(
                    m,
                    m.imports@[i].module@,
                    m.imports@[i].name@,
                    fid,
                ) is None,
                None => true,
            },
    ensures
        replacement_map(m).dom().len() == 0,
{
    lemma_gather_upto_empty(m, m.imports@.len() as int);
    assert(replacement_map(m).dom() =~= Set::<u64>::empty());
}

/// Every key of the gathered map comes from a function-backed import whose
/// resolution succeeded with exactly the mapped value.
pub proof fn lemma_gather_upto_sound(m: Module, n: int, k: u64)
    requires
        0 <= n <= m.imports@.len(),
        gather_upto(m, n).contains_key(k),
    ensures
        exists|i: int|
            0 <= i < n && import_fid((#[trigger] m.imports@[i]).kind) == Some(k)
                && spec_replacement(m, m.imports@[i].module@, m.imports@[i].name@, k) == Some(
                gather_upto(m, n)[k],
            ),
    decreases n,
{
    let imp = m.imports@[n - 1];
    match import_fid(imp.kind) {
        Some(fid) => {
            match spec_replacement(m, imp.module@, imp.name@, fid) {
                Some(rep) => {
                    if fid == k {
                        assert(import_fid(m.imports@[n - 1].kind) == Some(k));
                        assert(gather_upto(m, n)[k] == rep);
                    } else {
                        lemma_gather_upto_sound(m, n - 1, k);
                        assert(gather_upto(m, n)[k] == gather_upto(m, n - 1)[k]);
                    }
                },
                None => {
                    lemma_gather_upto_sound(m, n - 1, k);
                },
            }
        },
        None => {
            lemma_gather_upto_sound(m, n - 1, k);
        },
    }
}

/// The signature-safety law: every replacement the map records names an
/// existing, non-imported function whose signature equals the signature of
/// the import's backing function exactly, so no call site's static type
/// changes when its target is retargeted.
pub proof fn lemma_signature_safety(m: Module, k: u64)
    requires
        replacement_map(m).contains_key(k),
    ensures
        match (fn_by_id(m, k), fn_by_id(m, replacement_map(m)[k])) {
            (Some(of), Some(cf)) => sig_matches(of.sig, cf.sig) && !(cf.kind is Imported),
            _ => false,
        },
{
    lemma_gather_upto_sound(m, m.imports@.len() as int, k);
    let i = choose|i: int|
        0 <= i < m.imports@.len() && import_fid((#[trigger] m.imports@[i]).kind) == Some(k)
            && spec_replacement(m, m.imports@[i].module@, m.imports@[i].name@, k) == Some(
            replacement_map(m)[k],
        );
    let ns = m.imports@[i].module@;
    let nm = m.imports@[i].name@;
    let v = replacement_map(m)[k];
    assert(crate::matcher::spec_match(m, ns, nm, k) == crate::matcher::MatchOutcome::Replaced(v));
}

/// Whatever id the map sends a reference to, it is never one of the map's
/// own keys: keys back imports, whose placeholder records are imported,
/// and a validated replacement is never an imported function.
pub proof fn lemma_map_avoids_keys(m: Module, f: u64, k: u64)
    requires
        imports_backed(m),
        replacement_map(m).contains_key(k),
    ensures
        map_fid(replacement_map(m), f) != k,
{
    lemma_gather_upto_sound(m, m.imports@.len() as int, k);
    let i = choose|i: int|
        0 <= i < m.imports@.len() && import_fid((#[trigger] m.imports@[i]).kind) == Some(k)
            && spec_replacement(m, m.imports@[i].module@, m.imports@[i].name@, k) == Some(
            replacement_map(m)[k],
        );
    assert(match fn_by_id(m, k) {
        Some(rec) => rec.kind is Imported,
        None => false,
    });
    if replacement_map(m).contains_key(f) {
        lemma_signature_safety(m, f);
    }
}

/// Every instruction sequence of every local function is reachable from
/// its entry sequence: the shape a well-formed producer emits.
pub open spec fn all_seqs_reachable(m: Module) -> bool {
    forall|i: int|
        0 <= i < m.funcs@.len() ==> match (#[trigger] m.funcs@[i]).kind {
            FunctionKind::Local(b) => forall|s: int|
                0 <= s < b.seqs@.len() ==> #[trigger] seq_reachable(b.seqs@, b.entry as int, s),
            _ => true,
        }
}

/// Some element slot or some instruction of some function references the
/// function id `f` directly.
pub open spec fn module_references_fn(m: Module, f: u64) -> bool {
    (exists|e: int, t: int|
        0 <= e < m.elements@.len() && 0 <= t < m.elements@[e].items@.len() && crate::model::elem_fid(
            #[trigger] m.elements@[e].items@[t],
        ) == Some(f)) || (exists|i: int|
        0 <= i < m.funcs@.len() && crate::gc::fn_refs(#[trigger] m.funcs@[i], f))
}

/// The totality law: after the rewriter ran under the module's own
/// replacement map, no element slot and no call, tail-call or
/// function-reference instruction anywhere in the module references a
/// mapped-out id; every such reference now holds the mapped replacement.
/// The rewriter only walks sequences reachable from each entry, so the law
/// asks that the input's bodies have no orphan sequences.
pub proof fn lemma_rewrite_totality(o: Module, n: Module, k: u64)
    requires
        imports_backed(o),
        all_seqs_reachable(o),
        calls_replaced(o, n, replacement_map(o)),
        replacement_map(o).contains_key(k),
    ensures
        !module_references_fn(n, k),
{
    let mv = replacement_map(o);
    assert forall|e: int, t: int|
        0 <= e < n.elements@.len() && 0 <= t < n.elements@[e].items@.len() implies crate::model::elem_fid(
        #[trigger] n.elements@[e].items@[t],
    ) != Some(k) by {
        assert(elem_items_rewritten(o.elements@[e].items@, n.elements@[e].items@, mv));
        assert(n.elements@[e].items@[t] == rewrite_elem_item(o.elements@[e].items@[t], mv));
        match o.elements@[e].items@[t] {
            ElemItem::Func(f0) => {
                lemma_map_avoids_keys(o, f0, k);
            },
            ElemItem::Expr => {},
        }
    }
    assert forall|i: int|
        0 <= i < n.funcs@.len() implies !crate::gc::fn_refs(#[trigger] n.funcs@[i], k) by {
        assert(fn_rewritten(o.funcs@[i], n.funcs@[i], mv));
        match n.funcs@[i].kind {
            FunctionKind::Local(nb) => {
                let ob = match o.funcs@[i].kind {
                    FunctionKind::Local(b) => b,
                    _ => arbitrary(),
                };
                assert(o.funcs@[i].kind is Local);
                if crate::gc::fn_refs(n.funcs@[i], k) {
                    let (s, t) = choose|s: int, t: int|
                        0 <= s < nb.seqs@.len() && 0 <= t < nb.seqs@[s]@.len()
                            && crate::model::instr_fid(#[trigger] nb.seqs@[s]@[t]) == Some(k);
                    assert(seq_reachable(ob.seqs@, ob.entry as int, s));
                    assert(nb.seqs@[s]@ == rewrite_instr_seq(ob.seqs@[s]@, mv));
                    assert(nb.seqs@[s]@[t] == rewrite_instr(ob.seqs@[s]@[t], mv));
                    match ob.seqs@[s]@[t] {
                        Instr::Call { func } => {
                            lemma_map_avoids_keys(o, func, k);
                        },
                        Instr::ReturnCall { func } => {
                            lemma_map_avoids_keys(o, func, k);
                        },
                        Instr::RefFunc { func } => {
                            lemma_map_avoids_keys(o, func, k);
                        },
                        _ => {},
                    }
                }
            },
            _ => {},
        }
    }
}


/// Corollary of signature safety in the rewritten module itself: wherever
/// a reference was retargeted from a mapped id to its replacement, the
/// target's signature in the rewritten module is the one the old target
/// had, so every retargeted call site stays well-typed.
pub proof fn lemma_call_sites_keep_types(o: Module, n: Module, f: u64)
    requires
        calls_replaced(o, n, replacement_map(o)),
        replacement_map(o).contains_key(f),
    ensures
        match (fn_by_id(n, f), fn_by_id(n, map_fid(replacement_map(o), f))) {
            (Some(before), Some(after)) => sig_matches(before.sig, after.sig),
            _ => false,
        },
{
    let mv = replacement_map(o);
    lemma_signature_safety(o, f);
    assert forall|i: int|
        0 <= i < n.funcs@.len() implies (#[trigger] n.funcs@[i]).id == o.funcs@[i].id
        && n.funcs@[i].sig == o.funcs@[i].sig by {
        assert(fn_rewritten(o.funcs@[i], n.funcs@[i], mv));
    }
    crate::model::lemma_fn_index_of_pointwise(o.funcs@, n.funcs@, f);
    crate::model::lemma_fn_index_of_pointwise(o.funcs@, n.funcs@, mv[f]);
    lemma_fn_index_of(o.funcs@, f);
    lemma_fn_index_of(o.funcs@, mv[f]);
}

} // verus!
