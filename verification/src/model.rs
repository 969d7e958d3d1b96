//! The data the pass works on: a wasm module reduced to exactly what the
//! import-resolution-and-rewrite pass reads and writes.  Functions carry
//! stable numeric ids (deletion never renumbers the survivors); instruction
//! sequences of a local function live in an arena indexed by sequence id.
use vstd::prelude::*;

use crate::search::find_first;

verus! {

/// A wasm value type, as far as signature comparison needs to tell them apart.
#[derive(Clone, Copy, PartialEq, Eq, Structural, Debug)]
pub enum ValType {
    I32,
    I64,
    F32,
    F64,
    V128,
    FuncRef,
    ExternRef,
}

/// A function signature: ordered parameter types and ordered result types.
#[derive(Clone, Debug)]
#[verifier::ext_equal]
pub struct FuncSig {
    pub params: Vec<ValType>,
    pub results: Vec<ValType>,
}

/// Signature equality: parameter and result type lists agree, in order.
pub open spec fn sig_matches(a: FuncSig, b: FuncSig) -> bool {
    a.params@ == b.params@ && a.results@ == b.results@
}

/// One instruction, reduced to what the pass can see: the three leaf forms
/// that carry a function id, the structured forms that own nested sequences,
/// and `Other` for everything else.
#[derive(Clone, Copy, Debug)]
pub enum Instr {
    Call { func: u64 },
    ReturnCall { func: u64 },
    RefFunc { func: u64 },
    Block { seq: usize },
    Loop { seq: usize },
    IfElse { consequent: usize, alternative: usize },
    Other,
}

/// The function id an instruction carries, if it is one of the three leaf
/// forms that reference a function directly.
pub open spec fn instr_fid(ins: Instr) -> Option<u64> {
    match ins {
        Instr::Call { func } => Some(func),
        Instr::ReturnCall { func } => Some(func),
        Instr::RefFunc { func } => Some(func),
        _ => None,
    }
}

/// The nested sequence ids a structured instruction owns (one for a
/// block/loop body, two for a conditional), in order.
pub open spec fn instr_nested(ins: Instr) -> Seq<int> {
    match ins {
        Instr::Block { seq } => seq![seq as int],
        Instr::Loop { seq } => seq![seq as int],
        Instr::IfElse { consequent, alternative } => seq![consequent as int, alternative as int],
        _ => Seq::empty(),
    }
}

/// The body of a locally defined function: an arena of instruction
/// sequences, entered at sequence id `entry`.
#[derive(Clone, Debug)]
#[verifier::ext_equal]
pub struct LocalBody {
    pub entry: usize,
    pub seqs: Vec<Vec<Instr>>,
}

/// Exactly one of three variants: backed by an import, locally defined with
/// a body, or a placeholder that never produces code.
#[derive(Clone, Debug)]
#[verifier::ext_equal]
pub enum FunctionKind {
    Imported,
    Local(LocalBody),
    Uninitialized,
}

/// A function: stable id, optional name, signature, and its kind.
#[derive(Clone, Debug)]
#[verifier::ext_equal]
pub struct Function {
    pub id: u64,
    pub name: Option<String>,
    pub sig: FuncSig,
    pub kind: FunctionKind,
}

/// What an import binds: a function (by id), or a table, memory or global,
/// which the pass never touches.
#[derive(Clone, Copy, Debug)]
pub enum ImportKind {
    Function(u64),
    Table,
    Memory,
    Global,
    Tag,
}

/// The function id an import backs, if it is function-backed.
pub open spec fn import_fid(kind: ImportKind) -> Option<u64> {
    match kind {
        ImportKind::Function(f) => Some(f),
        _ => None,
    }
}

/// A named external dependency of the module.
#[derive(Clone, Debug)]
#[verifier::ext_equal]
pub struct Import {
    pub module: String,
    pub name: String,
    pub kind: ImportKind,
}

/// What an export exposes: a function (by id), or a table, memory or global.
#[derive(Clone, Copy, Debug)]
pub enum ExportItem {
    Function(u64),
    Table,
    Memory,
    Global,
    Tag,
}

/// The function id an export targets, if it targets a function.
pub open spec fn export_fid(item: ExportItem) -> Option<u64> {
    match item {
        ExportItem::Function(f) => Some(f),
        _ => None,
    }
}

/// A named item the module exposes to its host.
#[derive(Clone, Debug)]
#[verifier::ext_equal]
pub struct Export {
    pub name: String,
    pub item: ExportItem,
}

/// One slot of an element segment: either a direct function id, or an
/// expression-computed reference, which carries no id the pass could rewrite.
#[derive(Clone, Copy, Debug)]
pub enum ElemItem {
    Func(u64),
    Expr,
}

/// The function id an element slot holds, if it holds one directly.
pub open spec fn elem_fid(item: ElemItem) -> Option<u64> {
    match item {
        ElemItem::Func(f) => Some(f),
        ElemItem::Expr => None,
    }
}

/// An element segment: an ordered list of slots used for indirect calls.
#[derive(Clone, Debug)]
#[verifier::ext_equal]
pub struct ElementSegment {
    pub items: Vec<ElemItem>,
}

/// The unit of transformation.
#[derive(Clone, Debug)]
#[verifier::ext_equal]
pub struct Module {
    pub funcs: Vec<Function>,
    pub imports: Vec<Import>,
    pub exports: Vec<Export>,
    pub elements: Vec<ElementSegment>,
    pub start: Option<u64>,
}

/// Index of the first function with the given id, if any.
pub open spec fn fn_index_of(funcs: Seq<Function>, id: u64) -> Option<int> {
    find_first(funcs, |f: Function| f.id == id)
}

/// The function record with the given id, if any.
pub open spec fn fn_by_id(m: Module, id: u64) -> Option<Function> {
    match fn_index_of(m.funcs@, id) {
        Some(i) => Some(m.funcs@[i]),
        None => None,
    }
}

/// Some function of the module carries the given id.
pub open spec fn has_fn(m: Module, id: u64) -> bool {
    exists|i: int| 0 <= i < m.funcs@.len() && (#[trigger] m.funcs@[i]).id == id
}

/// Function ids are unique across the module.
pub open spec fn fn_ids_unique(m: Module) -> bool {
    forall|i: int, j: int|
        0 <= i < j < m.funcs@.len() ==> (#[trigger] m.funcs@[i]).id != (#[trigger] m.funcs@[j]).id
}

/// Every function-backed import names an existing function, and that
/// function is of the imported kind (it is the import's placeholder).
pub open spec fn imports_backed(m: Module) -> bool {
    forall|i: int|
        0 <= i < m.imports@.len() ==> match import_fid((#[trigger] m.imports@[i]).kind) {
            Some(f) => match fn_by_id(m, f) {
                Some(rec) => rec.kind is Imported,
                None => false,
            },
            None => true,
        }
}

/// Every function-targeting export names an existing function.
pub open spec fn exports_target_fns(m: Module) -> bool {
    forall|i: int|
        0 <= i < m.exports@.len() ==> match export_fid((#[trigger] m.exports@[i]).item) {
            Some(f) => has_fn(m, f),
            None => true,
        }
}

/// The structural invariant the pass relies on: unique function ids, and
/// imports and exports that reference existing functions.
pub open spec fn module_wf(m: Module) -> bool {
    fn_ids_unique(m) && imports_backed(m) && exports_target_fns(m)
}

/// `fn_index_of` finds an index exactly when `has_fn` holds.
pub proof fn lemma_fn_index_of(funcs: Seq<Function>, id: u64)
    ensures
        match fn_index_of(funcs, id) {
            Some(i) => 0 <= i < funcs.len() && funcs[i].id == id,
            None => forall|j: int| 0 <= j < funcs.len() ==> (#[trigger] funcs[j]).id != id,
        },
{
    let p = |f: Function| f.id == id;
    crate::search::lemma_find_first(funcs, p);
    if fn_index_of(funcs, id) is None {
        assert forall|j: int| 0 <= j < funcs.len() implies (#[trigger] funcs[j]).id != id by {
            assert(!p(funcs[j]));
        }
    }
}

/// Two function lists with pointwise equal ids resolve every id to the
/// same index.
pub proof fn lemma_fn_index_of_pointwise(s1: Seq<Function>, s2: Seq<Function>, id: u64)
    requires
        s1.len() == s2.len(),
        forall|j: int| 0 <= j < s1.len() ==> (#[trigger] s1[j]).id == (#[trigger] s2[j]).id,
    ensures
        fn_index_of(s1, id) == fn_index_of(s2, id),
{
    let p1 = |f: Function| f.id == id;
    let p2 = |f: Function| f.id == id;
    assert forall|j: int| 0 <= j < s1.len() implies #[trigger] p1(s1[j]) == p2(s2[j]) by {
        assert(s1[j].id == s2[j].id);
    }
    crate::search::lemma_find_first_pointwise(s1, s2, p1, p2);
}

/// Compare two lists of value types for equality, element by element.
fn valtypes_eq(a: &Vec<ValType>, b: &Vec<ValType>) -> (r: bool)
    ensures
        r == (a@ == b@),
{
    if a.len() != b.len() {
        assert(a@ != b@);
        return false;
    }
    let n = a.len();
    let mut i: usize = 0;
    while i < n
        invariant
            n == a@.len() == b@.len(),
            0 <= i <= n,
            forall|j: int| 0 <= j < i ==> a@[j] == b@[j],
        decreases n - i,
    {
        if a[i] != b[i] {
            return false;
        }
        i += 1;
    }
    assert(a@ =~= b@);
    true
}

/// Signature equality as the pass checks it: parameter and result type
/// lists must agree exactly, in order.
pub fn sig_eq(a: &FuncSig, b: &FuncSig) -> (r: bool)
    ensures
        r == sig_matches(*a, *b),
{
    valtypes_eq(&a.params, &b.params) && valtypes_eq(&a.results, &b.results)
}

/// Index of the first function with the given id, by linear scan.
pub fn find_fn_index(m: &Module, id: u64) -> (r: Option<usize>)
    ensures
        match r {
            Some(i) => fn_index_of(m.funcs@, id) == Some(i as int),
            None => fn_index_of(m.funcs@, id) is None,
        },
{
    let n = m.funcs.len();
    let mut i: usize = 0;
    while i < n
        invariant
            n == m.funcs@.len(),
            0 <= i <= n,
            forall|j: int| 0 <= j < i ==> (#[trigger] m.funcs@[j]).id != id,
        decreases n - i,
    {
        if m.funcs[i].id == id {
            proof {
                let p = |f: Function| f.id == id;
                assert forall|j: int| 0 <= j < i implies !#[trigger] p(m.funcs@[j]) by {
                    assert(m.funcs@[j].id != id);
                }
                crate::search::lemma_find_first_eq(m.funcs@, p, i as int);
            }
            return Some(i);
        }
        i += 1;
    }
    proof {
        let p = |f: Function| f.id == id;
        assert forall|j: int| 0 <= j < m.funcs@.len() implies !#[trigger] p(m.funcs@[j]) by {
            assert(m.funcs@[j].id != id);
        }
        crate::search::lemma_find_first_none(m.funcs@, p);
    }
    None
}

} // verus!
