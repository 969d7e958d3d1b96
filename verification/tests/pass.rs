use wasi2ic::matcher::{match_import, MatchOutcome};
use wasi2ic::model::{
    ElemItem, ElementSegment, Export, ExportItem, FuncSig, Function, FunctionKind, Import,
    ImportKind, Instr, LocalBody, Module, ValType,
};
use wasi2ic::pass::do_module_replacements;
use wasi2ic::replace::gather_replacement_ids;
use wasi2ic::start::{add_start_entry, remove_start_export};

fn sig(params: Vec<ValType>, results: Vec<ValType>) -> FuncSig {
    FuncSig { params, results }
}

fn imported(id: u64, name: &str, s: FuncSig) -> Function {
    Function {
        id,
        name: Some(name.to_string()),
        sig: s,
        kind: FunctionKind::Imported,
    }
}

fn local_fn(id: u64, name: &str, s: FuncSig, entry: usize, seqs: Vec<Vec<Instr>>) -> Function {
    Function {
        id,
        name: Some(name.to_string()),
        sig: s,
        kind: FunctionKind::Local(LocalBody { entry, seqs }),
    }
}

fn fn_import(module: &str, name: &str, id: u64) -> Import {
    Import {
        module: module.to_string(),
        name: name.to_string(),
        kind: ImportKind::Function(id),
    }
}

fn fn_export(name: &str, id: u64) -> Export {
    Export {
        name: name.to_string(),
        item: ExportItem::Function(id),
    }
}

fn find_import<'a>(m: &'a Module, module: &str, name: &str) -> Option<&'a Import> {
    m.imports
        .iter()
        .find(|imp| imp.module == module && imp.name == name)
}

fn find_fn<'a>(m: &'a Module, id: u64) -> Option<&'a Function> {
    m.funcs.iter().find(|f| f.id == id)
}

fn t_void() -> FuncSig {
    sig(vec![], vec![])
}

fn t_i32_void() -> FuncSig {
    sig(vec![ValType::I32], vec![])
}

fn t_i32x2_void() -> FuncSig {
    sig(vec![ValType::I32, ValType::I32], vec![])
}

fn t_i32x2_i32() -> FuncSig {
    sig(vec![ValType::I32, ValType::I32], vec![ValType::I32])
}

fn t_i32x4_i32() -> FuncSig {
    sig(
        vec![ValType::I32, ValType::I32, ValType::I32, ValType::I32],
        vec![ValType::I32],
    )
}

#[test]
fn test_add_start_entry() {
    let mut module = Module {
        funcs: vec![
            local_fn(
                0,
                "add",
                t_i32x2_i32(),
                0,
                vec![vec![Instr::Other, Instr::Other, Instr::Other]],
            ),
            local_fn(
                1,
                "_initialize",
                t_void(),
                0,
                vec![vec![
                    Instr::Other,
                    Instr::Other,
                    Instr::Call { func: 0 },
                    Instr::Other,
                    Instr::Other,
                    Instr::Call { func: 0 },
                    Instr::Other,
                    Instr::Other,
                ]],
            ),
        ],
        imports: vec![],
        exports: vec![],
        elements: vec![],
        start: None,
    };

    assert!(module.start.is_none());

    add_start_entry(&mut module);

    assert!(module.start.is_some());
}

#[test]
fn test_remove_start_export() {
    let mut module = Module {
        funcs: vec![
            local_fn(
                0,
                "add",
                t_i32x2_i32(),
                0,
                vec![vec![Instr::Other, Instr::Other, Instr::Other]],
            ),
            local_fn(
                1,
                "_initialize",
                t_void(),
                0,
                vec![vec![
                    Instr::Call { func: 0 },
                    Instr::Call { func: 0 },
                    Instr::Other,
                    Instr::Other,
                ]],
            ),
        ],
        imports: vec![],
        exports: vec![fn_export("_initialize", 1)],
        elements: vec![],
        start: None,
    };

    let export_found = module.exports.iter().any(|e| {
        e.name.starts_with("_initialize") && matches!(e.item, ExportItem::Function(_))
    });
    assert!(export_found);

    remove_start_export(&mut module);

    let export_found = module.exports.iter().any(|e| {
        e.name.starts_with("_initialize") && matches!(e.item, ExportItem::Function(_))
    });
    assert!(!export_found);
}

#[test]
fn test_gather_replacement_ids() {
    let module = Module {
        funcs: vec![
            imported(0, "_dprint", t_i32x2_void()),
            imported(1, "_msg_reply", t_void()),
            imported(2, "_wasi_unstable_fd_write", t_i32x4_i32()),
            imported(3, "_wasi_unstable_random_get", t_i32x2_i32()),
            imported(4, "__imported_wasi_unstable_environ_get", t_i32x2_i32()),
            imported(5, "__imported_wasi_unstable_proc_exit", t_i32_void()),
            local_fn(
                6,
                "_initialize",
                t_void(),
                0,
                vec![vec![
                    Instr::Call { func: 7 },
                    Instr::Call { func: 3 },
                    Instr::Call { func: 2 },
                    Instr::Other,
                ]],
            ),
            local_fn(
                7,
                "__ic_custom_random_get",
                t_i32x2_i32(),
                0,
                vec![vec![Instr::Call { func: 1 }, Instr::Other]],
            ),
            local_fn(
                8,
                "ic_dummy_fd_write",
                t_i32x4_i32(),
                0,
                vec![vec![Instr::Call { func: 0 }, Instr::Other]],
            ),
        ],
        imports: vec![
            fn_import("ic0", "debug_print", 0),
            fn_import("ic0", "msg_reply", 1),
            fn_import("wasi_unstable", "fd_write", 2),
            fn_import("wasi_unstable", "random_get", 3),
            fn_import("wasi_unstable", "environ_get", 4),
            fn_import("wasi_unstable", "proc_exit", 5),
        ],
        exports: vec![
            fn_export("__ic_custom_fd_write", 8),
            fn_export("_initialize", 6),
        ],
        elements: vec![],
        start: None,
    };

    let id_reps = gather_replacement_ids(&module);

    assert!(id_reps[&2] == 8);
    assert!(id_reps[&3] == 7);
}

/// The module of the full-pass test: six imports, a table segment, nested
/// control flow in the initializer, and two replacement functions.
fn replacement_module(extra_env_import: bool) -> Module {
    // function ids shift by one when the env import is present
    let off = if extra_env_import { 1 } else { 0 };
    let dprint = 0;
    let env_fn = 1; // only present when extra_env_import
    let msg_reply = 1 + off;
    let fd_write = 2 + off;
    let random_get = 3 + off;
    let environ_get = 4 + off;
    let proc_exit = 5 + off;
    let initialize = 6 + off;
    let custom_random = 7 + off;
    let custom_fd = 8 + off;

    let mut funcs = vec![imported(dprint, "_dprint", t_i32x2_void())];
    if extra_env_import {
        funcs.push(imported(env_fn, "_some_function", t_i32x2_void()));
    }
    funcs.push(imported(msg_reply, "_msg_reply", t_void()));
    funcs.push(imported(fd_write, "_wasi_snapshot_preview_fd_write", t_i32x4_i32()));
    funcs.push(imported(
        random_get,
        "_wasi_snapshot_preview_random_get",
        t_i32x2_i32(),
    ));
    funcs.push(imported(
        environ_get,
        "__imported_wasi_snapshot_preview1_environ_get",
        t_i32x2_i32(),
    ));
    funcs.push(imported(
        proc_exit,
        "__imported_wasi_snapshot_preview1_proc_exit",
        t_i32_void(),
    ));
    // (func $_initialize ...) with a block holding an if/else whose arms
    // call random_get from a nested block and from a loop
    funcs.push(local_fn(
        initialize,
        "_initialize",
        t_void(),
        0,
        vec![
            // 0: entry
            vec![
                Instr::Other,
                Instr::Other,
                Instr::Call { func: random_get },
                Instr::Block { seq: 1 },
                Instr::Other,
                Instr::Other,
                Instr::Other,
                Instr::Call { func: fd_write },
                Instr::Call { func: proc_exit },
            ],
            // 1: $test_block
            vec![Instr::Other, Instr::IfElse { consequent: 2, alternative: 3 }],
            // 2: then-arm, holding $test_block3
            vec![Instr::Block { seq: 4 }],
            // 3: else-arm, holding $test_loop
            vec![Instr::Loop { seq: 5 }, Instr::Other],
            // 4: $test_block3
            vec![Instr::Other, Instr::Other, Instr::Call { func: random_get }, Instr::Other],
            // 5: $test_loop
            vec![Instr::Other, Instr::Other, Instr::Call { func: random_get }, Instr::Other, Instr::Other],
        ],
    ));
    // (func $__ic_custom_random_get ...) takes a reference to the
    // random_get placeholder and stores it in the table
    funcs.push(local_fn(
        custom_random,
        "__ic_custom_random_get",
        t_i32x2_i32(),
        0,
        vec![vec![
            Instr::Other,
            Instr::RefFunc { func: random_get },
            Instr::Other,
            Instr::Call { func: msg_reply },
            Instr::Other,
        ]],
    ));
    let mut custom_fd_body = vec![
        Instr::Other,
        Instr::Other,
        Instr::Call { func: dprint },
    ];
    if extra_env_import {
        custom_fd_body.push(Instr::Call { func: env_fn });
    }
    custom_fd_body.push(Instr::Other);
    funcs.push(local_fn(
        custom_fd,
        "__ic_custom_fd_write",
        t_i32x4_i32(),
        0,
        vec![custom_fd_body],
    ));

    let mut imports = vec![fn_import("ic0", "debug_print", dprint)];
    if extra_env_import {
        imports.push(fn_import("env", "some_function", env_fn));
    }
    imports.push(fn_import("ic0", "msg_reply", msg_reply));
    imports.push(fn_import("wasi_snapshot_preview1", "fd_write", fd_write));
    imports.push(fn_import("wasi_snapshot_preview1", "random_get", random_get));
    imports.push(fn_import("wasi_snapshot_preview1", "environ_get", environ_get));
    imports.push(fn_import("wasi_snapshot_preview1", "proc_exit", proc_exit));

    Module {
        funcs,
        imports,
        exports: vec![
            Export {
                name: "memory".to_string(),
                item: ExportItem::Memory,
            },
            fn_export("_initialize", initialize),
        ],
        elements: vec![ElementSegment {
            items: vec![ElemItem::Func(fd_write), ElemItem::Func(random_get)],
        }],
        start: None,
    }
}

#[test]
fn test_do_module_replacements() {
    let mut module = replacement_module(false);

    do_module_replacements(&mut module);

    // random_get and fd_write are replaced, environ_get is swept, and the
    // calls to proc_exit keep its import alive
    assert!(find_import(&module, "ic0", "debug_print").is_some());
    assert!(find_import(&module, "ic0", "msg_reply").is_some());
    assert!(find_import(&module, "wasi_snapshot_preview1", "proc_exit").is_some());
    assert!(find_import(&module, "wasi_snapshot_preview1", "fd_write").is_none());
    assert!(find_import(&module, "wasi_snapshot_preview1", "random_get").is_none());
    assert!(find_import(&module, "wasi_snapshot_preview1", "environ_get").is_none());
}

#[test]
fn test_do_module_replacements_remaining_imports() {
    let mut module = replacement_module(true);

    do_module_replacements(&mut module);

    assert!(find_import(&module, "ic0", "debug_print").is_some());
    assert!(find_import(&module, "ic0", "msg_reply").is_some());
    assert!(find_import(&module, "wasi_snapshot_preview1", "proc_exit").is_some());
    assert!(find_import(&module, "wasi_snapshot_preview1", "fd_write").is_none());
    assert!(find_import(&module, "wasi_snapshot_preview1", "random_get").is_none());
    assert!(find_import(&module, "wasi_snapshot_preview1", "environ_get").is_none());

    assert!(find_import(&module, "env", "some_function").is_some());
}

#[test]
fn rewrites_every_reference_of_a_replaced_import() {
    let mut module = replacement_module(false);

    let modified = do_module_replacements(&mut module);
    assert!(modified);

    // ids in the unshifted module: random_get = 3 -> 7, fd_write = 2 -> 8
    for f in &module.funcs {
        if let FunctionKind::Local(body) = &f.kind {
            for seq in &body.seqs {
                for ins in seq {
                    match ins {
                        Instr::Call { func }
                        | Instr::ReturnCall { func }
                        | Instr::RefFunc { func } => {
                            assert!(*func != 2 && *func != 3);
                        }
                        _ => {}
                    }
                }
            }
        }
    }
    for seg in &module.elements {
        for it in &seg.items {
            if let ElemItem::Func(f) = it {
                assert!(*f != 2 && *f != 3);
            }
        }
    }
    // the element slots now hold the replacements
    assert!(matches!(module.elements[0].items[0], ElemItem::Func(8)));
    assert!(matches!(module.elements[0].items[1], ElemItem::Func(7)));
}

#[test]
fn scenario_full_replacement_sets_start() {
    // a module importing wasi_snapshot_preview1::random_get with an exact
    // local replacement and an initializer, and no start function yet
    let mut module = Module {
        funcs: vec![
            imported(0, "_random_get", t_i32x2_i32()),
            local_fn(
                1,
                "__ic_custom_random_get",
                t_i32x2_i32(),
                0,
                vec![vec![Instr::Other]],
            ),
            local_fn(
                2,
                "_initialize",
                t_void(),
                0,
                vec![vec![Instr::Call { func: 0 }, Instr::Other]],
            ),
            local_fn(
                3,
                "run",
                t_void(),
                0,
                vec![vec![Instr::Call { func: 0 }]],
            ),
        ],
        imports: vec![fn_import("wasi_snapshot_preview1", "random_get", 0)],
        exports: vec![fn_export("_initialize", 2), fn_export("run", 3)],
        elements: vec![],
        start: None,
    };

    let modified = do_module_replacements(&mut module);
    assert!(modified);

    // the import is gone after the sweep
    assert!(find_import(&module, "wasi_snapshot_preview1", "random_get").is_none());
    // every former call of the import now calls the replacement
    let run = find_fn(&module, 3).unwrap();
    if let FunctionKind::Local(body) = &run.kind {
        assert!(matches!(body.seqs[0][0], Instr::Call { func: 1 }));
    } else {
        panic!("run must stay a local function");
    }
    // the start function is now the initializer, and its export is gone
    assert!(module.start == Some(2));
    assert!(module.exports.iter().all(|e| !e.name.starts_with("_initialize")));
}

#[test]
fn scenario_missing_replacement_leaves_import() {
    // wasi_unstable::fd_write has no __ic_custom_fd_write anywhere
    let mut module = Module {
        funcs: vec![
            imported(0, "_fd_write", t_i32x4_i32()),
            imported(1, "_random_get", t_i32x2_i32()),
            local_fn(
                2,
                "__ic_custom_random_get",
                t_i32x2_i32(),
                0,
                vec![vec![Instr::Other]],
            ),
            local_fn(
                3,
                "main",
                t_void(),
                0,
                vec![vec![Instr::Call { func: 0 }, Instr::Call { func: 1 }]],
            ),
        ],
        imports: vec![
            fn_import("wasi_unstable", "fd_write", 0),
            fn_import("wasi_unstable", "random_get", 1),
        ],
        exports: vec![fn_export("main", 3)],
        elements: vec![],
        start: None,
    };

    // the matcher reports the missing candidate
    let outcome = match_import(&module, "wasi_unstable", "fd_write", 0);
    assert_eq!(outcome, MatchOutcome::NotFound);

    let modified = do_module_replacements(&mut module);
    assert!(modified); // random_get was still replaced

    // fd_write is untouched and still present after the sweep: its call
    // site still references it
    assert!(find_import(&module, "wasi_unstable", "fd_write").is_some());
    assert!(find_import(&module, "wasi_unstable", "random_get").is_none());
}

#[test]
fn scenario_foreign_namespace_untouched() {
    // env::some_function is not a recognized namespace, even though a
    // matching candidate name exists
    let mut module = Module {
        funcs: vec![
            imported(0, "_some_function", t_i32x2_void()),
            local_fn(
                1,
                "__ic_custom_some_function",
                t_i32x2_void(),
                0,
                vec![vec![Instr::Other]],
            ),
            local_fn(
                2,
                "main",
                t_void(),
                0,
                vec![vec![Instr::Call { func: 0 }]],
            ),
        ],
        imports: vec![fn_import("env", "some_function", 0)],
        exports: vec![fn_export("main", 2)],
        elements: vec![],
        start: None,
    };

    let outcome = match_import(&module, "env", "some_function", 0);
    assert_eq!(outcome, MatchOutcome::UnrecognizedNamespace);

    let before_imports = module.imports.clone();
    let modified = do_module_replacements(&mut module);
    assert!(!modified);
    assert_eq!(module.imports.len(), before_imports.len());
    assert!(find_import(&module, "env", "some_function").is_some());
    // the call site is untouched
    let main = find_fn(&module, 2).unwrap();
    if let FunctionKind::Local(body) = &main.kind {
        assert!(matches!(body.seqs[0][0], Instr::Call { func: 0 }));
    }
}

#[test]
fn scenario_signature_mismatch_rejected() {
    // __ic_custom_x exists but takes a different parameter count than x
    let mut module = Module {
        funcs: vec![
            imported(0, "_x", t_i32_void()),
            local_fn(1, "__ic_custom_x", t_i32x2_void(), 0, vec![vec![Instr::Other]]),
            local_fn(2, "main", t_void(), 0, vec![vec![Instr::Call { func: 0 }]]),
        ],
        imports: vec![fn_import("wasi_snapshot_preview1", "x", 0)],
        exports: vec![fn_export("main", 2)],
        elements: vec![],
        start: None,
    };

    // the diagnostic cites the mismatched candidate
    let outcome = match_import(&module, "wasi_snapshot_preview1", "x", 0);
    assert_eq!(outcome, MatchOutcome::SignatureMismatch(1));

    let modified = do_module_replacements(&mut module);
    assert!(!modified);
    assert!(find_import(&module, "wasi_snapshot_preview1", "x").is_some());
}

#[test]
fn imported_candidate_rejected() {
    // the only candidate is itself an imported function
    let module = Module {
        funcs: vec![
            imported(0, "_x", t_void()),
            imported(1, "__ic_custom_x", t_void()),
        ],
        imports: vec![
            fn_import("wasi_unstable", "x", 0),
            fn_import("env", "helper", 1),
        ],
        exports: vec![],
        elements: vec![],
        start: None,
    };

    let outcome = match_import(&module, "wasi_unstable", "x", 0);
    assert_eq!(outcome, MatchOutcome::ImportedCandidate(1));
}

#[test]
fn candidate_found_through_exports() {
    // no function carries the candidate name, but an export does
    let module = Module {
        funcs: vec![
            imported(0, "_x", t_void()),
            local_fn(1, "renamed_helper", t_void(), 0, vec![vec![Instr::Other]]),
        ],
        imports: vec![fn_import("wasi_snapshot_preview1", "x", 0)],
        exports: vec![fn_export("__ic_custom_x", 1)],
        elements: vec![],
        start: None,
    };

    let outcome = match_import(&module, "wasi_snapshot_preview1", "x", 0);
    assert_eq!(outcome, MatchOutcome::Replaced(1));
}

#[test]
fn noop_without_recognized_imports() {
    // no import comes from a recognized namespace: the pass must not touch
    // anything, not even the start field or the exports
    let mut module = Module {
        funcs: vec![
            imported(0, "_dprint", t_i32x2_void()),
            local_fn(
                1,
                "_initialize",
                t_void(),
                0,
                vec![vec![Instr::Call { func: 0 }]],
            ),
        ],
        imports: vec![fn_import("ic0", "debug_print", 0)],
        exports: vec![fn_export("_initialize", 1)],
        elements: vec![],
        start: None,
    };

    let modified = do_module_replacements(&mut module);

    assert!(!modified);
    // start was not assigned and the export was not stripped
    assert!(module.start.is_none());
    assert_eq!(module.exports.len(), 1);
    assert_eq!(module.exports[0].name, "_initialize");
    assert_eq!(module.funcs.len(), 2);
    assert_eq!(module.imports.len(), 1);
}

#[test]
fn cyclic_sequences_terminate() {
    // a malformed body whose structured instructions form a cycle among
    // sequence ids: the rewriter must still visit each id once, rewrite
    // the call, and stop
    let mut module = Module {
        funcs: vec![
            imported(0, "_random_get", t_i32x2_i32()),
            local_fn(
                1,
                "__ic_custom_random_get",
                t_i32x2_i32(),
                0,
                vec![vec![Instr::Other]],
            ),
            local_fn(
                2,
                "looper",
                t_void(),
                0,
                vec![
                    vec![Instr::Block { seq: 1 }, Instr::Call { func: 0 }],
                    vec![Instr::Loop { seq: 0 }, Instr::Call { func: 0 }],
                ],
            ),
        ],
        imports: vec![fn_import("wasi_unstable", "random_get", 0)],
        exports: vec![fn_export("looper", 2)],
        elements: vec![],
        start: None,
    };

    let modified = do_module_replacements(&mut module);
    assert!(modified);

    let looper = find_fn(&module, 2).unwrap();
    if let FunctionKind::Local(body) = &looper.kind {
        assert!(matches!(body.seqs[0][1], Instr::Call { func: 1 }));
        assert!(matches!(body.seqs[1][1], Instr::Call { func: 1 }));
    } else {
        panic!("looper must stay a local function");
    }
}

#[test]
fn start_normalization_is_idempotent() {
    let mut module = Module {
        funcs: vec![local_fn(
            0,
            "_initialize",
            t_void(),
            0,
            vec![vec![Instr::Other]],
        )],
        imports: vec![],
        exports: vec![fn_export("_initialize", 0), fn_export("other", 0)],
        elements: vec![],
        start: None,
    };

    add_start_entry(&mut module);
    remove_start_export(&mut module);
    let start_once = module.start;
    let exports_once: Vec<String> = module.exports.iter().map(|e| e.name.clone()).collect();

    add_start_entry(&mut module);
    remove_start_export(&mut module);
    let exports_twice: Vec<String> = module.exports.iter().map(|e| e.name.clone()).collect();

    assert_eq!(module.start, start_once);
    assert_eq!(module.start, Some(0));
    assert_eq!(exports_once, exports_twice);
    assert_eq!(exports_once, vec!["other".to_string()]);
}

#[test]
fn expression_element_slots_untouched() {
    let mut module = Module {
        funcs: vec![
            imported(0, "_random_get", t_i32x2_i32()),
            local_fn(
                1,
                "__ic_custom_random_get",
                t_i32x2_i32(),
                0,
                vec![vec![Instr::Other]],
            ),
            local_fn(
                2,
                "main",
                t_void(),
                0,
                vec![vec![Instr::Call { func: 0 }]],
            ),
        ],
        imports: vec![fn_import("wasi_unstable", "random_get", 0)],
        exports: vec![fn_export("main", 2)],
        elements: vec![ElementSegment {
            items: vec![ElemItem::Expr, ElemItem::Func(0), ElemItem::Expr],
        }],
        start: None,
    };

    let modified = do_module_replacements(&mut module);
    assert!(modified);

    assert!(matches!(module.elements[0].items[0], ElemItem::Expr));
    assert!(matches!(module.elements[0].items[1], ElemItem::Func(1)));
    assert!(matches!(module.elements[0].items[2], ElemItem::Expr));
}

#[test]
fn result_type_mismatch_rejected() {
    let module = Module {
        funcs: vec![
            imported(0, "_x", sig(vec![ValType::I32], vec![ValType::I32])),
            local_fn(
                1,
                "__ic_custom_x",
                sig(vec![ValType::I32], vec![ValType::I64]),
                0,
                vec![vec![Instr::Other]],
            ),
        ],
        imports: vec![fn_import("wasi_unstable", "x", 0)],
        exports: vec![],
        elements: vec![],
        start: None,
    };

    let outcome = match_import(&module, "wasi_unstable", "x", 0);
    assert_eq!(outcome, MatchOutcome::SignatureMismatch(1));
}

#[test]
fn existing_start_wins() {
    // explicit prior configuration of the start function is never replaced
    let mut module = Module {
        funcs: vec![
            local_fn(0, "_initialize", t_void(), 0, vec![vec![Instr::Other]]),
            local_fn(1, "custom_entry", t_void(), 0, vec![vec![Instr::Other]]),
        ],
        imports: vec![],
        exports: vec![],
        elements: vec![],
        start: Some(1),
    };

    add_start_entry(&mut module);

    assert_eq!(module.start, Some(1));
}
