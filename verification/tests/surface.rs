use wasi2ic::listing::{get_module_imports, has_disallowed_imports};
use wasi2ic::model::{
    Export, ExportItem, FuncSig, Function, FunctionKind, Import, ImportKind, Module, ValType,
};
use wasi2ic::module_imports;
use wasi2ic::paths::is_wat;

fn imported(id: u64, name: &str) -> Function {
    Function {
        id,
        name: Some(name.to_string()),
        sig: FuncSig {
            params: vec![ValType::I32],
            results: vec![],
        },
        kind: FunctionKind::Imported,
    }
}

fn fn_import(module: &str, name: &str, id: u64) -> Import {
    Import {
        module: module.to_string(),
        name: name.to_string(),
        kind: ImportKind::Function(id),
    }
}

fn listing_module() -> Module {
    Module {
        funcs: vec![
            imported(0, "_dprint"),
            imported(1, "_fd_write"),
            imported(2, "_some_function"),
        ],
        imports: vec![
            fn_import("ic0", "debug_print", 0),
            fn_import("wasi_snapshot_preview1", "fd_write", 1),
            Import {
                module: "env".to_string(),
                name: "a_table".to_string(),
                kind: ImportKind::Table,
            },
            fn_import("env", "some_function", 2),
        ],
        exports: vec![Export {
            name: "memory".to_string(),
            item: ExportItem::Memory,
        }],
        elements: vec![],
        start: None,
    }
}

#[test]
fn lists_function_imports_in_order() {
    let mut m = listing_module();
    let pairs = module_imports(&mut m);
    assert_eq!(
        pairs,
        vec![
            ("ic0".to_string(), "debug_print".to_string()),
            ("wasi_snapshot_preview1".to_string(), "fd_write".to_string()),
            ("env".to_string(), "some_function".to_string()),
        ]
    );
    // the table import is skipped; the module itself is untouched
    assert_eq!(m.imports.len(), 4);

    let pairs2 = get_module_imports(&m);
    assert_eq!(pairs, pairs2);
}

#[test]
fn detects_disallowed_imports() {
    let m = listing_module();
    assert!(has_disallowed_imports(&m, "ic0"));

    let only_ic0 = Module {
        funcs: vec![imported(0, "_dprint")],
        imports: vec![
            fn_import("ic0", "debug_print", 0),
            Import {
                module: "env".to_string(),
                name: "a_table".to_string(),
                kind: ImportKind::Table,
            },
        ],
        exports: vec![],
        elements: vec![],
        start: None,
    };
    // a non-function import from another namespace does not count
    assert!(!has_disallowed_imports(&only_ic0, "ic0"));
}

#[test]
fn classifies_text_form_paths() {
    assert!(is_wat("input.wat"));
    assert!(is_wat("some/dir/module.wat"));
    assert!(is_wat("a.b.wat"));
    assert!(!is_wat("module.wasm"));
    assert!(!is_wat("module"));
    assert!(!is_wat(".wat"));
    assert!(!is_wat("dir/.wat"));
    assert!(!is_wat("dir.wat/module.wasm"));
    assert!(!is_wat("wat"));
}
