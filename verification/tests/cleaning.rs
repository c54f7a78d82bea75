use ahash::{AHashMap, AHashSet};
use rewatch::clean::{ast_files_match_modules, cleanup_after_build, cleanup_previous_build, try_cleanup_previous_build};
use rewatch::types::{
    AstFile, CompileState, Config, Implementation, Interface, MlMap, Module, Package, ParseState, SourceFile, SourceType,
};

fn package(name: &str, namespace: Option<&str>) -> Package {
    Package {
        name: name.to_string(),
        namespace: namespace.map(|s| s.to_string()),
        is_root: false,
        package_dir: format!("/p/{name}"),
        dirs: None,
        bsconfig: Config { pinned_dependencies: None, bs_dependencies: None, bs_dev_dependencies: None },
    }
}

fn implementation(path: &str, last_modified: i128) -> Implementation {
    Implementation {
        path: path.to_string(),
        parse_state: ParseState::Success,
        compile_state: CompileState::Success,
        last_modified,
        dirty: true,
    }
}

fn interface(path: &str, last_modified: i128) -> Interface {
    Interface {
        path: path.to_string(),
        parse_state: ParseState::Success,
        compile_state: CompileState::Success,
        last_modified,
        dirty: true,
    }
}

fn module(implementation: Implementation, interface: Option<Interface>) -> Module {
    Module { source_type: SourceType::SourceFile(SourceFile { implementation, interface }), package: package("pkg", None) }
}

fn ast(ast_file_path: &str, res: Option<&str>, module_name: &str, last_modified: i128) -> AstFile {
    AstFile {
        ast_file_path: ast_file_path.to_string(),
        res_file_path: res.map(|s| s.to_string()),
        module_name: module_name.to_string(),
        package_name: "pkg".to_string(),
        package_namespace: Some("Ns".to_string()),
        last_modified,
    }
}

fn modules() -> AHashMap<String, Module> {
    let mut m = AHashMap::new();
    m.insert("A".to_string(), module(implementation("src/A.res", 10), None));
    m.insert("B".to_string(), module(implementation("src/B.res", 10), Some(interface("src/B.resi", 10))));
    m.insert("C".to_string(), module(implementation("src/C.res", 10), None));
    m
}

fn dirty(modules: &AHashMap<String, Module>, name: &str) -> (bool, Option<bool>) {
    match &modules[name].source_type {
        SourceType::SourceFile(sf) => (sf.implementation.dirty, sf.interface.as_ref().map(|i| i.dirty)),
        SourceType::MlMap(_) => panic!("not a source file"),
    }
}

fn scan() -> Vec<AstFile> {
    vec![
        ast("lib/bs/src/A.ast", Some("src/A.res"), "A", 20),
        ast("lib/bs/src/B.iast", Some("src/B.resi"), "B", 5),
        ast("lib/bs/src/B.ast", Some("src/B.res"), "B", 30),
        ast("lib/bs/src/Old.ast", Some("src/Old.res"), "Old-Ns", 1),
        ast("lib/bs/src/Broken.ast", None, "Broken", 1),
    ]
}

#[test]
fn previous_build_marks_newer_trees_clean_and_finds_stale_sources() {
    let mut all = modules();
    let files = scan();
    assert!(ast_files_match_modules(&all, &files));
    let (removed, with_tree, deleted, stale) = cleanup_previous_build(&mut all, &files);
    assert_eq!(removed, 1);
    assert_eq!(with_tree, 4);
    assert_eq!(deleted.len(), 1);
    assert!(deleted.contains("Ns"));
    assert_eq!(stale.len(), 1);
    assert_eq!(stale[0].source_file, "src/Old.res");
    assert_eq!(stale[0].package_name, "pkg");
    assert_eq!(stale[0].package_namespace, Some("Ns".to_string()));
    assert_eq!(dirty(&all, "A"), (false, None));
    assert_eq!(dirty(&all, "B"), (false, Some(true)));
    assert_eq!(dirty(&all, "C"), (true, None));
}

#[test]
fn previous_build_a_later_tree_for_the_same_source_wins() {
    let mut all = modules();
    let files = vec![
        ast("lib/bs/src/A.ast", Some("src/A.res"), "A", 20),
        ast("other/src/A.ast", Some("src/A.res"), "A", 1),
    ];
    let (removed, with_tree, deleted, stale) = cleanup_previous_build(&mut all, &files);
    assert_eq!((removed, with_tree), (0, 1));
    assert!(deleted.is_empty());
    assert!(stale.is_empty());
    assert_eq!(dirty(&all, "A"), (true, None));
}

#[test]
fn previous_build_deleted_module_without_namespace_is_named_itself() {
    let mut all = modules();
    let files = vec![ast("lib/bs/src/Gone.ast", Some("src/Gone.res"), "Gone", 1)];
    let (removed, with_tree, deleted, stale) = cleanup_previous_build(&mut all, &files);
    assert_eq!((removed, with_tree), (1, 1));
    assert!(deleted.contains("Gone"));
    assert_eq!(deleted.len(), 1);
    assert_eq!(stale.len(), 1);
}

#[test]
fn previous_build_second_run_changes_nothing() {
    let mut all = modules();
    let files = scan();
    let first = cleanup_previous_build(&mut all, &files);
    let after_first: Vec<_> = ["A", "B", "C"].iter().map(|n| dirty(&all, n)).collect();
    let second = cleanup_previous_build(&mut all, &files);
    let after_second: Vec<_> = ["A", "B", "C"].iter().map(|n| dirty(&all, n)).collect();
    assert_eq!(after_first, after_second);
    assert_eq!((first.0, first.1), (second.0, second.1));
    assert_eq!(first.2, second.2);
}

#[test]
fn previous_build_with_no_trees() {
    let mut all = modules();
    let (removed, with_tree, deleted, stale) = cleanup_previous_build(&mut all, &Vec::new());
    assert_eq!((removed, with_tree), (0, 0));
    assert!(deleted.is_empty() && stale.is_empty());
    assert_eq!(dirty(&all, "A"), (true, None));
}

#[test]
fn try_previous_build_refuses_a_tree_of_a_missing_module() {
    let mut all = modules();
    let files = vec![ast("lib/bs/src/A.ast", Some("src/A.res"), "Nope", 20)];
    assert!(!ast_files_match_modules(&all, &files));
    assert!(try_cleanup_previous_build(&mut all, &files).is_none());
    assert_eq!(dirty(&all, "A"), (true, None));
}

#[test]
fn try_previous_build_refuses_an_interface_tree_without_interface() {
    let mut all = modules();
    let files = vec![ast("lib/bs/src/A.iast", Some("src/A.res"), "A", 20)];
    assert!(try_cleanup_previous_build(&mut all, &files).is_none());
}

#[test]
fn try_previous_build_refuses_a_tree_of_a_namespace_map() {
    let mut all = modules();
    all.insert(
        "M".to_string(),
        Module { source_type: SourceType::MlMap(MlMap { parse_dirty: false }), package: package("pkg", None) },
    );
    let files = vec![ast("lib/bs/src/A.ast", Some("src/A.res"), "M", 20)];
    assert!(try_cleanup_previous_build(&mut all, &files).is_none());
}

#[test]
fn try_previous_build_runs_on_matching_trees() {
    let mut all = modules();
    let r = try_cleanup_previous_build(&mut all, &scan()).expect("trees match");
    assert_eq!((r.0, r.1), (1, 4));
    assert_eq!(dirty(&all, "A"), (false, None));
}

fn after_build_modules() -> AHashMap<String, Module> {
    let mut m = AHashMap::new();
    let mut failing = implementation("src/F.res", 1);
    failing.compile_state = CompileState::Error;
    m.insert("F".to_string(), module(failing, None));
    m.insert("Missing".to_string(), module(implementation("src/Missing.res", 1), None));
    m.insert("Fine".to_string(), module(implementation("src/Fine.res", 1), None));
    m.insert(
        "Map".to_string(),
        Module { source_type: SourceType::MlMap(MlMap { parse_dirty: false }), package: package("pkg", Some("Ns")) },
    );
    m
}

#[test]
fn after_build_lists_failed_and_uncompiled_source_modules() {
    let modules = after_build_modules();
    let compiled: AHashSet<String> = ["F", "Fine"].iter().map(|s| s.to_string()).collect();
    let all: AHashSet<String> = ["F", "Fine", "Missing", "Map"].iter().map(|s| s.to_string()).collect();
    let mut r = cleanup_after_build(&modules, &compiled, &all);
    r.sort_by(|a, b| a.0.cmp(&b.0));
    let names: Vec<&str> = r.iter().map(|(n, _)| n.as_str()).collect();
    assert_eq!(names, vec!["F", "Missing"]);
    assert_eq!(r[0].1.source_file, "src/F.res");
    assert_eq!(r[1].1.source_file, "src/Missing.res");
    assert_eq!(r[1].1.package_name, "pkg");
}

#[test]
fn after_build_keeps_everything_when_all_compiled() {
    let mut modules = after_build_modules();
    modules.remove("F");
    let compiled: AHashSet<String> = ["Fine", "Missing", "Map"].iter().map(|s| s.to_string()).collect();
    let all = compiled.clone();
    assert!(cleanup_after_build(&modules, &compiled, &all).is_empty());
}

#[test]
fn previous_build_never_makes_a_module_dirty() {
    let mut all = modules();
    if let SourceType::SourceFile(sf) = &mut all.get_mut("C").unwrap().source_type {
        sf.implementation.dirty = false;
    }
    let files = vec![ast("lib/bs/src/C.ast", Some("src/C.res"), "C", 1)];
    let _ = cleanup_previous_build(&mut all, &files);
    assert_eq!(dirty(&all, "C"), (false, None));
    match &all["C"].source_type {
        SourceType::SourceFile(sf) => {
            assert_eq!(sf.implementation.path, "src/C.res");
            assert_eq!(sf.implementation.last_modified, 10);
        },
        SourceType::MlMap(_) => panic!("not a source file"),
    }
}

#[test]
fn previous_build_stale_and_refreshed_add_up() {
    let mut all = modules();
    let files = scan();
    let (removed, with_tree, _, stale) = cleanup_previous_build(&mut all, &files);
    // src/A.res, src/B.res and src/B.resi still exist; src/Old.res does not.
    assert_eq!(removed + 3, with_tree);
    assert_eq!(stale.len(), removed);
}

#[test]
fn previous_build_rescan_after_removal_finds_nothing_stale() {
    let mut all = modules();
    let first = scan();
    let (removed, with_tree, _, stale) = cleanup_previous_build(&mut all, &first);
    // The stale source's tree is gone after the removal; a rescan finds the rest.
    let second: Vec<AstFile> = first
        .iter()
        .filter(|f| match &f.res_file_path {
            Some(p) => !stale.iter().any(|s| &s.source_file == p),
            None => false,
        })
        .map(|f| f.duplicate())
        .collect();
    let (removed2, with_tree2, deleted2, stale2) = cleanup_previous_build(&mut all, &second);
    assert_eq!(removed2, 0);
    assert!(with_tree2 <= with_tree - removed);
    assert!(deleted2.is_empty());
    assert!(stale2.is_empty());
}
