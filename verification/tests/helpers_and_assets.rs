use rewatch::clean::{asts_to_remove, compile_assets_to_remove, failed_to_compile, stale_source_assets};
use rewatch::names::{get_namespace_from_module_name, is_ast_extension, is_interface_ast_file};
use rewatch::types::{
    AssetLocation, CompileState, Config, Implementation, Interface, MlMap, Module, Package, ParseState, SourceFile,
    SourceType, StaleSource,
};

fn package(name: &str) -> Package {
    Package {
        name: name.to_string(),
        namespace: None,
        is_root: false,
        package_dir: format!("/p/{name}"),
        dirs: None,
        bsconfig: Config { pinned_dependencies: None, bs_dependencies: None, bs_dev_dependencies: None },
    }
}

fn implementation(parse_state: ParseState, compile_state: CompileState) -> Implementation {
    Implementation { path: "src/A.res".to_string(), parse_state, compile_state, last_modified: 0, dirty: true }
}

fn source_module(implementation: Implementation, interface: Option<Interface>) -> Module {
    Module { source_type: SourceType::SourceFile(SourceFile { implementation, interface }), package: package("p") }
}

#[test]
fn failed_to_compile_clean_module_is_false() {
    let m = source_module(implementation(ParseState::Success, CompileState::Success), None);
    assert!(!failed_to_compile(&m));
}

#[test]
fn failed_to_compile_counts_warnings_and_errors() {
    assert!(failed_to_compile(&source_module(implementation(ParseState::Success, CompileState::Warning), None)));
    assert!(failed_to_compile(&source_module(implementation(ParseState::Success, CompileState::Error), None)));
    assert!(failed_to_compile(&source_module(implementation(ParseState::ParseError, CompileState::Pending), None)));
    assert!(failed_to_compile(&source_module(implementation(ParseState::Warning, CompileState::Success), None)));
}

#[test]
fn failed_to_compile_looks_at_the_interface() {
    let interface = Interface {
        path: "src/A.resi".to_string(),
        parse_state: ParseState::ParseError,
        compile_state: CompileState::Success,
        last_modified: 0,
        dirty: true,
    };
    let m = source_module(implementation(ParseState::Success, CompileState::Success), Some(interface));
    assert!(failed_to_compile(&m));
}

#[test]
fn failed_to_compile_namespace_map_is_false() {
    let m = Module { source_type: SourceType::MlMap(MlMap { parse_dirty: true }), package: package("p") };
    assert!(!failed_to_compile(&m));
}

#[test]
fn namespace_of_module_names() {
    assert_eq!(get_namespace_from_module_name("Foo-Bar"), Some("Bar".to_string()));
    assert_eq!(get_namespace_from_module_name("Foo"), None);
    assert_eq!(get_namespace_from_module_name("A-B-C"), Some("B".to_string()));
    assert_eq!(get_namespace_from_module_name("A-"), Some("".to_string()));
    assert_eq!(get_namespace_from_module_name("-x"), Some("x".to_string()));
    assert_eq!(get_namespace_from_module_name(""), None);
    assert_eq!(get_namespace_from_module_name("Ünï-Çødé"), Some("Çødé".to_string()));
}

#[test]
fn interface_ast_files() {
    assert!(is_interface_ast_file("lib/bs/src/A.iast"));
    assert!(!is_interface_ast_file("lib/bs/src/A.ast"));
    assert!(!is_interface_ast_file("iast"));
    assert!(is_interface_ast_file(".iast"));
}

#[test]
fn ast_extensions() {
    assert!(is_ast_extension("ast"));
    assert!(is_ast_extension("iast"));
    assert!(!is_ast_extension("res"));
    assert!(!is_ast_extension("asts"));
    assert!(!is_ast_extension(""));
}

fn stale() -> StaleSource {
    StaleSource {
        source_file: "src/A.res".to_string(),
        package_name: "pkg".to_string(),
        package_namespace: Some("Ns".to_string()),
    }
}

fn summary(assets: &[rewatch::types::Asset]) -> Vec<(String, AssetLocation)> {
    assets.iter().map(|a| (a.extension.clone(), a.location)).collect()
}

#[test]
fn asts_of_a_source() {
    let assets = asts_to_remove(&stale());
    assert_eq!(
        summary(&assets),
        vec![("ast".to_string(), AssetLocation::Build), ("iast".to_string(), AssetLocation::Build)]
    );
    for a in &assets {
        assert_eq!(a.source_file, "src/A.res");
        assert_eq!(a.package_name, "pkg");
        assert_eq!(a.package_namespace, Some("Ns".to_string()));
    }
}

#[test]
fn compile_assets_of_a_source() {
    let assets = compile_assets_to_remove(&stale());
    let mut expected = vec![("mjs".to_string(), AssetLocation::SourceDir)];
    for ext in ["cmj", "cmi", "cmt", "cmti"] {
        expected.push((ext.to_string(), AssetLocation::Build));
        expected.push((ext.to_string(), AssetLocation::BsBuild));
    }
    assert_eq!(summary(&assets), expected);
}

#[test]
fn stale_source_assets_are_mjs_asts_and_compiled_output() {
    let assets = stale_source_assets(&stale());
    assert_eq!(assets.len(), 12);
    assert_eq!(summary(&assets[0..1]), vec![("mjs".to_string(), AssetLocation::SourceDir)]);
    assert_eq!(summary(&assets[1..3]), summary(&asts_to_remove(&stale())));
    assert_eq!(summary(&assets[3..]), summary(&compile_assets_to_remove(&stale())));
}
