use ahash::{AHashMap, AHashSet};
use rewatch::sourcedirs::{child_source_dirs, find_root_package, print, root_source_dirs, to_source_dirs};
use rewatch::types::{Config, Package};

fn package(name: &str, is_root: bool, dirs: &[&str], deps: &[&str], dev: &[&str]) -> Package {
    Package {
        name: name.to_string(),
        namespace: None,
        is_root,
        package_dir: format!("/p/{name}"),
        dirs: Some(dirs.iter().map(|s| s.to_string()).collect()),
        bsconfig: Config {
            pinned_dependencies: None,
            bs_dependencies: Some(deps.iter().map(|s| s.to_string()).collect()),
            bs_dev_dependencies: Some(dev.iter().map(|s| s.to_string()).collect()),
        },
    }
}

fn packages() -> AHashMap<String, Package> {
    let mut m = AHashMap::new();
    m.insert("root".to_string(), package("root", true, &["src"], &["a", "b"], &[]));
    m.insert("a".to_string(), package("a", false, &["src", "src/sub", "src"], &["b", "unknown"], &["c"]));
    m.insert("b".to_string(), package("b", false, &[], &[], &[]));
    m.insert("c".to_string(), package("c", false, &["lib"], &[], &[]));
    m
}

#[test]
fn root_package_is_found() {
    let ps = packages();
    let (name, p) = find_root_package(&ps).expect("has a root");
    assert_eq!(name, "root");
    assert!(p.is_root);
    let mut none = packages();
    none.remove("root");
    assert!(find_root_package(&none).is_none());
}

#[test]
fn child_dirs_and_dependencies() {
    let ps = packages();
    let d = child_source_dirs(&ps, &ps["a"]);
    let dirs: AHashSet<String> = d.dirs.iter().cloned().collect();
    assert_eq!(dirs, ["src", "src/sub"].iter().map(|s| s.to_string()).collect());
    assert_eq!(d.pkgs.len(), 2);
    assert_eq!(d.pkgs["b"], "/p/b");
    assert_eq!(d.pkgs["c"], "/p/c");
    let file = to_source_dirs(&d);
    let mut listed = file.dirs.clone();
    listed.sort();
    assert_eq!(listed, vec!["src".to_string(), "src/sub".to_string()]);
    let mut pkgs = file.pkgs.clone();
    pkgs.sort();
    assert_eq!(pkgs, vec![("b".to_string(), "/p/b".to_string()), ("c".to_string(), "/p/c".to_string())]);
    assert!(file.generated.is_empty());
}

#[test]
fn print_lists_every_package_but_the_root() {
    let ps = packages();
    let (root, root_package, children) = print(&ps);
    assert_eq!(root, "root");
    assert!(root_package.is_root);
    let mut names: Vec<&str> = children.iter().map(|(n, _, _)| n.as_str()).collect();
    names.sort();
    assert_eq!(names, vec!["a", "b", "c"]);
}

#[test]
fn root_file_gathers_the_children() {
    let ps = packages();
    let (_, _, children) = print(&ps);
    let pairs: Vec<(String, &rewatch::sourcedirs::PackageSourceDirs)> =
        children.iter().map(|(n, _, d)| (format!("node_modules/{n}"), d)).collect();
    let root = root_source_dirs(&pairs);
    let mut dirs = root.dirs.clone();
    dirs.sort();
    assert_eq!(
        dirs,
        vec!["node_modules/a/src".to_string(), "node_modules/a/src/sub".to_string(), "node_modules/c/lib".to_string()]
    );
    let mut pkgs = root.pkgs.clone();
    pkgs.sort();
    assert_eq!(pkgs, vec![("b".to_string(), "/p/b".to_string()), ("c".to_string(), "/p/c".to_string())]);
    assert!(root.generated.is_empty());
}

#[test]
fn root_file_of_no_children_is_empty() {
    let root = root_source_dirs(&Vec::new());
    assert!(root.dirs.is_empty() && root.pkgs.is_empty() && root.generated.is_empty());
}

#[test]
fn source_files_are_empty() {
    let ps = packages();
    let (root, _, children, root_file) = rewatch::sourcefiles::print(&ps);
    assert_eq!(root, "root");
    assert_eq!(children.len(), 3);
    for (_, p, f) in &children {
        assert!(!p.is_root);
        assert!(f.dirs.is_empty() && f.subdirs.is_empty() && f.generated.is_empty());
    }
    assert!(root_file.dirs.is_empty() && root_file.subdirs.is_empty() && root_file.generated.is_empty());
}

#[test]
fn root_source_files_prefixes_each_dir() {
    let path = "/p/a".to_string();
    let mut subdirs = AHashMap::new();
    subdirs.insert("x".to_string(), "/x".to_string());
    let children = vec![(&path, vec!["src".to_string(), "test".to_string()], subdirs)];
    let f = rewatch::sourcefiles::root_source_files(&children);
    assert_eq!(f.dirs, vec!["/p/a/src".to_string(), "/p/a/test".to_string()]);
    assert_eq!(f.subdirs, vec![("x".to_string(), "/x".to_string())]);
}

#[test]
fn root_source_dirs_of_gathers_every_other_package() {
    let ps = packages();
    let mut paths = AHashMap::new();
    for name in ["root", "a", "b", "c"] {
        paths.insert(name.to_string(), format!("node_modules/{name}"));
    }
    assert!(rewatch::sourcedirs::package_paths_complete(&ps, &paths));
    let root = rewatch::sourcedirs::root_source_dirs_of(&ps, &paths);
    let mut dirs = root.dirs.clone();
    dirs.sort();
    assert_eq!(
        dirs,
        vec!["node_modules/a/src".to_string(), "node_modules/a/src/sub".to_string(), "node_modules/c/lib".to_string()]
    );
    let mut pkgs = root.pkgs.clone();
    pkgs.sort();
    assert_eq!(pkgs, vec![("b".to_string(), "/p/b".to_string()), ("c".to_string(), "/p/c".to_string())]);
    assert!(root.generated.is_empty());
}

#[test]
fn package_paths_complete_detects_a_missing_path() {
    let ps = packages();
    let mut paths = AHashMap::new();
    paths.insert("a".to_string(), "x".to_string());
    paths.insert("b".to_string(), "y".to_string());
    assert!(!rewatch::sourcedirs::package_paths_complete(&ps, &paths));
    paths.insert("c".to_string(), "z".to_string());
    assert!(rewatch::sourcedirs::package_paths_complete(&ps, &paths));
}
