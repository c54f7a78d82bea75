//! Cleaning compiler assets before and after a build.
use vstd::prelude::*;
use crate::types::{
    Asset, AssetLocation, AssetView, AstFile, CompileState, Implementation, Interface, Module, ParseState, SourceFile,
    SourceType, StaleSource,
};
use crate::collections::{
    ast_table, ast_table_entries, ast_table_get, ast_table_insert, ast_table_new, lists_exactly, module_table,
    module_table_entries, module_table_get, module_table_get_mut, string_set, string_set_contains, string_set_difference,
    string_set_insert, string_set_intersection, string_set_len, string_set_new,
};
use crate::names::{get_namespace_from_module_name, is_interface_ast_file, spec_deleted_name, spec_is_interface_ast_file};
use ahash::{AHashMap, AHashSet};

verus! {

/// A compile state that counts as a failure.
pub open spec fn compile_failed(s: CompileState) -> bool {
    s is Error || s is Warning
}

/// A parse state that counts as a failure.
pub open spec fn parse_failed(s: ParseState) -> bool {
    s is ParseError || s is Warning
}

/// A module failed to compile when it is a source file whose implementation
/// or interface did not compile or parse cleanly (a warning counts).
pub open spec fn spec_failed_to_compile(module: Module) -> bool {
    match module.source_type {
        SourceType::SourceFile(sf) => {
            ||| compile_failed(sf.implementation.compile_state)
            ||| parse_failed(sf.implementation.parse_state)
            ||| (sf.interface matches Some(i) && (compile_failed(i.compile_state) || parse_failed(i.parse_state)))
        },
        SourceType::MlMap(_) => false,
    }
}

/// Whether a module failed to compile (see `spec_failed_to_compile`).
pub fn failed_to_compile(module: &Module) -> (r: bool)
    ensures
        r == spec_failed_to_compile(*module),
        r == (match module.source_type {
            SourceType::SourceFile(sf) => {
                ||| sf.implementation.compile_state is Error
                ||| sf.implementation.compile_state is Warning
                ||| sf.implementation.parse_state is ParseError
                ||| sf.implementation.parse_state is Warning
                ||| (sf.interface matches Some(itf) && (itf.compile_state is Error || itf.compile_state is Warning
                    || itf.parse_state is ParseError || itf.parse_state is Warning))
            },
            SourceType::MlMap(_) => false,
        }),
{
    match &module.source_type {
        SourceType::SourceFile(source_file) => {
            let implementation = &source_file.implementation;
            let implementation_failed = match implementation.compile_state {
                CompileState::Error | CompileState::Warning => true,
                _ => match implementation.parse_state {
                    ParseState::ParseError | ParseState::Warning => true,
                    _ => false,
                },
            };
            if implementation_failed {
                return true;
            }
            match &source_file.interface {
                Some(interface) => {
                    let compile = match interface.compile_state {
                        CompileState::Error | CompileState::Warning => true,
                        _ => false,
                    };
                    let parse = match interface.parse_state {
                        ParseState::ParseError | ParseState::Warning => true,
                        _ => false,
                    };
                    compile || parse
                },
                None => false,
            }
        },
        SourceType::MlMap(_) => false,
    }
}


/// An asset of `source` as plain values.
pub open spec fn asset_of(source: StaleSource, extension: Seq<char>, location: AssetLocation) -> AssetView {
    AssetView {
        source_file: source.source_file@,
        package_name: source.package_name@,
        package_namespace: source.package_namespace.deep_view(),
        extension,
        location,
    }
}

/// The views of a list of assets.
pub open spec fn asset_views(v: Seq<Asset>) -> Seq<AssetView> {
    v.map_values(|a: Asset| a@)
}

/// The abstract syntax trees of a source file: its `.ast` and `.iast` in the
/// build directory.
pub open spec fn spec_asts_to_remove(source: StaleSource) -> Seq<AssetView> {
    seq![
        asset_of(source, seq!['a', 's', 't'], AssetLocation::Build),
        asset_of(source, seq!['i', 'a', 's', 't'], AssetLocation::Build),
    ]
}

/// The compiled output of a source file: the `.mjs` beside it, then, for
/// each of `cmj`, `cmi`, `cmt` and `cmti`, the asset in the build directory
/// and the one in the `bs` build directory.
pub open spec fn spec_compile_assets_to_remove(source: StaleSource) -> Seq<AssetView> {
    seq![
        asset_of(source, seq!['m', 'j', 's'], AssetLocation::SourceDir),
        asset_of(source, seq!['c', 'm', 'j'], AssetLocation::Build),
        asset_of(source, seq!['c', 'm', 'j'], AssetLocation::BsBuild),
        asset_of(source, seq!['c', 'm', 'i'], AssetLocation::Build),
        asset_of(source, seq!['c', 'm', 'i'], AssetLocation::BsBuild),
        asset_of(source, seq!['c', 'm', 't'], AssetLocation::Build),
        asset_of(source, seq!['c', 'm', 't'], AssetLocation::BsBuild),
        asset_of(source, seq!['c', 'm', 't', 'i'], AssetLocation::Build),
        asset_of(source, seq!['c', 'm', 't', 'i'], AssetLocation::BsBuild),
    ]
}

/// Everything removed for a source file that no longer exists: its `.mjs`,
/// its abstract syntax trees and its compiled output (which names the
/// `.mjs` once more).
pub open spec fn spec_stale_source_assets(source: StaleSource) -> Seq<AssetView> {
    seq![asset_of(source, seq!['m', 'j', 's'], AssetLocation::SourceDir)]
        + spec_asts_to_remove(source) + spec_compile_assets_to_remove(source)
}

fn make_asset(source: &StaleSource, extension: &str, location: AssetLocation) -> (r: Asset)
    ensures
        r@ == asset_of(*source, extension@, location),
        r.source_file == source.source_file,
        r.package_name == source.package_name,
        r.package_namespace == source.package_namespace,
{
    Asset {
        source_file: source.source_file.clone(),
        package_name: source.package_name.clone(),
        package_namespace: crate::types::copy_option_string(&source.package_namespace),
        extension: String::from_str(extension),
        location,
    }
}

/// The abstract syntax trees of a source file, which are removed when it
/// did not compile.
pub fn asts_to_remove(source: &StaleSource) -> (r: Vec<Asset>)
    ensures
        asset_views(r@) == spec_asts_to_remove(*source),
        r@.len() == 2,
        forall|i: int|
            #![trigger r@[i]]
            0 <= i < r@.len() ==> r@[i].source_file == source.source_file && r@[i].package_name == source.package_name
                && r@[i].package_namespace == source.package_namespace,
{
    proof {
        reveal_strlit("ast");
        assert("ast"@ =~= seq!['a', 's', 't']);
        reveal_strlit("iast");
        assert("iast"@ =~= seq!['i', 'a', 's', 't']);
    }
    let mut r = Vec::new();
    r.push(make_asset(source, "ast", AssetLocation::Build));
    r.push(make_asset(source, "iast", AssetLocation::Build));
    assert(asset_views(r@) =~= spec_asts_to_remove(*source));
    r
}

/// The compiled output of a source file.
pub fn compile_assets_to_remove(source: &StaleSource) -> (r: Vec<Asset>)
    ensures
        asset_views(r@) == spec_compile_assets_to_remove(*source),
        r@.len() == 9,
        forall|i: int|
            #![trigger r@[i]]
            0 <= i < r@.len() ==> r@[i].source_file == source.source_file && r@[i].package_name == source.package_name
                && r@[i].package_namespace == source.package_namespace,
{
    proof {
        reveal_strlit("mjs");
        assert("mjs"@ =~= seq!['m', 'j', 's']);
        reveal_strlit("cmj");
        assert("cmj"@ =~= seq!['c', 'm', 'j']);
        reveal_strlit("cmi");
        assert("cmi"@ =~= seq!['c', 'm', 'i']);
        reveal_strlit("cmt");
        assert("cmt"@ =~= seq!['c', 'm', 't']);
        reveal_strlit("cmti");
        assert("cmti"@ =~= seq!['c', 'm', 't', 'i']);
    }
    let mut r = Vec::new();
    r.push(make_asset(source, "mjs", AssetLocation::SourceDir));
    r.push(make_asset(source, "cmj", AssetLocation::Build));
    r.push(make_asset(source, "cmj", AssetLocation::BsBuild));
    r.push(make_asset(source, "cmi", AssetLocation::Build));
    r.push(make_asset(source, "cmi", AssetLocation::BsBuild));
    r.push(make_asset(source, "cmt", AssetLocation::Build));
    r.push(make_asset(source, "cmt", AssetLocation::BsBuild));
    r.push(make_asset(source, "cmti", AssetLocation::Build));
    r.push(make_asset(source, "cmti", AssetLocation::BsBuild));
    assert(asset_views(r@) =~= spec_compile_assets_to_remove(*source));
    r
}

/// Everything removed for a source file that no longer exists.
pub fn stale_source_assets(source: &StaleSource) -> (r: Vec<Asset>)
    ensures
        asset_views(r@) == spec_stale_source_assets(*source),
        r@.len() == 12,
        forall|i: int|
            #![trigger r@[i]]
            0 <= i < r@.len() ==> r@[i].source_file == source.source_file && r@[i].package_name == source.package_name
                && r@[i].package_namespace == source.package_namespace,
{
    proof {
        reveal_strlit("mjs");
        assert("mjs"@ =~= seq!['m', 'j', 's']);
    }
    let mut r = Vec::new();
    r.push(make_asset(source, "mjs", AssetLocation::SourceDir));
    let mut asts = asts_to_remove(source);
    let mut compiled = compile_assets_to_remove(source);
    let ghost first = r@;
    let ghost a = asts@;
    let ghost c = compiled@;
    r.append(&mut asts);
    r.append(&mut compiled);
    assert(r@ == first + a + c);
    assert forall|i: int|
        #![trigger r@[i]]
        0 <= i < r@.len() implies r@[i].source_file == source.source_file && r@[i].package_name == source.package_name
            && r@[i].package_namespace == source.package_namespace by {
        if i == 0 {
            assert(r@[i] == first[0]);
        } else if i < 3 {
            assert(r@[i] == a[i - 1]);
        } else {
            assert(r@[i] == c[i - 3]);
        }
    }
    assert(asset_views(r@) =~= asset_views(first) + asset_views(a) + asset_views(c));
    assert(asset_views(first) =~= seq![asset_of(*source, seq!['m', 'j', 's'], AssetLocation::SourceDir)]);
    r
}


/// The interface of a module: that of a source file, none for a namespace map.
pub open spec fn spec_get_interface(module: Module) -> Option<Interface> {
    match module.source_type {
        SourceType::SourceFile(sf) => sf.interface,
        SourceType::MlMap(_) => None,
    }
}

/// The interface of a module, if it has one.
pub fn get_interface(module: &Module) -> (r: &Option<Interface>)
    ensures
        *r == spec_get_interface(*module),
{
    match &module.source_type {
        SourceType::SourceFile(source_file) => &source_file.interface,
        SourceType::MlMap(_) => &None,
    }
}

/// The ReScript source files of a module: the implementation and interface
/// of a source file; none for a namespace map.
pub open spec fn source_paths(module: Module) -> Set<Seq<char>> {
    match module.source_type {
        SourceType::SourceFile(sf) => match sf.interface {
            Some(i) => set![sf.implementation.path@, i.path@],
            None => set![sf.implementation.path@],
        },
        SourceType::MlMap(_) => Set::empty(),
    }
}

/// Every ReScript source file of the build's modules.
pub open spec fn rescript_locations(table: Map<Seq<char>, Module>) -> Set<Seq<char>> {
    Set::new(|p: Seq<char>| exists|k: Seq<char>| table.contains_key(k) && #[trigger] source_paths(table[k]).contains(p))
}

/// The abstract syntax tree files a scan found, keyed by the source file
/// each was made from; files whose source could not be read are left out,
/// and a later file for the same source replaces an earlier one.
pub open spec fn ast_index(files: Seq<AstFile>) -> Map<Seq<char>, AstFile>
    decreases files.len(),
{
    if files.len() == 0 {
        Map::empty()
    } else {
        let prev = ast_index(files.drop_last());
        match files.last().res_file_path {
            Some(p) => prev.insert(p@, files.last()),
            None => prev,
        }
    }
}

fn rescript_file_locations(all_modules: &AHashMap<String, Module>) -> (r: AHashSet<String>)
    ensures
        string_set(r) == rescript_locations(module_table(*all_modules)),
{
    let ghost table = module_table(*all_modules);
    let entries = module_table_entries(all_modules);
    let mut r = string_set_new();
    let mut i: usize = 0;
    while i < entries.len()
        invariant
            i <= entries.len(),
            crate::collections::lists_modules(entries@, table),
            string_set(r) == Set::new(
                |p: Seq<char>| exists|j: int| 0 <= j < i && #[trigger] source_paths(*entries@[j].1).contains(p),
            ),
        decreases entries.len() - i,
    {
        let ghost before = string_set(r);
        let module = entries[i].1;
        match &module.source_type {
            SourceType::SourceFile(source_file) => {
                string_set_insert(&mut r, source_file.implementation.path.clone());
                match get_interface(module) {
                    Some(interface) => {
                        string_set_insert(&mut r, interface.path.clone());
                    },
                    None => {},
                }
            },
            SourceType::MlMap(_) => {},
        }
        proof {
            assert(string_set(r) =~= before.union(source_paths(*entries@[i as int].1)));
            assert(string_set(r) =~= Set::new(
                |p: Seq<char>| exists|j: int| 0 <= j < i + 1 && #[trigger] source_paths(*entries@[j].1).contains(p),
            )) by {
                assert forall|p: Seq<char>| string_set(r).contains(p) implies
                    exists|j: int| 0 <= j < i + 1 && #[trigger] source_paths(*entries@[j].1).contains(p) by {
                    if !before.contains(p) {
                        assert(source_paths(*entries@[i as int].1).contains(p));
                    }
                }
            }
        }
        i = i + 1;
    }
    proof {
        assert(string_set(r) =~= rescript_locations(table)) by {
            assert forall|p: Seq<char>| rescript_locations(table).contains(p) implies string_set(r).contains(p) by {
                let k = choose|k: Seq<char>| table.contains_key(k) && #[trigger] source_paths(table[k]).contains(p);
                let j = choose|j: int| 0 <= j < entries@.len() && #[trigger] entries@[j].0@ == k;
                assert(source_paths(*entries@[j].1).contains(p));
            }
            assert forall|p: Seq<char>| string_set(r).contains(p) implies rescript_locations(table).contains(p) by {
                let j = choose|j: int| 0 <= j < entries@.len() && #[trigger] source_paths(*entries@[j].1).contains(p);
                assert(table.contains_key(entries@[j].0@));
                assert(source_paths(table[entries@[j].0@]).contains(p));
            }
        }
    }
    r
}

fn index_ast_files(ast_files: &Vec<AstFile>) -> (r: (AHashMap<String, AstFile>, AHashSet<String>))
    ensures
        ast_table(r.0) == ast_index(ast_files@),
        string_set(r.1) == ast_index(ast_files@).dom(),
{
    let mut ast_modules = ast_table_new();
    let mut locations = string_set_new();
    proof {
        assert(ast_table(ast_modules) =~= ast_index(ast_files@.take(0)));
        assert(string_set(locations) =~= ast_index(ast_files@.take(0)).dom());
    }
    let mut i: usize = 0;
    while i < ast_files.len()
        invariant
            i <= ast_files.len(),
            ast_table(ast_modules) == ast_index(ast_files@.take(i as int)),
            string_set(locations) == ast_index(ast_files@.take(i as int)).dom(),
        decreases ast_files.len() - i,
    {
        let file = &ast_files[i];
        proof {
            assert(ast_files@.take(i + 1).drop_last() =~= ast_files@.take(i as int));
            assert(ast_files@.take(i + 1).last() == *file);
        }
        match &file.res_file_path {
            Some(res_file_path) => {
                let _ = ast_table_insert(&mut ast_modules, res_file_path.clone(), file.duplicate());
                string_set_insert(&mut locations, res_file_path.clone());
                proof {
                    assert(string_set(locations) =~= ast_index(ast_files@.take(i + 1)).dom());
                }
            },
            None => {},
        }
        i = i + 1;
    }
    proof {
        assert(ast_files@.take(ast_files.len() as int) =~= ast_files@);
    }
    (ast_modules, locations)
}


/// An abstract syntax tree file is newer than the source it was made from:
/// it belongs to module `name`, is an interface's tree exactly when
/// `interface`, and was modified after `source_modified`.
pub open spec fn refreshes(e: AstFile, name: Seq<char>, interface: bool, source_modified: i128) -> bool {
    &&& e.module_name@ == name
    &&& spec_is_interface_ast_file(e.ast_file_path@) == interface
    &&& e.last_modified > source_modified
}

/// Some tree indexed under one of `locs` is newer than the given half of
/// module `name`.
pub open spec fn refreshed(
    idx: Map<Seq<char>, AstFile>,
    locs: Set<Seq<char>>,
    name: Seq<char>,
    interface: bool,
    source_modified: i128,
) -> bool {
    exists|loc: Seq<char>| locs.contains(loc) && idx.contains_key(loc) && #[trigger] refreshes(idx[loc], name, interface, source_modified)
}

/// Module `name` after every tree indexed under `locs` was looked at: a half
/// of a source file stays dirty only when it was dirty and no newer tree of
/// it was found. Nothing else changes.
pub open spec fn mark_module(m: Module, name: Seq<char>, idx: Map<Seq<char>, AstFile>, locs: Set<Seq<char>>) -> Module {
    match m.source_type {
        SourceType::SourceFile(sf) => Module {
            source_type: SourceType::SourceFile(SourceFile {
                implementation: Implementation {
                    dirty: sf.implementation.dirty && !refreshed(idx, locs, name, false, sf.implementation.last_modified),
                    ..sf.implementation
                },
                interface: match sf.interface {
                    Some(i) => Some(Interface { dirty: i.dirty && !refreshed(idx, locs, name, true, i.last_modified), ..i }),
                    None => None,
                },
            }),
            ..m
        },
        SourceType::MlMap(_) => m,
    }
}

/// The modules after every tree indexed under `locs` was looked at.
pub open spec fn mark_clean(table: Map<Seq<char>, Module>, idx: Map<Seq<char>, AstFile>, locs: Set<Seq<char>>) -> Map<
    Seq<char>,
    Module,
> {
    Map::new(|k: Seq<char>| table.contains_key(k), |k: Seq<char>| mark_module(table[k], k, idx, locs))
}

/// What looking at one tree does to its module: the half the tree belongs to
/// becomes clean when the tree is newer than it.
pub open spec fn apply_ast(m: Module, e: AstFile) -> Module {
    match m.source_type {
        SourceType::SourceFile(sf) => if spec_is_interface_ast_file(e.ast_file_path@) {
            match sf.interface {
                Some(i) => if e.last_modified > i.last_modified {
                    Module {
                        source_type: SourceType::SourceFile(
                            SourceFile { interface: Some(Interface { dirty: false, ..i }), ..sf },
                        ),
                        ..m
                    }
                } else {
                    m
                },
                None => m,
            }
        } else if e.last_modified > sf.implementation.last_modified {
            Module {
                source_type: SourceType::SourceFile(
                    SourceFile { implementation: Implementation { dirty: false, ..sf.implementation }, ..sf },
                ),
                ..m
            }
        } else {
            m
        },
        SourceType::MlMap(_) => m,
    }
}

/// A tree whose source still exists belongs to a known source-file module,
/// and an interface's tree to one that has an interface.
pub open spec fn entry_matches_module(table: Map<Seq<char>, Module>, e: AstFile) -> bool {
    &&& table.contains_key(e.module_name@)
    &&& match table[e.module_name@].source_type {
        SourceType::SourceFile(sf) => spec_is_interface_ast_file(e.ast_file_path@) ==> sf.interface is Some,
        SourceType::MlMap(_) => false,
    }
}

/// Every tree found for a source file that still exists matches its module.
pub open spec fn ast_files_consistent(table: Map<Seq<char>, Module>, files: Seq<AstFile>) -> bool {
    forall|loc: Seq<char>|
        #![trigger ast_index(files).contains_key(loc), rescript_locations(table).contains(loc)]
        ast_index(files).contains_key(loc) && rescript_locations(table).contains(loc)
            ==> entry_matches_module(table, ast_index(files)[loc])
}

/// The stale source is the one indexed under its path, with that tree's
/// package name and namespace.
pub open spec fn describes_stale(s: StaleSource, idx: Map<Seq<char>, AstFile>) -> bool {
    &&& idx.contains_key(s.source_file@)
    &&& s.package_name == idx[s.source_file@].package_name
    &&& s.package_namespace == idx[s.source_file@].package_namespace
}

/// The list names each source of `locs` once, as `idx` describes it.
pub open spec fn lists_stale(v: Seq<StaleSource>, locs: Set<Seq<char>>, idx: Map<Seq<char>, AstFile>) -> bool {
    &&& forall|i: int, j: int| 0 <= i < v.len() && 0 <= j < v.len() && i != j ==> v[i].source_file@ != v[j].source_file@
    &&& forall|i: int| 0 <= i < v.len() ==> locs.contains(#[trigger] v[i].source_file@) && describes_stale(v[i], idx)
    &&& forall|l: Seq<char>| locs.contains(l) ==> exists|i: int| 0 <= i < v.len() && #[trigger] v[i].source_file@ == l
}

/// The names marked as deleted: for each tree whose module is gone, its
/// namespace, or its module name when it has none.
pub open spec fn deleted_names(table: Map<Seq<char>, Module>, idx: Map<Seq<char>, AstFile>) -> Set<Seq<char>> {
    Set::new(
        |x: Seq<char>|
            exists|l: Seq<char>|
                #![trigger idx[l]]
                idx.contains_key(l) && !table.contains_key(idx[l].module_name@) && x == spec_deleted_name(idx[l].module_name@),
    )
}

/// The strings the first `n` entries of `v` hold.
pub open spec fn seen(v: Seq<&String>, n: int) -> Set<Seq<char>> {
    Set::new(|p: Seq<char>| exists|j: int| 0 <= j < n && #[trigger] v[j]@ == p)
}

proof fn lemma_refreshed_insert(
    idx: Map<Seq<char>, AstFile>,
    locs: Set<Seq<char>>,
    loc: Seq<char>,
    name: Seq<char>,
    interface: bool,
    source_modified: i128,
)
    requires
        idx.contains_key(loc),
    ensures
        refreshed(idx, locs.insert(loc), name, interface, source_modified) == (refreshed(
            idx,
            locs,
            name,
            interface,
            source_modified,
        ) || refreshes(idx[loc], name, interface, source_modified)),
{
    if refreshed(idx, locs.insert(loc), name, interface, source_modified) {
        let l = choose|l: Seq<char>|
            locs.insert(loc).contains(l) && idx.contains_key(l) && #[trigger] refreshes(idx[l], name, interface, source_modified);
        if l != loc {
            assert(locs.contains(l));
        }
    }
    if refreshed(idx, locs, name, interface, source_modified) {
        let l = choose|l: Seq<char>|
            locs.contains(l) && idx.contains_key(l) && #[trigger] refreshes(idx[l], name, interface, source_modified);
        assert(locs.insert(loc).contains(l));
    }
    if refreshes(idx[loc], name, interface, source_modified) {
        assert(locs.insert(loc).contains(loc));
    }
}

/// Looking at one more tree changes only its module, as `apply_ast` says.
proof fn lemma_mark_step(table: Map<Seq<char>, Module>, idx: Map<Seq<char>, AstFile>, locs: Set<Seq<char>>, loc: Seq<char>)
    requires
        idx.contains_key(loc),
        table.contains_key(idx[loc].module_name@),
    ensures
        ({
            let name = idx[loc].module_name@;
            let before = mark_clean(table, idx, locs);
            mark_clean(table, idx, locs.insert(loc)) == before.insert(name, apply_ast(before[name], idx[loc]))
        }),
{
    let name = idx[loc].module_name@;
    let e = idx[loc];
    let before = mark_clean(table, idx, locs);
    let after = mark_clean(table, idx, locs.insert(loc));
    assert forall|k: Seq<char>| table.contains_key(k) implies #[trigger] after[k] == before.insert(
        name,
        apply_ast(before[name], e),
    )[k] by {
        match table[k].source_type {
            SourceType::SourceFile(sf) => {
                lemma_refreshed_insert(idx, locs, loc, k, false, sf.implementation.last_modified);
                match sf.interface {
                    Some(i) => {
                        lemma_refreshed_insert(idx, locs, loc, k, true, i.last_modified);
                    },
                    None => {},
                }
            },
            SourceType::MlMap(_) => {},
        }
    }
    assert(after =~= before.insert(name, apply_ast(before[name], e)));
}


/// Looks at the tree of each source in `locations` and marks its module's
/// half clean when the tree is newer.
fn mark_refreshed_modules(
    all_modules: &mut AHashMap<String, Module>,
    ast_modules: &AHashMap<String, AstFile>,
    locations: &Vec<&String>,
    Ghost(locs): Ghost<Set<Seq<char>>>,
)
    requires
        lists_exactly(locations@, locs),
        locs.subset_of(ast_table(*ast_modules).dom()),
        forall|l: Seq<char>| #[trigger] locs.contains(l) ==> entry_matches_module(module_table(*old(all_modules)), ast_table(*ast_modules)[l]),
    ensures
        module_table(*final(all_modules)) == mark_clean(module_table(*old(all_modules)), ast_table(*ast_modules), locs),
{
    let ghost table0 = module_table(*all_modules);
    let ghost idx = ast_table(*ast_modules);
    proof {
        assert(mark_clean(table0, idx, seen(locations@, 0)) =~= table0) by {
            assert forall|k: Seq<char>| table0.contains_key(k) implies #[trigger] mark_clean(table0, idx, seen(locations@, 0))[k] == table0[k] by {
                assert forall|l: Seq<char>| !#[trigger] seen(locations@, 0).contains(l) by {}
                match table0[k].source_type {
                    SourceType::SourceFile(sf) => {
                        assert(!refreshed(idx, seen(locations@, 0), k, false, sf.implementation.last_modified));
                        match sf.interface {
                            Some(i) => {
                                assert(!refreshed(idx, seen(locations@, 0), k, true, i.last_modified));
                            },
                            None => {},
                        }
                    },
                    SourceType::MlMap(_) => {},
                }
            }
        }
    }
    let mut i: usize = 0;
    while i < locations.len()
        invariant
            i <= locations.len(),
            lists_exactly(locations@, locs),
            locs.subset_of(idx.dom()),
            idx == ast_table(*ast_modules),
            forall|l: Seq<char>| #[trigger] locs.contains(l) ==> entry_matches_module(table0, idx[l]),
            module_table(*all_modules) == mark_clean(table0, idx, seen(locations@, i as int)),
        decreases locations.len() - i,
    {
        let location = locations[i];
        let ghost l = location@;
        let ghost before = module_table(*all_modules);
        proof {
            assert(locs.contains(l));
        }
        match ast_table_get(ast_modules, location) {
            Some(entry) => {
                let ghost name = entry.module_name@;
                proof {
                    assert(entry_matches_module(table0, *entry));
                    assert(before.contains_key(name));
                }
                match module_table_get_mut(all_modules, &entry.module_name) {
                    Some(module) => {
                        match &mut module.source_type {
                            SourceType::SourceFile(source_file) => {
                                if is_interface_ast_file(entry.ast_file_path.as_str()) {
                                    match &mut source_file.interface {
                                        Some(interface) => {
                                            if entry.last_modified > interface.last_modified {
                                                interface.dirty = false;
                                            }
                                        },
                                        None => {},
                                    }
                                } else {
                                    let implementation = &mut source_file.implementation;
                                    if entry.last_modified > implementation.last_modified {
                                        implementation.dirty = false;
                                    }
                                }
                            },
                            SourceType::MlMap(_) => {},
                        }
                    },
                    None => {},
                }
                proof {
                    assert(module_table(*all_modules) == before.insert(name, apply_ast(before[name], *entry)));
                    lemma_mark_step(table0, idx, seen(locations@, i as int), l);
                    assert(seen(locations@, i + 1) =~= seen(locations@, i as int).insert(l));
                }
            },
            None => {},
        }
        i = i + 1;
    }
    proof {
        assert(seen(locations@, locations@.len() as int) =~= locs);
    }
}


/// The sources in `locations` with the package their trees were made for.
fn stale_sources(ast_modules: &AHashMap<String, AstFile>, locations: &Vec<&String>, Ghost(locs): Ghost<Set<Seq<char>>>) -> (r: Vec<
    StaleSource,
>)
    requires
        lists_exactly(locations@, locs),
        locs.subset_of(ast_table(*ast_modules).dom()),
    ensures
        lists_stale(r@, locs, ast_table(*ast_modules)),
        r@.len() == locations@.len(),
{
    let ghost idx = ast_table(*ast_modules);
    let mut r: Vec<StaleSource> = Vec::new();
    let mut i: usize = 0;
    while i < locations.len()
        invariant
            i <= locations.len(),
            r@.len() == i,
            lists_exactly(locations@, locs),
            locs.subset_of(idx.dom()),
            idx == ast_table(*ast_modules),
            forall|j: int| 0 <= j < i ==> (#[trigger] r@[j]).source_file@ == locations@[j]@ && describes_stale(r@[j], idx),
        decreases locations.len() - i,
    {
        let location = locations[i];
        proof {
            assert(locs.contains(location@));
        }
        match ast_table_get(ast_modules, location) {
            Some(entry) => {
                r.push(
                    StaleSource {
                        source_file: location.clone(),
                        package_name: entry.package_name.clone(),
                        package_namespace: crate::types::copy_option_string(&entry.package_namespace),
                    },
                );
            },
            None => {
                proof {
                    assert(false);
                }
            },
        }
        i = i + 1;
    }
    proof {
        assert forall|l: Seq<char>| locs.contains(l) implies exists|i: int| 0 <= i < r@.len() && #[trigger] r@[i].source_file@ == l by {
            let j = choose|j: int| 0 <= j < locations@.len() && #[trigger] locations@[j]@ == l;
            assert(r@[j].source_file@ == l);
        }
        assert forall|a: int, b: int| 0 <= a < r@.len() && 0 <= b < r@.len() && a != b implies r@[a].source_file@ != r@[b].source_file@ by {
            assert(r@[a].source_file@ == locations@[a]@);
            assert(r@[b].source_file@ == locations@[b]@);
        }
    }
    r
}

/// A list of distinct strings is as long as the set it lists.
proof fn lemma_listed_len(v: Seq<&String>, s: Set<Seq<char>>)
    requires
        lists_exactly(v, s),
    ensures
        v.len() == s.len(),
{
    let views = v.map_values(|x: &String| x@);
    assert(views.no_duplicates()) by {
        assert forall|i: int, j: int| 0 <= i < views.len() && 0 <= j < views.len() && i != j implies views[i] != views[j] by {
            assert(views[i] == v[i]@);
            assert(views[j] == v[j]@);
        }
    }
    views.unique_seq_to_set();
    assert(views.to_set() =~= s) by {
        assert forall|x: Seq<char>| s.contains(x) implies views.to_set().contains(x) by {
            let i = choose|i: int| 0 <= i < v.len() && #[trigger] v[i]@ == x;
            assert(views[i] == x);
        }
        assert forall|x: Seq<char>| views.to_set().contains(x) implies s.contains(x) by {
            let i = choose|i: int| 0 <= i < views.len() && views[i] == x;
            assert(v[i]@ == x);
        }
    }
}

/// The name a deleted module marks as gone.
fn deleted_name(module_name: &String) -> (r: String)
    ensures
        r@ == spec_deleted_name(module_name@),
{
    match get_namespace_from_module_name(module_name.as_str()) {
        Some(namespace) => namespace,
        None => module_name.clone(),
    }
}

/// The names of trees whose module is gone, by namespace where there is one.
fn deleted_module_names(all_modules: &AHashMap<String, Module>, ast_modules: &AHashMap<String, AstFile>) -> (r: AHashSet<
    String,
>)
    ensures
        string_set(r) == deleted_names(module_table(*all_modules), ast_table(*ast_modules)),
{
    let ghost table = module_table(*all_modules);
    let ghost idx = ast_table(*ast_modules);
    let entries = ast_table_entries(ast_modules);
    let mut r = string_set_new();
    let mut i: usize = 0;
    while i < entries.len()
        invariant
            i <= entries.len(),
            crate::collections::lists_ast_files(entries@, idx),
            table == module_table(*all_modules),
            string_set(r) == Set::new(
                |x: Seq<char>|
                    exists|j: int|
                        0 <= j < i && !table.contains_key((#[trigger] entries@[j]).1.module_name@) && x == spec_deleted_name(
                            entries@[j].1.module_name@,
                        ),
            ),
        decreases entries.len() - i,
    {
        let entry = entries[i].1;
        let ghost before = string_set(r);
        let known = module_table_get(all_modules, &entry.module_name).is_some();
        if !known {
            string_set_insert(&mut r, deleted_name(&entry.module_name));
        }
        proof {
            assert(string_set(r) =~= Set::new(
                |x: Seq<char>|
                    exists|j: int|
                        0 <= j < i + 1 && !table.contains_key((#[trigger] entries@[j]).1.module_name@) && x == spec_deleted_name(
                            entries@[j].1.module_name@,
                        ),
            )) by {
                assert forall|x: Seq<char>| #[trigger] string_set(r).contains(x) implies exists|j: int|
                    0 <= j < i + 1 && !table.contains_key((#[trigger] entries@[j]).1.module_name@) && x == spec_deleted_name(
                        entries@[j].1.module_name@,
                    ) by {
                    if !before.contains(x) {
                        assert(entries@[i as int].1.module_name@ == entry.module_name@);
                    }
                }
            }
        }
        i = i + 1;
    }
    proof {
        assert(string_set(r) =~= deleted_names(table, idx)) by {
            assert forall|x: Seq<char>| deleted_names(table, idx).contains(x) implies string_set(r).contains(x) by {
                let l = choose|l: Seq<char>|
                    #![trigger idx[l]]
                    idx.contains_key(l) && !table.contains_key(idx[l].module_name@) && x == spec_deleted_name(idx[l].module_name@);
                let j = choose|j: int| 0 <= j < entries@.len() && #[trigger] entries@[j].0@ == l;
                assert(*entries@[j].1 == idx[l]);
            }
            assert forall|x: Seq<char>| string_set(r).contains(x) implies deleted_names(table, idx).contains(x) by {
                let j = choose|j: int|
                    0 <= j < entries@.len() && !table.contains_key((#[trigger] entries@[j]).1.module_name@) && x == spec_deleted_name(
                        entries@[j].1.module_name@,
                    );
                let l = entries@[j].0@;
                assert(idx.contains_key(l));
                assert(idx[l] == *entries@[j].1);
            }
        }
    }
    r
}


/// Reconciles the modules of a build with the abstract syntax tree files a
/// scan of the packages' build directories found (`ast_files`, in the order
/// found).
///
/// The trees are indexed by the source file each was made from (a later one
/// replaces an earlier one). A tree whose source no longer exists is stale:
/// its source is returned, with the package its tree names, so that its
/// assets can be removed (`stale_source_assets`). A tree whose source
/// exists marks that half of its module clean when it is newer than the
/// source. The result is the number of stale sources, the number of sources
/// that have a tree, the names of modules that are gone (by namespace where
/// there is one), and the stale sources.
pub fn cleanup_previous_build(all_modules: &mut AHashMap<String, Module>, ast_files: &Vec<AstFile>) -> (r: (
    usize,
    usize,
    AHashSet<String>,
    Vec<StaleSource>,
))
    requires
        ast_files_consistent(module_table(*old(all_modules)), ast_files@),
    ensures
        module_table(*final(all_modules)) == mark_clean(
            module_table(*old(all_modules)),
            ast_index(ast_files@),
            ast_index(ast_files@).dom().intersect(rescript_locations(module_table(*old(all_modules)))),
        ),
        lists_stale(
            r.3@,
            ast_index(ast_files@).dom().difference(rescript_locations(module_table(*old(all_modules)))),
            ast_index(ast_files@),
        ),
        r.0 == ast_index(ast_files@).dom().difference(rescript_locations(module_table(*old(all_modules)))).len(),
        r.1 == ast_index(ast_files@).dom().len(),
        string_set(r.2) == deleted_names(module_table(*old(all_modules)), ast_index(ast_files@)),
        forall|k: Seq<char>|
            #![trigger module_table(*final(all_modules))[k]]
            module_table(*old(all_modules)).contains_key(k) && module_table(*old(all_modules))[k].source_type is SourceFile ==> {
                &&& module_table(*final(all_modules)).contains_key(k)
                &&& module_table(*final(all_modules))[k].source_type is SourceFile
                &&& (!module_table(*final(all_modules))[k].source_type->SourceFile_0.implementation.dirty ==> !module_table(*old(all_modules))[k].source_type->SourceFile_0.implementation.dirty
                    || exists|j: int|
                    0 <= j < ast_files@.len() && #[trigger] ast_files@[j].module_name@ == k && !(ast_files@[j].ast_file_path@.len() >= 5 && ast_files@[j].ast_file_path@.subrange(ast_files@[j].ast_file_path@.len() - 5, ast_files@[j].ast_file_path@.len() as int) == seq!['.', 'i', 'a', 's', 't'])
                        && ast_files@[j].last_modified > module_table(*old(all_modules))[k].source_type->SourceFile_0.implementation.last_modified)
                &&& (module_table(*final(all_modules))[k].source_type->SourceFile_0.interface is Some ==> module_table(*old(all_modules))[k].source_type->SourceFile_0.interface is Some)
                &&& (module_table(*final(all_modules))[k].source_type->SourceFile_0.interface matches Some(after) && !after.dirty
                    ==> !module_table(*old(all_modules))[k].source_type->SourceFile_0.interface->0.dirty || exists|j: int|
                    0 <= j < ast_files@.len() && #[trigger] ast_files@[j].module_name@ == k && (ast_files@[j].ast_file_path@.len() >= 5 && ast_files@[j].ast_file_path@.subrange(ast_files@[j].ast_file_path@.len() - 5, ast_files@[j].ast_file_path@.len() as int) == seq!['.', 'i', 'a', 's', 't'])
                        && ast_files@[j].last_modified > module_table(*old(all_modules))[k].source_type->SourceFile_0.interface->0.last_modified)
            },
{
    let ghost table0 = module_table(*all_modules);
    let ghost idx = ast_index(ast_files@);
    let source_locations = rescript_file_locations(all_modules);
    let (ast_modules, ast_rescript_file_locations) = index_ast_files(ast_files);

    let diff = string_set_difference(&ast_rescript_file_locations, &source_locations);
    let diff_len = diff.len();
    proof {
        lemma_listed_len(diff@, idx.dom().difference(rescript_locations(table0)));
    }
    let stale = stale_sources(&ast_modules, &diff, Ghost(idx.dom().difference(rescript_locations(table0))));

    let common = string_set_intersection(&ast_rescript_file_locations, &source_locations);
    proof {
        let locs = idx.dom().intersect(rescript_locations(table0));
        assert forall|l: Seq<char>| #[trigger] locs.contains(l) implies entry_matches_module(table0, idx[l]) by {
            assert(ast_index(ast_files@).contains_key(l) && rescript_locations(table0).contains(l));
        }
    }
    mark_refreshed_modules(all_modules, &ast_modules, &common, Ghost(idx.dom().intersect(rescript_locations(table0))));

    let deleted = deleted_module_names(all_modules, &ast_modules);
    proof {
        assert(module_table(*all_modules).dom() =~= table0.dom());
        assert(deleted_names(module_table(*all_modules), idx) =~= deleted_names(table0, idx));
    }
    let ast_count = string_set_len(&ast_rescript_file_locations);
    proof {
        lemma_clean_only_by_newer_tree_of_same_kind(table0, ast_files@, idx.dom().intersect(rescript_locations(table0)));
    }
    (diff_len, ast_count, deleted, stale)
}


/// Whether a tree matches its module as `entry_matches_module` says.
fn entry_matches(all_modules: &AHashMap<String, Module>, entry: &AstFile) -> (r: bool)
    ensures
        r == entry_matches_module(module_table(*all_modules), *entry),
{
    match module_table_get(all_modules, &entry.module_name) {
        Some(module) => match &module.source_type {
            SourceType::SourceFile(source_file) => !is_interface_ast_file(entry.ast_file_path.as_str())
                || source_file.interface.is_some(),
            SourceType::MlMap(_) => false,
        },
        None => false,
    }
}

/// Whether every tree found for a source file that still exists matches its
/// module, which `cleanup_previous_build` needs.
pub fn ast_files_match_modules(all_modules: &AHashMap<String, Module>, ast_files: &Vec<AstFile>) -> (r: bool)
    ensures
        r == ast_files_consistent(module_table(*all_modules), ast_files@),
{
    let ghost table = module_table(*all_modules);
    let ghost idx = ast_index(ast_files@);
    let source_locations = rescript_file_locations(all_modules);
    let (ast_modules, ast_locations) = index_ast_files(ast_files);
    let common = string_set_intersection(&ast_locations, &source_locations);
    let ghost locs = idx.dom().intersect(rescript_locations(table));
    let mut i: usize = 0;
    while i < common.len()
        invariant
            i <= common.len(),
            lists_exactly(common@, locs),
            locs == idx.dom().intersect(rescript_locations(table)),
            idx == ast_index(ast_files@),
            idx == ast_table(ast_modules),
            table == module_table(*all_modules),
            forall|j: int| 0 <= j < i ==> entry_matches_module(table, idx[#[trigger] common@[j]@]),
        decreases common.len() - i,
    {
        let location = common[i];
        proof {
            assert(locs.contains(location@));
        }
        match ast_table_get(&ast_modules, location) {
            Some(entry) => {
                if !entry_matches(all_modules, entry) {
                    proof {
                        assert(idx.contains_key(location@) && rescript_locations(table).contains(location@));
                    }
                    return false;
                }
            },
            None => {
                proof {
                    assert(false);
                }
            },
        }
        i = i + 1;
    }
    proof {
        assert forall|loc: Seq<char>|
            idx.contains_key(loc) && rescript_locations(table).contains(loc) implies entry_matches_module(table, idx[loc]) by {
            assert(locs.contains(loc));
            let j = choose|j: int| 0 <= j < common@.len() && #[trigger] common@[j]@ == loc;
            assert(entry_matches_module(table, idx[common@[j]@]));
        }
    }
    true
}

/// `cleanup_previous_build` where its inputs match, `None` where a tree
/// names a module that is missing, is no source file, or lacks the
/// interface the tree is of (nothing is changed then).
pub fn try_cleanup_previous_build(all_modules: &mut AHashMap<String, Module>, ast_files: &Vec<AstFile>) -> (r: Option<(
    usize,
    usize,
    AHashSet<String>,
    Vec<StaleSource>,
)>)
    ensures
        r is Some == ast_files_consistent(module_table(*old(all_modules)), ast_files@),
        r is None ==> module_table(*final(all_modules)) == module_table(*old(all_modules)),
        r matches Some(v) ==> {
            &&& module_table(*final(all_modules)) == mark_clean(
                module_table(*old(all_modules)),
                ast_index(ast_files@),
                ast_index(ast_files@).dom().intersect(rescript_locations(module_table(*old(all_modules)))),
            )
            &&& lists_stale(
                v.3@,
                ast_index(ast_files@).dom().difference(rescript_locations(module_table(*old(all_modules)))),
                ast_index(ast_files@),
            )
            &&& v.0 == ast_index(ast_files@).dom().difference(rescript_locations(module_table(*old(all_modules)))).len()
            &&& v.1 == ast_index(ast_files@).dom().len()
            &&& string_set(v.2) == deleted_names(module_table(*old(all_modules)), ast_index(ast_files@))
        },
        forall|k: Seq<char>|
            #![trigger module_table(*final(all_modules))[k]]
            module_table(*old(all_modules)).contains_key(k) && module_table(*old(all_modules))[k].source_type is SourceFile ==> {
                &&& module_table(*final(all_modules)).contains_key(k)
                &&& module_table(*final(all_modules))[k].source_type is SourceFile
                &&& (!module_table(*final(all_modules))[k].source_type->SourceFile_0.implementation.dirty ==> !module_table(*old(all_modules))[k].source_type->SourceFile_0.implementation.dirty
                    || exists|j: int|
                    0 <= j < ast_files@.len() && #[trigger] ast_files@[j].module_name@ == k && !(ast_files@[j].ast_file_path@.len() >= 5 && ast_files@[j].ast_file_path@.subrange(ast_files@[j].ast_file_path@.len() - 5, ast_files@[j].ast_file_path@.len() as int) == seq!['.', 'i', 'a', 's', 't'])
                        && ast_files@[j].last_modified > module_table(*old(all_modules))[k].source_type->SourceFile_0.implementation.last_modified)
                &&& (module_table(*final(all_modules))[k].source_type->SourceFile_0.interface is Some ==> module_table(*old(all_modules))[k].source_type->SourceFile_0.interface is Some)
                &&& (module_table(*final(all_modules))[k].source_type->SourceFile_0.interface matches Some(after) && !after.dirty
                    ==> !module_table(*old(all_modules))[k].source_type->SourceFile_0.interface->0.dirty || exists|j: int|
                    0 <= j < ast_files@.len() && #[trigger] ast_files@[j].module_name@ == k && (ast_files@[j].ast_file_path@.len() >= 5 && ast_files@[j].ast_file_path@.subrange(ast_files@[j].ast_file_path@.len() - 5, ast_files@[j].ast_file_path@.len() as int) == seq!['.', 'i', 'a', 's', 't'])
                        && ast_files@[j].last_modified > module_table(*old(all_modules))[k].source_type->SourceFile_0.interface->0.last_modified)
            },
{
    if ast_files_match_modules(all_modules, ast_files) {
        Some(cleanup_previous_build(all_modules, ast_files))
    } else {
        None
    }
}


/// After a build, a module counts as failed when it did not compile cleanly,
/// or when it is one of `all` that is missing from `compiled`.
pub open spec fn failed_after_build(name: Seq<char>, m: Module, compiled: Set<Seq<char>>, all: Set<Seq<char>>) -> bool {
    spec_failed_to_compile(m) || (all.contains(name) && !compiled.contains(name))
}

/// `s` is the implementation of source-file module `m`, with its package.
pub open spec fn is_implementation_of(s: StaleSource, m: Module) -> bool {
    &&& m.source_type is SourceFile
    &&& s.source_file == m.source_type->SourceFile_0.implementation.path
    &&& s.package_name == m.package.name
    &&& s.package_namespace == m.package.namespace
}

/// The list names, once each, every source-file module that failed, with its
/// implementation.
pub open spec fn lists_failed(
    v: Seq<(String, StaleSource)>,
    table: Map<Seq<char>, Module>,
    compiled: Set<Seq<char>>,
    all: Set<Seq<char>>,
) -> bool {
    &&& forall|i: int, j: int| 0 <= i < v.len() && 0 <= j < v.len() && i != j ==> v[i].0@ != v[j].0@
    &&& forall|i: int|
        #![trigger v[i]]
        0 <= i < v.len() ==> {
            &&& table.contains_key(v[i].0@)
            &&& failed_after_build(v[i].0@, table[v[i].0@], compiled, all)
            &&& is_implementation_of(v[i].1, table[v[i].0@])
        }
    &&& forall|k: Seq<char>|
        table.contains_key(k) && failed_after_build(k, table[k], compiled, all) && table[k].source_type is SourceFile
            ==> exists|i: int| 0 <= i < v.len() && #[trigger] v[i].0@ == k
}

/// The modules whose abstract syntax trees must go after a build: every
/// source-file module of `modules` that failed (see `failed_after_build`),
/// with its implementation, whose trees `asts_to_remove` lists. Only a tree
/// of a module that compiled is kept, since a tree is taken as a sign that
/// its module compiled.
pub fn cleanup_after_build(
    modules: &AHashMap<String, Module>,
    compiled_modules: &AHashSet<String>,
    all_modules: &AHashSet<String>,
) -> (r: Vec<(String, StaleSource)>)
    ensures
        lists_failed(r@, module_table(*modules), string_set(*compiled_modules), string_set(*all_modules)),
        forall|k: Seq<char>|
            #![trigger module_table(*modules)[k]]
            module_table(*modules).contains_key(k) && module_table(*modules)[k].source_type is SourceFile && ((match module_table(*modules)[k].source_type {
            SourceType::SourceFile(sf) => {
                ||| sf.implementation.compile_state is Error
                ||| sf.implementation.compile_state is Warning
                ||| sf.implementation.parse_state is ParseError
                ||| sf.implementation.parse_state is Warning
                ||| (sf.interface matches Some(itf) && (itf.compile_state is Error || itf.compile_state is Warning
                    || itf.parse_state is ParseError || itf.parse_state is Warning))
            },
            SourceType::MlMap(_) => false,
        })
                || (string_set(*all_modules).contains(k) && !string_set(*compiled_modules).contains(k)))
                ==> exists|i: int| 0 <= i < r@.len() && #[trigger] r@[i].0@ == k,
        forall|i: int|
            #![trigger r@[i]]
            0 <= i < r@.len() ==> module_table(*modules).contains_key(r@[i].0@) && ((match module_table(*modules)[r@[i].0@].source_type {
            SourceType::SourceFile(sf) => {
                ||| sf.implementation.compile_state is Error
                ||| sf.implementation.compile_state is Warning
                ||| sf.implementation.parse_state is ParseError
                ||| sf.implementation.parse_state is Warning
                ||| (sf.interface matches Some(itf) && (itf.compile_state is Error || itf.compile_state is Warning
                    || itf.parse_state is ParseError || itf.parse_state is Warning))
            },
            SourceType::MlMap(_) => false,
        })
                || (string_set(*all_modules).contains(r@[i].0@) && !string_set(*compiled_modules).contains(r@[i].0@))),
{
    let ghost table = module_table(*modules);
    let ghost compiled = string_set(*compiled_modules);
    let ghost all = string_set(*all_modules);
    let missing = string_set_difference(all_modules, compiled_modules);
    let mut failed_modules = string_set_new();
    let mut i: usize = 0;
    while i < missing.len()
        invariant
            i <= missing.len(),
            lists_exactly(missing@, all.difference(compiled)),
            string_set(failed_modules) == seen(missing@, i as int),
        decreases missing.len() - i,
    {
        string_set_insert(&mut failed_modules, missing[i].clone());
        proof {
            assert(string_set(failed_modules) =~= seen(missing@, i + 1));
        }
        i = i + 1;
    }
    proof {
        assert(string_set(failed_modules) =~= all.difference(compiled));
    }
    let entries = module_table_entries(modules);
    let mut r: Vec<(String, StaleSource)> = Vec::new();
    let mut j: usize = 0;
    while j < entries.len()
        invariant
            j <= entries.len(),
            crate::collections::lists_modules(entries@, table),
            string_set(failed_modules) == all.difference(compiled),
            forall|a: int, b: int| 0 <= a < r@.len() && 0 <= b < r@.len() && a != b ==> r@[a].0@ != r@[b].0@,
            forall|a: int|
                #![trigger r@[a]]
                0 <= a < r@.len() ==> {
                    &&& table.contains_key(r@[a].0@)
                    &&& failed_after_build(r@[a].0@, table[r@[a].0@], compiled, all)
                    &&& is_implementation_of(r@[a].1, table[r@[a].0@])
                    &&& exists|b: int| 0 <= b < j && #[trigger] entries@[b].0@ == r@[a].0@
                },
            forall|b: int|
                #![trigger entries@[b]]
                0 <= b < j && failed_after_build(entries@[b].0@, *entries@[b].1, compiled, all)
                    && entries@[b].1.source_type is SourceFile ==> exists|a: int| 0 <= a < r@.len() && #[trigger] r@[a].0@
                    == entries@[b].0@,
        decreases entries.len() - j,
    {
        let (module_name, module) = entries[j];
        let ghost old_r = r@;
        if failed_to_compile(module) || string_set_contains(&failed_modules, module_name) {
            match &module.source_type {
                SourceType::SourceFile(source_file) => {
                    let ghost before = r@;
                    r.push(
                        (
                            module_name.clone(),
                            StaleSource {
                                source_file: source_file.implementation.path.clone(),
                                package_name: module.package.name.clone(),
                                package_namespace: crate::types::copy_option_string(&module.package.namespace),
                            },
                        ),
                    );
                    proof {
                        assert forall|a: int| 0 <= a < before.len() implies before[a].0@ != module_name@ by {
                            let b = choose|b: int| 0 <= b < j && #[trigger] entries@[b].0@ == before[a].0@;
                            assert(r@[a] == before[a]);
                        }
                        assert(r@[r@.len() - 1].0@ == entries@[j as int].0@);
                    }
                },
                SourceType::MlMap(_) => {},
            }
        }
        proof {
            assert forall|b: int|
                #![trigger entries@[b]]
                0 <= b < j + 1 && failed_after_build(entries@[b].0@, *entries@[b].1, compiled, all)
                    && entries@[b].1.source_type is SourceFile implies exists|a: int| 0 <= a < r@.len() && #[trigger] r@[a].0@
                    == entries@[b].0@ by {
                if b < j {
                    let a = choose|a: int| 0 <= a < old_r.len() && #[trigger] old_r[a].0@ == entries@[b].0@;
                    assert(r@[a] == old_r[a]);
                } else {
                    assert(r@[r@.len() - 1].0@ == entries@[b].0@);
                }
            }
        }
        j = j + 1;
    }
    proof {
        assert forall|k: Seq<char>|
            table.contains_key(k) && failed_after_build(k, table[k], compiled, all) && table[k].source_type is SourceFile
                implies exists|i: int| 0 <= i < r@.len() && #[trigger] r@[i].0@ == k by {
            let b = choose|b: int| 0 <= b < entries@.len() && #[trigger] entries@[b].0@ == k;
            assert(*entries@[b].1 == table[k]);
        }
    }
    r
}


/// `new` is `old` with, at most, dirty flags cleared: the package, the kind
/// of module, its paths, parse and compile states and modification times
/// are the same, and a half that is dirty in `new` was dirty in `old`.
pub open spec fn only_cleans(old: Module, new: Module) -> bool {
    &&& new.package == old.package
    &&& match (old.source_type, new.source_type) {
        (SourceType::SourceFile(a), SourceType::SourceFile(b)) => {
            &&& b.implementation == Implementation { dirty: b.implementation.dirty, ..a.implementation }
            &&& (b.implementation.dirty ==> a.implementation.dirty)
            &&& match (a.interface, b.interface) {
                (Some(i), Some(j)) => j == Interface { dirty: j.dirty, ..i } && (j.dirty ==> i.dirty),
                (None, None) => true,
                _ => false,
            }
        },
        (SourceType::MlMap(a), SourceType::MlMap(b)) => a == b,
        _ => false,
    }
}

/// Reconciling with abstract syntax trees keeps every module and only ever
/// clears dirty flags: it never makes a module dirty, and never changes
/// anything else about it.
pub proof fn lemma_cleaning_only_clears_dirty(
    table: Map<Seq<char>, Module>,
    idx: Map<Seq<char>, AstFile>,
    locs: Set<Seq<char>>,
)
    ensures
        mark_clean(table, idx, locs).dom() == table.dom(),
        forall|k: Seq<char>| #[trigger] table.contains_key(k) ==> only_cleans(table[k], mark_clean(table, idx, locs)[k]),
{
    assert(mark_clean(table, idx, locs).dom() =~= table.dom());
}

/// A half of a module stays dirty only when it was dirty and no tree of it
/// under `locs` is newer; a tree newer than it makes it clean.
pub proof fn lemma_newer_tree_cleans(
    table: Map<Seq<char>, Module>,
    idx: Map<Seq<char>, AstFile>,
    locs: Set<Seq<char>>,
    loc: Seq<char>,
)
    requires
        locs.contains(loc),
        idx.contains_key(loc),
        table.contains_key(idx[loc].module_name@),
        table[idx[loc].module_name@].source_type is SourceFile,
    ensures
        ({
            let name = idx[loc].module_name@;
            let sf = table[name].source_type->SourceFile_0;
            let after = mark_clean(table, idx, locs)[name].source_type->SourceFile_0;
            &&& !spec_is_interface_ast_file(idx[loc].ast_file_path@) && idx[loc].last_modified > sf.implementation.last_modified
                ==> !after.implementation.dirty
            &&& spec_is_interface_ast_file(idx[loc].ast_file_path@) && sf.interface is Some && idx[loc].last_modified
                > sf.interface->0.last_modified ==> !after.interface->0.dirty
        }),
{
    let name = idx[loc].module_name@;
    let sf = table[name].source_type->SourceFile_0;
    if !spec_is_interface_ast_file(idx[loc].ast_file_path@) && idx[loc].last_modified > sf.implementation.last_modified {
        assert(refreshes(idx[loc], name, false, sf.implementation.last_modified));
    }
    if spec_is_interface_ast_file(idx[loc].ast_file_path@) && sf.interface is Some && idx[loc].last_modified
        > sf.interface->0.last_modified {
        assert(refreshes(idx[loc], name, true, sf.interface->0.last_modified));
    }
}

/// Reconciling a second time with the same trees changes nothing: the
/// source files are still the same, the trees still match the modules, and
/// the flags come out as the first time left them.
pub proof fn lemma_cleaning_idempotent(table: Map<Seq<char>, Module>, files: Seq<AstFile>)
    requires
        ast_files_consistent(table, files),
    ensures
        ({
            let idx = ast_index(files);
            let once = mark_clean(table, idx, idx.dom().intersect(rescript_locations(table)));
            &&& rescript_locations(once) == rescript_locations(table)
            &&& ast_files_consistent(once, files)
            &&& mark_clean(once, idx, idx.dom().intersect(rescript_locations(once))) == once
        }),
{
    let idx = ast_index(files);
    let locs = idx.dom().intersect(rescript_locations(table));
    let once = mark_clean(table, idx, locs);
    assert forall|k: Seq<char>| #[trigger] once.contains_key(k) implies source_paths(once[k]) == source_paths(table[k]) by {
        match table[k].source_type {
            SourceType::SourceFile(sf) => {
                match sf.interface {
                    Some(i) => {},
                    None => {},
                }
            },
            SourceType::MlMap(_) => {},
        }
    }
    assert(rescript_locations(once) =~= rescript_locations(table)) by {
        assert forall|p: Seq<char>| rescript_locations(table).contains(p) implies rescript_locations(once).contains(p) by {
            let k = choose|k: Seq<char>| table.contains_key(k) && #[trigger] source_paths(table[k]).contains(p);
            assert(once.contains_key(k));
            assert(source_paths(once[k]).contains(p));
        }
        assert forall|p: Seq<char>| rescript_locations(once).contains(p) implies rescript_locations(table).contains(p) by {
            let k = choose|k: Seq<char>| once.contains_key(k) && #[trigger] source_paths(once[k]).contains(p);
            assert(source_paths(table[k]).contains(p));
        }
    }
    assert forall|loc: Seq<char>|
        #![trigger ast_index(files).contains_key(loc), rescript_locations(once).contains(loc)]
        ast_index(files).contains_key(loc) && rescript_locations(once).contains(loc)
            implies entry_matches_module(once, ast_index(files)[loc]) by {
        assert(rescript_locations(table).contains(loc));
        assert(entry_matches_module(table, ast_index(files)[loc]));
    }
    assert(mark_clean(once, idx, locs) =~= once) by {
        assert forall|k: Seq<char>| #[trigger] once.contains_key(k) implies mark_clean(once, idx, locs)[k] == once[k] by {
            match table[k].source_type {
                SourceType::SourceFile(sf) => {
                    match sf.interface {
                        Some(i) => {},
                        None => {},
                    }
                },
                SourceType::MlMap(_) => {},
            }
        }
    }
}

/// The index of a scan is finite.
proof fn lemma_ast_index_finite(files: Seq<AstFile>)
    ensures
        ast_index(files).dom().finite(),
    decreases files.len(),
{
    if files.len() > 0 {
        lemma_ast_index_finite(files.drop_last());
    }
}

/// Every source that has a tree is either stale or still exists, never both:
/// the stale ones and the ones looked at add up to all of them.
pub proof fn lemma_stale_and_refreshed_partition(table: Map<Seq<char>, Module>, files: Seq<AstFile>)
    ensures
        ({
            let dom = ast_index(files).dom();
            let res = rescript_locations(table);
            &&& dom.difference(res).disjoint(dom.intersect(res))
            &&& dom.difference(res).len() + dom.intersect(res).len() == dom.len()
        }),
{
    let dom = ast_index(files).dom();
    let res = rescript_locations(table);
    broadcast use vstd::set::group_set_axioms;

    lemma_ast_index_finite(files);
    assert(dom.difference(res).disjoint(dom.intersect(res)));
    vstd::set_lib::lemma_set_disjoint_lens(dom.difference(res), dom.intersect(res));
    assert(dom.difference(res) + dom.intersect(res) =~= dom);
}

/// A namespace map never counts as failed; a warning, like an error, does.
pub proof fn lemma_failure_kinds(m: Module)
    ensures
        m.source_type is MlMap ==> !spec_failed_to_compile(m),
        m.source_type matches SourceType::SourceFile(sf) && (sf.implementation.compile_state is Warning
            || sf.implementation.parse_state is Warning) ==> spec_failed_to_compile(m),
{
}

/// A module listed after a build is never one that compiled cleanly and was
/// compiled (or was not expected to be): those keep their trees.
pub proof fn lemma_compiled_modules_keep_trees(
    v: Seq<(String, StaleSource)>,
    table: Map<Seq<char>, Module>,
    compiled: Set<Seq<char>>,
    all: Set<Seq<char>>,
    i: int,
)
    requires
        lists_failed(v, table, compiled, all),
        0 <= i < v.len(),
    ensures
        !(!spec_failed_to_compile(table[v[i].0@]) && (compiled.contains(v[i].0@) || !all.contains(v[i].0@))),
{
    assert(failed_after_build(v[i].0@, table[v[i].0@], compiled, all));
}


/// A second reconciliation finds nothing stale. After a first one, the
/// stale sources' trees are removed, so a rescan (`second`) finds at most
/// the trees of sources that still exist, as the first scan found them. On
/// the modules the first call left: the trees still match their modules,
/// no source is stale (so the stale list is empty and nothing is removed),
/// the number of sources with a tree is at most the first call's count less
/// its stale count, and no module name is marked deleted.
pub proof fn lemma_second_cleanup_finds_nothing_stale(table: Map<Seq<char>, Module>, first: Seq<AstFile>, second: Seq<AstFile>)
    requires
        ast_files_consistent(table, first),
        forall|l: Seq<char>| #[trigger] ast_index(second).contains_key(l) ==> {
            &&& ast_index(first).contains_key(l)
            &&& rescript_locations(table).contains(l)
            &&& ast_index(second)[l] == ast_index(first)[l]
        },
    ensures
        ({
            let idx1 = ast_index(first);
            let idx2 = ast_index(second);
            let once = mark_clean(table, idx1, idx1.dom().intersect(rescript_locations(table)));
            &&& ast_files_consistent(once, second)
            &&& idx2.dom().difference(rescript_locations(once)) == Set::<Seq<char>>::empty()
            &&& idx2.dom().difference(rescript_locations(once)).len() == 0
            &&& forall|v: Seq<StaleSource>| lists_stale(v, idx2.dom().difference(rescript_locations(once)), idx2) ==> v.len() == 0
            &&& idx2.dom().len() <= idx1.dom().len() - idx1.dom().difference(rescript_locations(table)).len()
            &&& deleted_names(once, idx2) == Set::<Seq<char>>::empty()
        }),
{
    broadcast use vstd::set::group_set_axioms;

    let idx1 = ast_index(first);
    let idx2 = ast_index(second);
    let res = rescript_locations(table);
    let once = mark_clean(table, idx1, idx1.dom().intersect(res));
    lemma_cleaning_idempotent(table, first);
    lemma_cleaning_only_clears_dirty(table, idx1, idx1.dom().intersect(res));
    assert(idx2.dom().difference(rescript_locations(once)) =~= Set::<Seq<char>>::empty());
    assert forall|v: Seq<StaleSource>| lists_stale(v, idx2.dom().difference(rescript_locations(once)), idx2) implies v.len() == 0 by {
        if v.len() > 0 {
            assert(idx2.dom().difference(rescript_locations(once)).contains(v[0].source_file@));
        }
    }
    assert forall|loc: Seq<char>|
        #![trigger ast_index(second).contains_key(loc), rescript_locations(once).contains(loc)]
        ast_index(second).contains_key(loc) && rescript_locations(once).contains(loc)
            implies entry_matches_module(once, ast_index(second)[loc]) by {
        assert(ast_index(first).contains_key(loc) && rescript_locations(table).contains(loc));
        assert(entry_matches_module(table, ast_index(first)[loc]));
        let name = idx1[loc].module_name@;
        assert(once.contains_key(name));
        assert(only_cleans(table[name], once[name]));
    }
    assert(deleted_names(once, idx2) =~= Set::<Seq<char>>::empty()) by {
        assert forall|x: Seq<char>| !deleted_names(once, idx2).contains(x) by {
            if deleted_names(once, idx2).contains(x) {
                let l = choose|l: Seq<char>|
                    #![trigger idx2[l]]
                    idx2.contains_key(l) && !once.contains_key(idx2[l].module_name@) && x == spec_deleted_name(idx2[l].module_name@);
                assert(idx1.contains_key(l) && res.contains(l));
                assert(entry_matches_module(table, idx1[l]));
            }
        }
    }
    lemma_ast_index_finite(first);
    assert(idx2.dom().subset_of(idx1.dom().intersect(res)));
    vstd::set_lib::lemma_len_subset(idx2.dom(), idx1.dom().intersect(res));
    lemma_stale_and_refreshed_partition(table, first);
}


/// Every asset listed for a source, whether its trees, its compiled output
/// or everything removed when it is stale, belongs to that source: it names
/// the source's file, its package and its package's namespace (so that a
/// namespaced module's outputs are found under their namespaced names).
pub proof fn lemma_assets_belong_to_their_source(source: StaleSource)
    ensures
        forall|i: int|
            #![trigger spec_asts_to_remove(source)[i]]
            0 <= i < spec_asts_to_remove(source).len() ==> spec_asts_to_remove(source)[i].source_file == source.source_file@
                && spec_asts_to_remove(source)[i].package_name == source.package_name@
                && spec_asts_to_remove(source)[i].package_namespace == source.package_namespace.deep_view(),
        forall|i: int|
            #![trigger spec_compile_assets_to_remove(source)[i]]
            0 <= i < spec_compile_assets_to_remove(source).len() ==> spec_compile_assets_to_remove(source)[i].source_file
                == source.source_file@ && spec_compile_assets_to_remove(source)[i].package_name == source.package_name@
                && spec_compile_assets_to_remove(source)[i].package_namespace == source.package_namespace.deep_view(),
        forall|i: int|
            #![trigger spec_stale_source_assets(source)[i]]
            0 <= i < spec_stale_source_assets(source).len() ==> spec_stale_source_assets(source)[i].source_file
                == source.source_file@ && spec_stale_source_assets(source)[i].package_name == source.package_name@
                && spec_stale_source_assets(source)[i].package_namespace == source.package_namespace.deep_view(),
{
    let a = spec_asts_to_remove(source);
    let c = spec_compile_assets_to_remove(source);
    let all = spec_stale_source_assets(source);
    assert forall|i: int| #![trigger all[i]] 0 <= i < all.len() implies all[i].source_file == source.source_file@
        && all[i].package_name == source.package_name@ && all[i].package_namespace == source.package_namespace.deep_view() by {
        if i == 0 {
        } else if i < 3 {
            assert(all[i] == a[i - 1]);
        } else {
            assert(all[i] == c[i - 3]);
        }
    }
}


/// The list holds an asset with this extension at this location.
pub open spec fn lists_asset(v: Seq<AssetView>, extension: Seq<char>, location: AssetLocation) -> bool {
    exists|i: int| 0 <= i < v.len() && #[trigger] v[i].extension == extension && v[i].location == location
}

/// Nothing a source file left behind is missed: its trees (`.ast` and
/// `.iast`) in the build directory, its `.mjs` beside it, and each compiled
/// output (`.cmj`, `.cmi`, `.cmt`, `.cmti`) in both the build directory and
/// the `bs` build directory.
pub proof fn lemma_every_output_listed(source: StaleSource)
    ensures
        lists_asset(spec_asts_to_remove(source), seq!['a', 's', 't'], AssetLocation::Build),
        lists_asset(spec_asts_to_remove(source), seq!['i', 'a', 's', 't'], AssetLocation::Build),
        lists_asset(spec_compile_assets_to_remove(source), seq!['m', 'j', 's'], AssetLocation::SourceDir),
        forall|extension: Seq<char>, location: AssetLocation|
            (extension == seq!['c', 'm', 'j'] || extension == seq!['c', 'm', 'i'] || extension == seq!['c', 'm', 't']
                || extension == seq!['c', 'm', 't', 'i']) && (location is Build || location is BsBuild)
                ==> #[trigger] lists_asset(spec_compile_assets_to_remove(source), extension, location),
        forall|extension: Seq<char>, location: AssetLocation|
            #[trigger] lists_asset(spec_compile_assets_to_remove(source), extension, location)
                ==> lists_asset(spec_stale_source_assets(source), extension, location),
        forall|extension: Seq<char>, location: AssetLocation|
            #[trigger] lists_asset(spec_asts_to_remove(source), extension, location)
                ==> lists_asset(spec_stale_source_assets(source), extension, location),
{
    let a = spec_asts_to_remove(source);
    let c = spec_compile_assets_to_remove(source);
    let all = spec_stale_source_assets(source);
    assert(a[0].extension == seq!['a', 's', 't'] && a[0].location == AssetLocation::Build);
    assert(a[1].extension == seq!['i', 'a', 's', 't'] && a[1].location == AssetLocation::Build);
    assert(c[0].extension == seq!['m', 'j', 's'] && c[0].location == AssetLocation::SourceDir);
    assert forall|extension: Seq<char>, location: AssetLocation|
        (extension == seq!['c', 'm', 'j'] || extension == seq!['c', 'm', 'i'] || extension == seq!['c', 'm', 't']
            || extension == seq!['c', 'm', 't', 'i']) && (location is Build || location is BsBuild)
            implies #[trigger] lists_asset(c, extension, location) by {
        let k: int = if extension == seq!['c', 'm', 'j'] {
            1
        } else if extension == seq!['c', 'm', 'i'] {
            3
        } else if extension == seq!['c', 'm', 't'] {
            5
        } else {
            7
        };
        let i: int = if location is Build { k } else { k + 1 };
        assert(c[i].extension == extension && c[i].location == location);
    }
    assert forall|extension: Seq<char>, location: AssetLocation|
        #[trigger] lists_asset(c, extension, location) implies lists_asset(all, extension, location) by {
        let i = choose|i: int| 0 <= i < c.len() && #[trigger] c[i].extension == extension && c[i].location == location;
        assert(all[i + 3] == c[i]);
    }
    assert forall|extension: Seq<char>, location: AssetLocation|
        #[trigger] lists_asset(a, extension, location) implies lists_asset(all, extension, location) by {
        let i = choose|i: int| 0 <= i < a.len() && #[trigger] a[i].extension == extension && a[i].location == location;
        assert(all[i + 1] == a[i]);
    }
}

/// A source file whose interface did not compile cleanly (an error or a
/// warning) has failed, whatever its implementation did; so does one whose
/// implementation did not compile or parse cleanly.
pub proof fn lemma_either_half_fails_the_module(m: Module)
    ensures
        m.source_type matches SourceType::SourceFile(sf) && sf.interface matches Some(i) && (i.compile_state is Error
            || i.compile_state is Warning || i.parse_state is ParseError || i.parse_state is Warning)
            ==> spec_failed_to_compile(m),
        m.source_type matches SourceType::SourceFile(sf) && (sf.implementation.compile_state is Error
            || sf.implementation.compile_state is Warning || sf.implementation.parse_state is ParseError
            || sf.implementation.parse_state is Warning) ==> spec_failed_to_compile(m),
        m.source_type matches SourceType::SourceFile(sf) && sf.implementation.compile_state is Success
            && sf.implementation.parse_state is Success && (sf.interface matches Some(i) ==> i.compile_state is Success
            && i.parse_state is Success) ==> !spec_failed_to_compile(m),
{
}


/// Each tree the index holds is one of the scanned files.
proof fn lemma_ast_index_from_files(files: Seq<AstFile>, loc: Seq<char>)
    requires
        ast_index(files).contains_key(loc),
    ensures
        exists|j: int| 0 <= j < files.len() && files[j] == ast_index(files)[loc],
    decreases files.len(),
{
    let prev = ast_index(files.drop_last());
    if files.last().res_file_path matches Some(p) && p@ == loc {
        assert(files[files.len() - 1] == ast_index(files)[loc]);
    } else {
        lemma_ast_index_from_files(files.drop_last(), loc);
        let j = choose|j: int| 0 <= j < files.drop_last().len() && files.drop_last()[j] == prev[loc];
        assert(files[j] == files.drop_last()[j]);
    }
}

/// A half of a module comes out clean only if it was clean already or some
/// scanned tree of that module, of the same kind, is newer than it: only an
/// abstract syntax tree (`.ast`, not `.iast`) newer than the implementation
/// cleans the implementation, and only an interface tree (`.iast`) newer
/// than the interface cleans the interface. An interface tree never touches
/// the implementation's flag, nor an implementation tree the interface's.
pub proof fn lemma_clean_only_by_newer_tree_of_same_kind(table: Map<Seq<char>, Module>, files: Seq<AstFile>, locs: Set<Seq<char>>)
    ensures
        forall|k: Seq<char>|
            #![trigger mark_clean(table, ast_index(files), locs)[k]]
            table.contains_key(k) && table[k].source_type is SourceFile ==> {
                &&& mark_clean(table, ast_index(files), locs).contains_key(k)
                &&& mark_clean(table, ast_index(files), locs)[k].source_type is SourceFile
                &&& (!mark_clean(table, ast_index(files), locs)[k].source_type->SourceFile_0.implementation.dirty ==> !table[k].source_type->SourceFile_0.implementation.dirty
                    || exists|j: int|
                    0 <= j < files.len() && #[trigger] files[j].module_name@ == k && !(files[j].ast_file_path@.len() >= 5 && files[j].ast_file_path@.subrange(files[j].ast_file_path@.len() - 5, files[j].ast_file_path@.len() as int) == seq!['.', 'i', 'a', 's', 't'])
                        && files[j].last_modified > table[k].source_type->SourceFile_0.implementation.last_modified)
                &&& (mark_clean(table, ast_index(files), locs)[k].source_type->SourceFile_0.interface is Some ==> table[k].source_type->SourceFile_0.interface is Some)
                &&& (mark_clean(table, ast_index(files), locs)[k].source_type->SourceFile_0.interface matches Some(after) && !after.dirty
                    ==> !table[k].source_type->SourceFile_0.interface->0.dirty || exists|j: int|
                    0 <= j < files.len() && #[trigger] files[j].module_name@ == k && (files[j].ast_file_path@.len() >= 5 && files[j].ast_file_path@.subrange(files[j].ast_file_path@.len() - 5, files[j].ast_file_path@.len() as int) == seq!['.', 'i', 'a', 's', 't'])
                        && files[j].last_modified > table[k].source_type->SourceFile_0.interface->0.last_modified)
            },
{
    let idx = ast_index(files);
    let after = mark_clean(table, idx, locs);
    assert forall|k: Seq<char>| table.contains_key(k) && table[k].source_type is SourceFile implies {
        &&& after.contains_key(k)
        &&& after[k].source_type is SourceFile
        &&& (!after[k].source_type->SourceFile_0.implementation.dirty ==> !table[k].source_type->SourceFile_0.implementation.dirty
            || exists|j: int|
            0 <= j < files.len() && #[trigger] files[j].module_name@ == k && !(files[j].ast_file_path@.len() >= 5 && files[j].ast_file_path@.subrange(files[j].ast_file_path@.len() - 5, files[j].ast_file_path@.len() as int) == seq!['.', 'i', 'a', 's', 't'])
                && files[j].last_modified > table[k].source_type->SourceFile_0.implementation.last_modified)
        &&& (after[k].source_type->SourceFile_0.interface is Some ==> table[k].source_type->SourceFile_0.interface is Some)
        &&& (after[k].source_type->SourceFile_0.interface matches Some(a) && !a.dirty
            ==> !table[k].source_type->SourceFile_0.interface->0.dirty || exists|j: int|
            0 <= j < files.len() && #[trigger] files[j].module_name@ == k && (files[j].ast_file_path@.len() >= 5 && files[j].ast_file_path@.subrange(files[j].ast_file_path@.len() - 5, files[j].ast_file_path@.len() as int) == seq!['.', 'i', 'a', 's', 't'])
                && files[j].last_modified > table[k].source_type->SourceFile_0.interface->0.last_modified)
    } by {
        let sf = table[k].source_type->SourceFile_0;
        if refreshed(idx, locs, k, false, sf.implementation.last_modified) {
            let loc = choose|loc: Seq<char>|
                locs.contains(loc) && idx.contains_key(loc) && #[trigger] refreshes(idx[loc], k, false, sf.implementation.last_modified);
            lemma_ast_index_from_files(files, loc);
            let j = choose|j: int| 0 <= j < files.len() && files[j] == idx[loc];
            assert(files[j].module_name@ == k);
        }
        if sf.interface is Some && refreshed(idx, locs, k, true, sf.interface->0.last_modified) {
            let loc = choose|loc: Seq<char>|
                locs.contains(loc) && idx.contains_key(loc) && #[trigger] refreshes(idx[loc], k, true, sf.interface->0.last_modified);
            lemma_ast_index_from_files(files, loc);
            let j = choose|j: int| 0 <= j < files.len() && files[j] == idx[loc];
            assert(files[j].module_name@ == k);
        }
    }
}

} // verus!
