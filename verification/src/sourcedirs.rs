//! The `.sourcedirs.json` summary of a build: for each package the source
//! directories it compiles and the packages it depends on, and for the root
//! package the union of them all.
use vstd::prelude::*;
use ahash::{AHashMap, AHashSet};
use crate::collections::{
    lists_exactly, lists_packages, lists_string_pairs, package_table, package_table_entries, package_table_get,
    string_set, string_set_insert, string_set_items, string_set_new, string_table, string_table_entries,
    string_table_get, string_table_insert, string_table_new,
};
use crate::types::Package;

verus! {

/// The contents of a `.sourcedirs.json` file: source directories, the
/// packages depended on (name and directory), and generated files (none).
pub struct SourceDirs {
    pub dirs: Vec<String>,
    pub pkgs: Vec<(String, String)>,
    pub generated: Vec<String>,
}

/// The source directories and dependencies of one package, before they are
/// written out.
pub struct PackageSourceDirs {
    pub dirs: AHashSet<String>,
    pub pkgs: AHashMap<String, String>,
}

/// The strings of an optional list; none when it is absent.
pub open spec fn listed(o: Option<Vec<String>>) -> Seq<String> {
    match o {
        Some(v) => v@,
        None => Seq::empty(),
    }
}

/// The text values of a list of strings.
pub open spec fn views_of(s: Seq<String>) -> Set<Seq<char>> {
    Set::new(|x: Seq<char>| exists|i: int| 0 <= i < s.len() && #[trigger] s[i]@ == x)
}

/// The source directories of a package.
pub open spec fn package_dirs(p: Package) -> Set<Seq<char>> {
    views_of(listed(p.dirs))
}

/// The names a package depends on: pinned, regular and development
/// dependencies.
pub open spec fn dependency_names(p: Package) -> Set<Seq<char>> {
    views_of(listed(p.bsconfig.pinned_dependencies)).union(views_of(listed(p.bsconfig.bs_dependencies))).union(
        views_of(listed(p.bsconfig.bs_dev_dependencies)),
    )
}

/// The packages of the build that `names` lists, each with its directory;
/// names of no package of the build are left out.
pub open spec fn known_packages(table: Map<Seq<char>, Package>, names: Set<Seq<char>>) -> Map<Seq<char>, Seq<char>> {
    Map::new(|n: Seq<char>| names.contains(n) && table.contains_key(n), |n: Seq<char>| table[n].package_dir@)
}

/// The packages a package depends on, each with its directory.
pub open spec fn dependency_dirs(table: Map<Seq<char>, Package>, p: Package) -> Map<Seq<char>, Seq<char>> {
    known_packages(table, dependency_names(p))
}

/// The list holds exactly the strings of `s`, each once.
pub open spec fn lists_strings(v: Seq<String>, s: Set<Seq<char>>) -> bool {
    &&& forall|i: int, j: int| 0 <= i < v.len() && 0 <= j < v.len() && i != j ==> v[i]@ != v[j]@
    &&& forall|i: int| 0 <= i < v.len() ==> s.contains(#[trigger] v[i]@)
    &&& forall|x: Seq<char>| s.contains(x) ==> exists|i: int| 0 <= i < v.len() && #[trigger] v[i]@ == x
}

/// The list holds exactly the pairs of `m`, each key once.
pub open spec fn lists_pairs(v: Seq<(String, String)>, m: Map<Seq<char>, Seq<char>>) -> bool {
    &&& forall|i: int, j: int| 0 <= i < v.len() && 0 <= j < v.len() && i != j ==> v[i].0@ != v[j].0@
    &&& forall|i: int| 0 <= i < v.len() ==> m.contains_key(#[trigger] v[i].0@) && m[v[i].0@] == v[i].1@
    &&& forall|k: Seq<char>| m.contains_key(k) ==> exists|i: int| 0 <= i < v.len() && #[trigger] v[i].0@ == k
}

/// The file lists exactly `dirs` and `pkgs`, and no generated files.
pub open spec fn describes(sd: SourceDirs, dirs: Set<Seq<char>>, pkgs: Map<Seq<char>, Seq<char>>) -> bool {
    &&& lists_strings(sd.dirs@, dirs)
    &&& lists_pairs(sd.pkgs@, pkgs)
    &&& sd.generated@.len() == 0
}

/// Adds each package of the build that `deps` names, with its directory.
fn add_dependencies(packages: &AHashMap<String, Package>, pkgs: &mut AHashMap<String, String>, deps: &Option<Vec<String>>)
    requires
        forall|n: Seq<char>| #[trigger] string_table(*old(pkgs)).contains_key(n) ==> package_table(*packages).contains_key(n)
            && string_table(*old(pkgs))[n] == package_table(*packages)[n].package_dir@,
    ensures
        string_table(*final(pkgs)) == string_table(*old(pkgs)).union_prefer_right(
            known_packages(package_table(*packages), views_of(listed(*deps))),
        ),
        forall|n: Seq<char>| #[trigger] string_table(*final(pkgs)).contains_key(n) ==> package_table(*packages).contains_key(n)
            && string_table(*final(pkgs))[n] == package_table(*packages)[n].package_dir@,
{
    let ghost table = package_table(*packages);
    let ghost start = string_table(*pkgs);
    let ghost names = listed(*deps);
    match deps {
        Some(names_vec) => {
            let mut i: usize = 0;
            while i < names_vec.len()
                invariant
                    i <= names_vec.len(),
                    names == names_vec@,
                    table == package_table(*packages),
                    string_table(*pkgs) == start.union_prefer_right(known_packages(table, views_of(names.take(i as int)))),
                    forall|n: Seq<char>| #[trigger] string_table(*pkgs).contains_key(n) ==> table.contains_key(n)
                        && string_table(*pkgs)[n] == table[n].package_dir@,
                    forall|n: Seq<char>| #[trigger] start.contains_key(n) ==> table.contains_key(n) && start[n] == table[n].package_dir@,
                decreases names_vec.len() - i,
            {
                let name = &names_vec[i];
                let ghost before = string_table(*pkgs);
                proof {
                    assert(views_of(names.take(i + 1)) =~= views_of(names.take(i as int)).insert(name@)) by {
                        assert(names.take(i + 1)[i as int] == *name);
                        assert forall|x: Seq<char>| views_of(names.take(i + 1)).contains(x) implies views_of(
                            names.take(i as int),
                        ).insert(name@).contains(x) by {
                            let j = choose|j: int| 0 <= j < i + 1 && #[trigger] names.take(i + 1)[j]@ == x;
                            if j < i {
                                assert(names.take(i as int)[j] == names.take(i + 1)[j]);
                            }
                        }
                        assert forall|x: Seq<char>| views_of(names.take(i as int)).insert(name@).contains(x) implies views_of(
                            names.take(i + 1),
                        ).contains(x) by {
                            if x != name@ {
                                let j = choose|j: int| 0 <= j < i && #[trigger] names.take(i as int)[j]@ == x;
                                assert(names.take(i + 1)[j] == names.take(i as int)[j]);
                            }
                        }
                    }
                }
                match package_table_get(packages, name) {
                    Some(package) => {
                        let _ = string_table_insert(pkgs, name.clone(), package.package_dir.clone());
                    },
                    None => {},
                }
                proof {
                    assert(string_table(*pkgs) =~= start.union_prefer_right(
                        known_packages(table, views_of(names.take(i + 1))),
                    ));
                }
                i = i + 1;
            }
            proof {
                assert(names.take(names_vec.len() as int) =~= names);
            }
        },
        None => {
            proof {
                assert(string_table(*pkgs) =~= start.union_prefer_right(known_packages(table, views_of(names))));
            }
        },
    }
}

/// The source directories and dependencies of a package.
pub fn child_source_dirs(packages: &AHashMap<String, Package>, package: &Package) -> (r: PackageSourceDirs)
    ensures
        string_set(r.dirs) == package_dirs(*package),
        string_table(r.pkgs) == dependency_dirs(package_table(*packages), *package),
        forall|x: Seq<char>| #[trigger] string_set(r.dirs).contains(x) <==> (package.dirs is Some && exists|j: int|
            0 <= j < package.dirs->0@.len() && #[trigger] package.dirs->0@[j]@ == x),
        forall|k: Seq<char>| #[trigger] string_table(r.pkgs).contains_key(k) <==> package_table(*packages).contains_key(k)
            && ((package.bsconfig.pinned_dependencies is Some && exists|j: int| 0 <= j < package.bsconfig.pinned_dependencies->0@.len() && #[trigger] package.bsconfig.pinned_dependencies->0@[j]@ == k)
            || (package.bsconfig.bs_dependencies is Some && exists|j: int| 0 <= j < package.bsconfig.bs_dependencies->0@.len() && #[trigger] package.bsconfig.bs_dependencies->0@[j]@ == k)
            || (package.bsconfig.bs_dev_dependencies is Some && exists|j: int| 0 <= j < package.bsconfig.bs_dev_dependencies->0@.len() && #[trigger] package.bsconfig.bs_dev_dependencies->0@[j]@ == k)),
        forall|k: Seq<char>| #[trigger] string_table(r.pkgs).contains_key(k) ==> string_table(r.pkgs)[k] == package_table(
            *packages,
        )[k].package_dir@,
{
    let ghost table = package_table(*packages);
    let mut dirs = string_set_new();
    let ghost listed_dirs = listed(package.dirs);
    match &package.dirs {
        Some(list) => {
            let mut i: usize = 0;
            while i < list.len()
                invariant
                    i <= list.len(),
                    listed_dirs == list@,
                    string_set(dirs) == views_of(list@.take(i as int)),
                decreases list.len() - i,
            {
                string_set_insert(&mut dirs, list[i].clone());
                proof {
                    assert(string_set(dirs) =~= views_of(list@.take(i + 1))) by {
                        assert(list@.take(i + 1)[i as int] == list@[i as int]);
                        assert forall|x: Seq<char>| views_of(list@.take(i + 1)).contains(x) implies string_set(dirs).contains(x) by {
                            let j = choose|j: int| 0 <= j < i + 1 && #[trigger] list@.take(i + 1)[j]@ == x;
                            if j < i {
                                assert(list@.take(i as int)[j] == list@.take(i + 1)[j]);
                            }
                        }
                        assert forall|x: Seq<char>| string_set(dirs).contains(x) implies views_of(list@.take(i + 1)).contains(x) by {
                            if x != list@[i as int]@ {
                                let j = choose|j: int| 0 <= j < i && #[trigger] list@.take(i as int)[j]@ == x;
                                assert(list@.take(i + 1)[j] == list@.take(i as int)[j]);
                            }
                        }
                    }
                }
                i = i + 1;
            }
            proof {
                assert(list@.take(list.len() as int) =~= list@);
            }
        },
        None => {
            proof {
                assert(string_set(dirs) =~= views_of(listed_dirs));
            }
        },
    }
    let mut pkgs = string_table_new();
    proof {
        assert(string_table(pkgs) =~= Map::empty());
    }
    add_dependencies(packages, &mut pkgs, &package.bsconfig.pinned_dependencies);
    add_dependencies(packages, &mut pkgs, &package.bsconfig.bs_dependencies);
    add_dependencies(packages, &mut pkgs, &package.bsconfig.bs_dev_dependencies);
    proof {
        assert(string_table(pkgs) =~= dependency_dirs(table, *package));
        assert forall|k: Seq<char>| #[trigger] string_table(pkgs).contains_key(k) <==> table.contains_key(k)
            && ((package.bsconfig.pinned_dependencies is Some && exists|j: int| 0 <= j < package.bsconfig.pinned_dependencies->0@.len() && #[trigger] package.bsconfig.pinned_dependencies->0@[j]@ == k)
            || (package.bsconfig.bs_dependencies is Some && exists|j: int| 0 <= j < package.bsconfig.bs_dependencies->0@.len() && #[trigger] package.bsconfig.bs_dependencies->0@[j]@ == k)
            || (package.bsconfig.bs_dev_dependencies is Some && exists|j: int| 0 <= j < package.bsconfig.bs_dev_dependencies->0@.len() && #[trigger] package.bsconfig.bs_dev_dependencies->0@[j]@ == k)) by {
            lemma_dependency_names_listed(*package, k);
        }
        assert forall|x: Seq<char>| #[trigger] string_set(dirs).contains(x) <==> (package.dirs is Some && exists|j: int|
            0 <= j < package.dirs->0@.len() && #[trigger] package.dirs->0@[j]@ == x) by {
            if string_set(dirs).contains(x) {
                let j = choose|j: int| 0 <= j < listed(package.dirs).len() && #[trigger] listed(package.dirs)[j]@ == x;
                assert(package.dirs->0@[j]@ == x);
            }
            if package.dirs is Some && exists|j: int| 0 <= j < package.dirs->0@.len() && #[trigger] package.dirs->0@[j]@ == x {
                let j = choose|j: int| 0 <= j < package.dirs->0@.len() && #[trigger] package.dirs->0@[j]@ == x;
                assert(listed(package.dirs)[j]@ == x);
            }
        }
    }
    PackageSourceDirs { dirs, pkgs }
}


/// The strings of a set, each once, as owned strings.
fn set_to_vec(set: &AHashSet<String>) -> (r: Vec<String>)
    ensures
        lists_strings(r@, string_set(*set)),
{
    let items = string_set_items(set);
    let mut r: Vec<String> = Vec::new();
    let mut i: usize = 0;
    while i < items.len()
        invariant
            i <= items.len(),
            r@.len() == i,
            lists_exactly(items@, string_set(*set)),
            forall|j: int| 0 <= j < i ==> (#[trigger] r@[j])@ == items@[j]@,
        decreases items.len() - i,
    {
        r.push(items[i].clone());
        i = i + 1;
    }
    proof {
        assert forall|x: Seq<char>| string_set(*set).contains(x) implies exists|j: int| 0 <= j < r@.len() && #[trigger] r@[j]@ == x by {
            let j = choose|j: int| 0 <= j < items@.len() && #[trigger] items@[j]@ == x;
            assert(r@[j]@ == x);
        }
        assert forall|a: int, b: int| 0 <= a < r@.len() && 0 <= b < r@.len() && a != b implies r@[a]@ != r@[b]@ by {
            assert(r@[a]@ == items@[a]@);
            assert(r@[b]@ == items@[b]@);
        }
        assert forall|a: int| 0 <= a < r@.len() implies string_set(*set).contains(#[trigger] r@[a]@) by {
            assert(r@[a]@ == items@[a]@);
        }
    }
    r
}

/// The pairs of a map, each key once, as owned strings.
pub(crate) fn table_to_vec(table: &AHashMap<String, String>) -> (r: Vec<(String, String)>)
    ensures
        lists_pairs(r@, string_table(*table)),
{
    let items = string_table_entries(table);
    let mut r: Vec<(String, String)> = Vec::new();
    let mut i: usize = 0;
    while i < items.len()
        invariant
            i <= items.len(),
            r@.len() == i,
            lists_string_pairs(items@, string_table(*table)),
            forall|j: int| 0 <= j < i ==> (#[trigger] r@[j]).0@ == items@[j].0@ && r@[j].1@ == items@[j].1@,
        decreases items.len() - i,
    {
        let (k, v) = items[i];
        r.push((k.clone(), v.clone()));
        i = i + 1;
    }
    proof {
        assert forall|x: Seq<char>| string_table(*table).contains_key(x) implies exists|j: int|
            0 <= j < r@.len() && #[trigger] r@[j].0@ == x by {
            let j = choose|j: int| 0 <= j < items@.len() && #[trigger] items@[j].0@ == x;
            assert(r@[j].0@ == x);
        }
        assert forall|a: int, b: int| 0 <= a < r@.len() && 0 <= b < r@.len() && a != b implies r@[a].0@ != r@[b].0@ by {
            assert(r@[a].0@ == items@[a].0@);
            assert(r@[b].0@ == items@[b].0@);
        }
        assert forall|a: int| 0 <= a < r@.len() implies string_table(*table).contains_key(#[trigger] r@[a].0@)
            && string_table(*table)[r@[a].0@] == r@[a].1@ by {
            assert(r@[a].0@ == items@[a].0@);
        }
    }
    r
}

/// The file that lists a package's source directories and dependencies.
pub fn to_source_dirs(d: &PackageSourceDirs) -> (r: SourceDirs)
    ensures
        describes(r, string_set(d.dirs), string_table(d.pkgs)),
{
    SourceDirs { dirs: set_to_vec(&d.dirs), pkgs: table_to_vec(&d.pkgs), generated: Vec::new() }
}

/// Some package of the build is the root.
pub open spec fn has_root(table: Map<Seq<char>, Package>) -> bool {
    exists|k: Seq<char>| table.contains_key(k) && #[trigger] table[k].is_root
}

/// A root package of the build, if there is one (the first found when there
/// are several).
pub fn find_root_package(packages: &AHashMap<String, Package>) -> (r: Option<(&String, &Package)>)
    ensures
        r is Some == has_root(package_table(*packages)),
        r matches Some(found) ==> package_table(*packages).contains_key(found.0@) && package_table(*packages)[found.0@]
            == *found.1 && found.1.is_root,
{
    let ghost table = package_table(*packages);
    let entries = package_table_entries(packages);
    let mut i: usize = 0;
    while i < entries.len()
        invariant
            i <= entries.len(),
            lists_packages(entries@, table),
            table == package_table(*packages),
            forall|j: int| 0 <= j < i ==> !(#[trigger] entries@[j]).1.is_root,
        decreases entries.len() - i,
    {
        let (name, package) = entries[i];
        if package.is_root {
            proof {
                assert(table.contains_key(entries@[i as int].0@));
                assert(table[name@].is_root);
            }
            return Some((name, package));
        }
        i = i + 1;
    }
    proof {
        if has_root(table) {
            let k = choose|k: Seq<char>| table.contains_key(k) && #[trigger] table[k].is_root;
            let j = choose|j: int| 0 <= j < entries@.len() && #[trigger] entries@[j].0@ == k;
            assert(!entries@[j].1.is_root);
        }
    }
    None
}

/// The list holds each package of the build that is not the root once, by
/// name, with its source directories and dependencies.
pub open spec fn lists_children(v: Seq<(&String, &Package, PackageSourceDirs)>, table: Map<Seq<char>, Package>) -> bool {
    &&& forall|i: int, j: int| 0 <= i < v.len() && 0 <= j < v.len() && i != j ==> v[i].0@ != v[j].0@
    &&& forall|i: int|
        #![trigger v[i]]
        0 <= i < v.len() ==> {
            &&& table.contains_key(v[i].0@)
            &&& table[v[i].0@] == *v[i].1
            &&& !v[i].1.is_root
            &&& string_set(v[i].2.dirs) == package_dirs(*v[i].1)
            &&& string_table(v[i].2.pkgs) == dependency_dirs(table, *v[i].1)
        }
    &&& forall|k: Seq<char>| table.contains_key(k) && !table[k].is_root ==> exists|i: int| 0 <= i < v.len() && #[trigger] v[i].0@ == k
}

/// What the `.sourcedirs.json` files of a build hold: the root package (by
/// name), and for every other package its source directories and
/// dependencies (`to_source_dirs` gives its file). The root's own file
/// gathers those of the others (`root_source_dirs`). A build without a root
/// package has no such files.
pub fn print(packages: &AHashMap<String, Package>) -> (r: (&String, &Package, Vec<(&String, &Package, PackageSourceDirs)>))
    requires
        has_root(package_table(*packages)),
    ensures
        package_table(*packages).contains_key(r.0@),
        package_table(*packages)[r.0@] == *r.1,
        r.1.is_root,
        lists_children(r.2@, package_table(*packages)),
{
    let ghost table = package_table(*packages);
    let (name, package) = find_root_package(packages).unwrap();
    let entries = package_table_entries(packages);
    let mut children: Vec<(&String, &Package, PackageSourceDirs)> = Vec::new();
    let mut i: usize = 0;
    while i < entries.len()
        invariant
            i <= entries.len(),
            lists_packages(entries@, table),
            table == package_table(*packages),
            forall|a: int, b: int| 0 <= a < children@.len() && 0 <= b < children@.len() && a != b ==> children@[a].0@ != children@[b].0@,
            forall|a: int|
                #![trigger children@[a]]
                0 <= a < children@.len() ==> {
                    &&& table.contains_key(children@[a].0@)
                    &&& table[children@[a].0@] == *children@[a].1
                    &&& !children@[a].1.is_root
                    &&& string_set(children@[a].2.dirs) == package_dirs(*children@[a].1)
                    &&& string_table(children@[a].2.pkgs) == dependency_dirs(table, *children@[a].1)
                    &&& exists|b: int| 0 <= b < i && #[trigger] entries@[b].0@ == children@[a].0@
                },
            forall|b: int|
                #![trigger entries@[b]]
                0 <= b < i && !entries@[b].1.is_root ==> exists|a: int| 0 <= a < children@.len() && #[trigger] children@[a].0@ == entries@[b].0@,
        decreases entries.len() - i,
    {
        let (child_name, child) = entries[i];
        let ghost old_children = children@;
        if !child.is_root {
            let dirs = child_source_dirs(packages, child);
            children.push((child_name, child, dirs));
            proof {
                assert forall|a: int| 0 <= a < old_children.len() implies old_children[a].0@ != child_name@ by {
                    let b = choose|b: int| 0 <= b < i && #[trigger] entries@[b].0@ == old_children[a].0@;
                    assert(children@[a] == old_children[a]);
                }
                assert(children@[children@.len() - 1].0@ == entries@[i as int].0@);
            }
        }
        proof {
            assert forall|b: int|
                #![trigger entries@[b]]
                0 <= b < i + 1 && !entries@[b].1.is_root implies exists|a: int| 0 <= a < children@.len() && #[trigger] children@[a].0@ == entries@[b].0@ by {
                if b < i {
                    let a = choose|a: int| 0 <= a < old_children.len() && #[trigger] old_children[a].0@ == entries@[b].0@;
                    assert(children@[a] == old_children[a]);
                } else {
                    assert(children@[children@.len() - 1].0@ == entries@[b].0@);
                }
            }
        }
        i = i + 1;
    }
    proof {
        assert forall|k: Seq<char>| table.contains_key(k) && !table[k].is_root implies exists|a: int|
            0 <= a < children@.len() && #[trigger] children@[a].0@ == k by {
            let b = choose|b: int| 0 <= b < entries@.len() && #[trigger] entries@[b].0@ == k;
            assert(*entries@[b].1 == table[k]);
        }
    }
    (name, package, children)
}


/// The directories of `dirs`, each prefixed by `path` and a `/`.
pub open spec fn joined(path: Seq<char>, dirs: Set<Seq<char>>) -> Set<Seq<char>> {
    Set::new(|x: Seq<char>| exists|d: Seq<char>| #[trigger] dirs.contains(d) && x == path + seq!['/'] + d)
}

/// The directories of all the packages, each under its package's path.
pub open spec fn joined_dirs(children: Seq<(String, &PackageSourceDirs)>) -> Set<Seq<char>>
    decreases children.len(),
{
    if children.len() == 0 {
        Set::empty()
    } else {
        joined_dirs(children.drop_last()).union(joined(children.last().0@, string_set(children.last().1.dirs)))
    }
}

/// The dependencies of all the packages; where two name the same package, the
/// later one's directory stands.
pub open spec fn merged_pkgs(children: Seq<(String, &PackageSourceDirs)>) -> Map<Seq<char>, Seq<char>>
    decreases children.len(),
{
    if children.len() == 0 {
        Map::empty()
    } else {
        merged_pkgs(children.drop_last()).union_prefer_right(string_table(children.last().1.pkgs))
    }
}

/// Adds each directory of `dirs` under `path`.
fn add_joined_dirs(all: &mut AHashSet<String>, path: &String, dirs: &AHashSet<String>)
    ensures
        string_set(*final(all)) == string_set(*old(all)).union(joined(path@, string_set(*dirs))),
{
    proof {
        reveal_strlit("/");
        assert("/"@ =~= seq!['/']);
    }
    let ghost start = string_set(*all);
    let items = string_set_items(dirs);
    let mut i: usize = 0;
    while i < items.len()
        invariant
            i <= items.len(),
            lists_exactly(items@, string_set(*dirs)),
            "/"@ == seq!['/'],
            string_set(*all) == start.union(joined(path@, crate::clean::seen(items@, i as int))),
        decreases items.len() - i,
    {
        let mut entry = path.clone();
        entry.append("/");
        entry.append(items[i].as_str());
        string_set_insert(all, entry);
        proof {
            let d = items@[i as int]@;
            assert(crate::clean::seen(items@, i + 1) =~= crate::clean::seen(items@, i as int).insert(d));
            assert(joined(path@, crate::clean::seen(items@, i + 1)) =~= joined(path@, crate::clean::seen(items@, i as int)).insert(
                path@ + seq!['/'] + d,
            )) by {
                assert(crate::clean::seen(items@, i + 1).contains(d));
                assert forall|x: Seq<char>| joined(path@, crate::clean::seen(items@, i + 1)).contains(x) implies joined(
                    path@,
                    crate::clean::seen(items@, i as int),
                ).insert(path@ + seq!['/'] + d).contains(x) by {
                    let e = choose|e: Seq<char>| #[trigger] crate::clean::seen(items@, i + 1).contains(e) && x == path@ + seq!['/'] + e;
                    if e != d {
                        assert(crate::clean::seen(items@, i as int).contains(e));
                    }
                }
                assert forall|x: Seq<char>| joined(path@, crate::clean::seen(items@, i as int)).contains(x) implies joined(
                    path@,
                    crate::clean::seen(items@, i + 1),
                ).contains(x) by {
                    let e = choose|e: Seq<char>| #[trigger] crate::clean::seen(items@, i as int).contains(e) && x == path@ + seq!['/'] + e;
                    assert(crate::clean::seen(items@, i + 1).contains(e));
                }
            }
            assert(string_set(*all) =~= start.union(joined(path@, crate::clean::seen(items@, i + 1))));
        }
        i = i + 1;
    }
    proof {
        assert(crate::clean::seen(items@, items@.len() as int) =~= string_set(*dirs));
    }
}

/// Adds every pair of `pkgs`, replacing what a name mapped to before.
pub(crate) fn add_all_pairs(all: &mut AHashMap<String, String>, pkgs: &AHashMap<String, String>)
    ensures
        string_table(*final(all)) == string_table(*old(all)).union_prefer_right(string_table(*pkgs)),
{
    let ghost start = string_table(*all);
    let items = string_table_entries(pkgs);
    let mut i: usize = 0;
    while i < items.len()
        invariant
            i <= items.len(),
            lists_string_pairs(items@, string_table(*pkgs)),
            forall|k: Seq<char>| #[trigger] string_table(*all).contains_key(k) ==> start.contains_key(k) || exists|j: int|
                0 <= j < i && #[trigger] items@[j].0@ == k,
            forall|k: Seq<char>| #[trigger] start.contains_key(k) ==> string_table(*all).contains_key(k),
            forall|k: Seq<char>| start.contains_key(k) && !(exists|j: int| 0 <= j < i && #[trigger] items@[j].0@ == k)
                ==> string_table(*all)[k] == start[k],
            forall|j: int| 0 <= j < i ==> string_table(*all).contains_key(#[trigger] items@[j].0@) && string_table(*all)[items@[j].0@]
                == items@[j].1@,
        decreases items.len() - i,
    {
        let (k, v) = items[i];
        let ghost before = string_table(*all);
        let _ = string_table_insert(all, k.clone(), v.clone());
        proof {
            assert forall|j: int| 0 <= j < i + 1 implies string_table(*all).contains_key(#[trigger] items@[j].0@)
                && string_table(*all)[items@[j].0@] == items@[j].1@ by {
                if j < i {
                    assert(items@[j].0@ != items@[i as int].0@);
                }
            }
            assert forall|k2: Seq<char>| #[trigger] string_table(*all).contains_key(k2) implies start.contains_key(k2) || exists|j: int|
                0 <= j < i + 1 && #[trigger] items@[j].0@ == k2 by {
                if k2 != k@ {
                    assert(before.contains_key(k2));
                } else {
                    assert(items@[i as int].0@ == k2);
                }
            }
            assert forall|k2: Seq<char>| start.contains_key(k2) && !(exists|j: int| 0 <= j < i + 1 && #[trigger] items@[j].0@ == k2)
                implies string_table(*all)[k2] == start[k2] by {
                assert(items@[i as int].0@ != k2);
                assert(!(exists|j: int| 0 <= j < i && #[trigger] items@[j].0@ == k2)) by {
                    if exists|j: int| 0 <= j < i && #[trigger] items@[j].0@ == k2 {
                        let j = choose|j: int| 0 <= j < i && #[trigger] items@[j].0@ == k2;
                        assert(0 <= j < i + 1 && items@[j].0@ == k2);
                    }
                }
            }
        }
        i = i + 1;
    }
    proof {
        assert(string_table(*all) =~= start.union_prefer_right(string_table(*pkgs))) by {
            assert forall|k: Seq<char>| #[trigger] string_table(*pkgs).contains_key(k) implies string_table(*all).contains_key(k)
                && string_table(*all)[k] == string_table(*pkgs)[k] by {
                let j = choose|j: int| 0 <= j < items@.len() && #[trigger] items@[j].0@ == k;
                assert(string_table(*all).contains_key(items@[j].0@));
            }
            assert forall|k: Seq<char>| #[trigger] string_table(*all).contains_key(k) implies start.union_prefer_right(
                string_table(*pkgs),
            ).contains_key(k) by {
                if !start.contains_key(k) {
                    let j = choose|j: int| 0 <= j < items@.len() && #[trigger] items@[j].0@ == k;
                    assert(string_table(*pkgs).contains_key(items@[j].0@));
                }
            }
            assert forall|k: Seq<char>| start.contains_key(k) && !string_table(*pkgs).contains_key(k) implies string_table(*all)[k]
                == start[k] by {
                if exists|j: int| 0 <= j < items@.len() && #[trigger] items@[j].0@ == k {
                    let j = choose|j: int| 0 <= j < items@.len() && #[trigger] items@[j].0@ == k;
                    assert(string_table(*pkgs).contains_key(items@[j].0@));
                }
            }
        }
    }
}

/// The root package's file: every other package's directories under that
/// package's path (`children` pairs each package's path with what `print`
/// found for it), and all their dependencies.
pub fn root_source_dirs(children: &Vec<(String, &PackageSourceDirs)>) -> (r: SourceDirs)
    ensures
        describes(r, joined_dirs(children@), merged_pkgs(children@)),
{
    let mut all_dirs = string_set_new();
    let mut all_pkgs = string_table_new();
    proof {
        assert(string_set(all_dirs) =~= joined_dirs(children@.take(0)));
        assert(string_table(all_pkgs) =~= merged_pkgs(children@.take(0)));
    }
    let mut i: usize = 0;
    while i < children.len()
        invariant
            i <= children.len(),
            string_set(all_dirs) == joined_dirs(children@.take(i as int)),
            string_table(all_pkgs) == merged_pkgs(children@.take(i as int)),
        decreases children.len() - i,
    {
        let (path, child) = &children[i];
        add_joined_dirs(&mut all_dirs, path, &child.dirs);
        add_all_pairs(&mut all_pkgs, &child.pkgs);
        proof {
            assert(children@.take(i + 1).drop_last() =~= children@.take(i as int));
            assert(children@.take(i + 1).last() == children@[i as int]);
        }
        i = i + 1;
    }
    proof {
        assert(children@.take(children.len() as int) =~= children@);
    }
    SourceDirs { dirs: set_to_vec(&all_dirs), pkgs: table_to_vec(&all_pkgs), generated: Vec::new() }
}


/// The root's file names every source directory of every other package,
/// under that package's path.
pub proof fn lemma_root_dirs_cover_children(children: Seq<(String, &PackageSourceDirs)>, i: int, d: Seq<char>)
    requires
        0 <= i < children.len(),
        string_set(children[i].1.dirs).contains(d),
    ensures
        joined_dirs(children).contains(children[i].0@ + seq!['/'] + d),
    decreases children.len(),
{
    if i == children.len() - 1 {
        assert(joined(children.last().0@, string_set(children.last().1.dirs)).contains(children[i].0@ + seq!['/'] + d));
    } else {
        assert(children.drop_last()[i] == children[i]);
        lemma_root_dirs_cover_children(children.drop_last(), i, d);
    }
}

/// The root's dependencies are exactly those of the other packages, and
/// when each of those names packages of the build with their directories, so
/// does the root's: whichever package's entry stands for a name, it is that
/// package's directory.
pub proof fn lemma_root_pkgs_are_packages(children: Seq<(String, &PackageSourceDirs)>, table: Map<Seq<char>, Package>)
    requires
        forall|i: int, n: Seq<char>|
            0 <= i < children.len() && #[trigger] string_table(children[i].1.pkgs).contains_key(n) ==> table.contains_key(n)
                && string_table(children[i].1.pkgs)[n] == table[n].package_dir@,
    ensures
        forall|n: Seq<char>| #[trigger] merged_pkgs(children).contains_key(n) ==> table.contains_key(n) && merged_pkgs(children)[n]
            == table[n].package_dir@,
        forall|n: Seq<char>| #[trigger] merged_pkgs(children).contains_key(n) <==> exists|i: int|
            0 <= i < children.len() && #[trigger] string_table(children[i].1.pkgs).contains_key(n),
    decreases children.len(),
{
    if children.len() > 0 {
        let rest = children.drop_last();
        assert forall|i: int, n: Seq<char>|
            0 <= i < rest.len() && #[trigger] string_table(rest[i].1.pkgs).contains_key(n) implies table.contains_key(n)
                && string_table(rest[i].1.pkgs)[n] == table[n].package_dir@ by {
            assert(rest[i] == children[i]);
        }
        lemma_root_pkgs_are_packages(rest, table);
        let last = children[children.len() - 1];
        assert(children.last() == last);
        assert(merged_pkgs(children) == merged_pkgs(rest).union_prefer_right(string_table(last.1.pkgs)));
        assert forall|n: Seq<char>| #[trigger] merged_pkgs(children).contains_key(n) implies table.contains_key(n)
            && merged_pkgs(children)[n] == table[n].package_dir@ by {
            if string_table(last.1.pkgs).contains_key(n) {
                assert(string_table(children[children.len() - 1].1.pkgs).contains_key(n));
            }
        }
        assert forall|n: Seq<char>| #[trigger] merged_pkgs(children).contains_key(n) <==> exists|i: int|
            0 <= i < children.len() && #[trigger] string_table(children[i].1.pkgs).contains_key(n) by {
            if merged_pkgs(children).contains_key(n) {
                if string_table(last.1.pkgs).contains_key(n) {
                    assert(string_table(children[children.len() - 1].1.pkgs).contains_key(n));
                } else {
                    let i = choose|i: int| 0 <= i < rest.len() && #[trigger] string_table(rest[i].1.pkgs).contains_key(n);
                    assert(rest[i] == children[i]);
                }
            }
            if exists|i: int| 0 <= i < children.len() && #[trigger] string_table(children[i].1.pkgs).contains_key(n) {
                let i = choose|i: int| 0 <= i < children.len() && #[trigger] string_table(children[i].1.pkgs).contains_key(n);
                if i < children.len() - 1 {
                    assert(rest[i] == children[i]);
                    assert(string_table(rest[i].1.pkgs).contains_key(n));
                }
            }
        }
    }
}

/// A package's dependencies name packages of the build, each with its own
/// directory.
pub proof fn lemma_dependencies_are_packages(table: Map<Seq<char>, Package>, p: Package)
    ensures
        forall|n: Seq<char>| #[trigger] dependency_dirs(table, p).contains_key(n) ==> table.contains_key(n) && dependency_dirs(
            table,
            p,
        )[n] == table[n].package_dir@,
{
}

/// Every source directory that a non-root package lists in its
/// configuration, written under that package's path.
pub open spec fn package_dir_paths(table: Map<Seq<char>, Package>, paths: Map<Seq<char>, Seq<char>>) -> Set<Seq<char>> {
    Set::new(
        |x: Seq<char>|
            exists|n: Seq<char>, j: int|
                #![trigger table[n].dirs->0@[j]]
                table.contains_key(n) && !table[n].is_root && table[n].dirs is Some && 0 <= j < table[n].dirs->0@.len()
                    && x == paths[n] + seq!['/'] + table[n].dirs->0@[j]@,
    )
}

/// The root package's directories: those of every other package of the
/// build, each under that package's path in `paths`.
pub open spec fn root_dirs(table: Map<Seq<char>, Package>, paths: Map<Seq<char>, Seq<char>>) -> Set<Seq<char>> {
    Set::new(
        |x: Seq<char>|
            exists|n: Seq<char>|
                table.contains_key(n) && !table[n].is_root && #[trigger] joined(paths[n], package_dirs(table[n])).contains(x),
    )
}

/// The root package's dependencies: every package of the build that some
/// other (non-root) package depends on, with its directory.
pub open spec fn root_pkgs(table: Map<Seq<char>, Package>) -> Map<Seq<char>, Seq<char>> {
    Map::new(
        |k: Seq<char>|
            table.contains_key(k) && exists|n: Seq<char>|
                table.contains_key(n) && !table[n].is_root && #[trigger] dependency_names(table[n]).contains(k),
        |k: Seq<char>| table[k].package_dir@,
    )
}

/// Every package that is not the root has a path in `paths`.
pub open spec fn has_paths(table: Map<Seq<char>, Package>, paths: Map<Seq<char>, Seq<char>>) -> bool {
    forall|n: Seq<char>| #[trigger] table.contains_key(n) && !table[n].is_root ==> paths.contains_key(n)
}

/// Whether every package that is not the root has a path in `paths`.
pub fn package_paths_complete(packages: &AHashMap<String, Package>, paths: &AHashMap<String, String>) -> (r: bool)
    ensures
        r == has_paths(package_table(*packages), string_table(*paths)),
{
    let ghost table = package_table(*packages);
    let entries = package_table_entries(packages);
    let mut i: usize = 0;
    while i < entries.len()
        invariant
            i <= entries.len(),
            lists_packages(entries@, table),
            table == package_table(*packages),
            forall|j: int| 0 <= j < i && !(#[trigger] entries@[j]).1.is_root ==> string_table(*paths).contains_key(entries@[j].0@),
        decreases entries.len() - i,
    {
        let (name, package) = entries[i];
        if !package.is_root && string_table_get(paths, name).is_none() {
            proof {
                assert(table.contains_key(name@) && !table[name@].is_root);
            }
            return false;
        }
        i = i + 1;
    }
    proof {
        assert forall|n: Seq<char>| #[trigger] table.contains_key(n) && !table[n].is_root implies string_table(*paths).contains_key(n) by {
            let j = choose|j: int| 0 <= j < entries@.len() && #[trigger] entries@[j].0@ == n;
            assert(*entries@[j].1 == table[n]);
        }
    }
    true
}

/// The root package's `.sourcedirs.json`: the directories of every other
/// package under that package's path (`paths`, by package name), each once,
/// and the dependencies of all of them, each package once with its
/// directory; the root's own directories and dependencies are not part of
/// it, and no generated files.
pub fn root_source_dirs_of(packages: &AHashMap<String, Package>, paths: &AHashMap<String, String>) -> (r: SourceDirs)
    requires
        has_paths(package_table(*packages), string_table(*paths)),
    ensures
        describes(r, root_dirs(package_table(*packages), string_table(*paths)), root_pkgs(package_table(*packages))),
        forall|k: Seq<char>| (exists|i: int| 0 <= i < r.pkgs@.len() && #[trigger] r.pkgs@[i].0@ == k) <==> (package_table(
            *packages,
        ).contains_key(k) && exists|n: Seq<char>|
            #![trigger package_table(*packages)[n]]
            package_table(*packages).contains_key(n) && !package_table(*packages)[n].is_root && ((package_table(*packages)[n].bsconfig.pinned_dependencies is Some && exists|j: int| 0 <= j < package_table(*packages)[n].bsconfig.pinned_dependencies->0@.len() && #[trigger] package_table(*packages)[n].bsconfig.pinned_dependencies->0@[j]@ == k)
            || (package_table(*packages)[n].bsconfig.bs_dependencies is Some && exists|j: int| 0 <= j < package_table(*packages)[n].bsconfig.bs_dependencies->0@.len() && #[trigger] package_table(*packages)[n].bsconfig.bs_dependencies->0@[j]@ == k)
            || (package_table(*packages)[n].bsconfig.bs_dev_dependencies is Some && exists|j: int| 0 <= j < package_table(*packages)[n].bsconfig.bs_dev_dependencies->0@.len() && #[trigger] package_table(*packages)[n].bsconfig.bs_dev_dependencies->0@[j]@ == k))),
        forall|i: int| #![trigger r.pkgs@[i]] 0 <= i < r.pkgs@.len() ==> r.pkgs@[i].1@ == package_table(*packages)[r.pkgs@[i].0@].package_dir@,
        r.generated@.len() == 0,
        lists_strings(r.dirs@, package_dir_paths(package_table(*packages), string_table(*paths))),
{
    let ghost table = package_table(*packages);
    let ghost pmap = string_table(*paths);
    let entries = package_table_entries(packages);
    let mut all_dirs = string_set_new();
    let mut all_pkgs = string_table_new();
    proof {
        assert(string_set(all_dirs) =~= Set::new(
            |x: Seq<char>|
                exists|j: int|
                    0 <= j < 0 && !(#[trigger] entries@[j]).1.is_root && joined(pmap[entries@[j].0@], package_dirs(*entries@[j].1)).contains(x),
        ));
        assert(string_table(all_pkgs) =~= Map::new(
            |k: Seq<char>|
                table.contains_key(k) && exists|j: int|
                    0 <= j < 0 && !(#[trigger] entries@[j]).1.is_root && dependency_names(*entries@[j].1).contains(k),
            |k: Seq<char>| table[k].package_dir@,
        ));
    }
    let mut i: usize = 0;
    while i < entries.len()
        invariant
            i <= entries.len(),
            lists_packages(entries@, table),
            table == package_table(*packages),
            pmap == string_table(*paths),
            has_paths(table, pmap),
            string_set(all_dirs) == Set::new(
                |x: Seq<char>|
                    exists|j: int|
                        0 <= j < i && !(#[trigger] entries@[j]).1.is_root && joined(pmap[entries@[j].0@], package_dirs(*entries@[j].1)).contains(x),
            ),
            string_table(all_pkgs) == Map::new(
                |k: Seq<char>|
                    table.contains_key(k) && exists|j: int|
                        0 <= j < i && !(#[trigger] entries@[j]).1.is_root && dependency_names(*entries@[j].1).contains(k),
                |k: Seq<char>| table[k].package_dir@,
            ),
        decreases entries.len() - i,
    {
        let (name, package) = entries[i];
        let ghost dirs_before = string_set(all_dirs);
        let ghost pkgs_before = string_table(all_pkgs);
        if !package.is_root {
            proof {
                assert(table.contains_key(name@) && !table[name@].is_root);
            }
            match string_table_get(paths, name) {
                Some(path) => {
                    let child = child_source_dirs(packages, package);
                    add_joined_dirs(&mut all_dirs, path, &child.dirs);
                    add_all_pairs(&mut all_pkgs, &child.pkgs);
                },
                None => {
                    proof {
                        assert(false);
                    }
                },
            }
        }
        proof {
            let e = entries@[i as int];
            assert(string_set(all_dirs) =~= Set::new(
                |x: Seq<char>|
                    exists|j: int|
                        0 <= j < i + 1 && !(#[trigger] entries@[j]).1.is_root && joined(pmap[entries@[j].0@], package_dirs(*entries@[j].1)).contains(x),
            )) by {
                assert forall|x: Seq<char>| string_set(all_dirs).contains(x) implies exists|j: int|
                    0 <= j < i + 1 && !(#[trigger] entries@[j]).1.is_root && joined(pmap[entries@[j].0@], package_dirs(*entries@[j].1)).contains(x) by {
                    if !dirs_before.contains(x) {
                        assert(!e.1.is_root && joined(pmap[e.0@], package_dirs(*e.1)).contains(x));
                    }
                }
                assert forall|x: Seq<char>| (exists|j: int|
                    0 <= j < i + 1 && !(#[trigger] entries@[j]).1.is_root && joined(pmap[entries@[j].0@], package_dirs(*entries@[j].1)).contains(x))
                    implies string_set(all_dirs).contains(x) by {
                    let j = choose|j: int|
                        0 <= j < i + 1 && !(#[trigger] entries@[j]).1.is_root && joined(pmap[entries@[j].0@], package_dirs(*entries@[j].1)).contains(x);
                    if j < i {
                        assert(dirs_before.contains(x));
                    }
                }
            }
            assert(string_table(all_pkgs) =~= Map::new(
                |k: Seq<char>|
                    table.contains_key(k) && exists|j: int|
                        0 <= j < i + 1 && !(#[trigger] entries@[j]).1.is_root && dependency_names(*entries@[j].1).contains(k),
                |k: Seq<char>| table[k].package_dir@,
            )) by {
                assert forall|k: Seq<char>| #[trigger] string_table(all_pkgs).contains_key(k) implies table.contains_key(k) && (exists|j: int|
                    0 <= j < i + 1 && !(#[trigger] entries@[j]).1.is_root && dependency_names(*entries@[j].1).contains(k))
                    && string_table(all_pkgs)[k] == table[k].package_dir@ by {
                    if !pkgs_before.contains_key(k) {
                        assert(!e.1.is_root && dependency_names(*e.1).contains(k));
                    } else {
                        let j = choose|j: int| 0 <= j < i && !(#[trigger] entries@[j]).1.is_root && dependency_names(*entries@[j].1).contains(k);
                        assert(0 <= j < i + 1);
                    }
                }
                assert forall|k: Seq<char>| table.contains_key(k) && (exists|j: int|
                    0 <= j < i + 1 && !(#[trigger] entries@[j]).1.is_root && dependency_names(*entries@[j].1).contains(k))
                    implies #[trigger] string_table(all_pkgs).contains_key(k) by {
                    let j = choose|j: int| 0 <= j < i + 1 && !(#[trigger] entries@[j]).1.is_root && dependency_names(*entries@[j].1).contains(k);
                    if j < i {
                        assert(pkgs_before.contains_key(k));
                    } else {
                        assert(dependency_dirs(table, *e.1).contains_key(k));
                    }
                }
            }
        }
        i = i + 1;
    }
    proof {
        assert(string_set(all_dirs) =~= root_dirs(table, pmap)) by {
            assert forall|x: Seq<char>| root_dirs(table, pmap).contains(x) implies string_set(all_dirs).contains(x) by {
                let n = choose|n: Seq<char>|
                    table.contains_key(n) && !table[n].is_root && #[trigger] joined(pmap[n], package_dirs(table[n])).contains(x);
                let j = choose|j: int| 0 <= j < entries@.len() && #[trigger] entries@[j].0@ == n;
                assert(*entries@[j].1 == table[n]);
            }
            assert forall|x: Seq<char>| string_set(all_dirs).contains(x) implies root_dirs(table, pmap).contains(x) by {
                let j = choose|j: int|
                    0 <= j < entries@.len() && !(#[trigger] entries@[j]).1.is_root && joined(pmap[entries@[j].0@], package_dirs(*entries@[j].1)).contains(x);
                let n = entries@[j].0@;
                assert(table.contains_key(n) && table[n] == *entries@[j].1);
            }
        }
        assert(string_table(all_pkgs) =~= root_pkgs(table)) by {
            assert forall|k: Seq<char>| #[trigger] root_pkgs(table).contains_key(k) implies string_table(all_pkgs).contains_key(k) by {
                let n = choose|n: Seq<char>| table.contains_key(n) && !table[n].is_root && #[trigger] dependency_names(table[n]).contains(k);
                let j = choose|j: int| 0 <= j < entries@.len() && #[trigger] entries@[j].0@ == n;
                assert(*entries@[j].1 == table[n]);
            }
            assert forall|k: Seq<char>| #[trigger] string_table(all_pkgs).contains_key(k) implies root_pkgs(table).contains_key(k) by {
                let j = choose|j: int|
                    0 <= j < entries@.len() && !(#[trigger] entries@[j]).1.is_root && dependency_names(*entries@[j].1).contains(k);
                let n = entries@[j].0@;
                assert(table.contains_key(n) && table[n] == *entries@[j].1);
            }
        }
    }
    let r = SourceDirs { dirs: set_to_vec(&all_dirs), pkgs: table_to_vec(&all_pkgs), generated: Vec::new() };
    proof {
        assert forall|k: Seq<char>| (exists|i: int| 0 <= i < r.pkgs@.len() && #[trigger] r.pkgs@[i].0@ == k) <==> (table.contains_key(
            k,
        ) && exists|n: Seq<char>|
            #![trigger table[n]]
            table.contains_key(n) && !table[n].is_root && ((table[n].bsconfig.pinned_dependencies is Some && exists|j: int| 0 <= j < table[n].bsconfig.pinned_dependencies->0@.len() && #[trigger] table[n].bsconfig.pinned_dependencies->0@[j]@ == k)
            || (table[n].bsconfig.bs_dependencies is Some && exists|j: int| 0 <= j < table[n].bsconfig.bs_dependencies->0@.len() && #[trigger] table[n].bsconfig.bs_dependencies->0@[j]@ == k)
            || (table[n].bsconfig.bs_dev_dependencies is Some && exists|j: int| 0 <= j < table[n].bsconfig.bs_dev_dependencies->0@.len() && #[trigger] table[n].bsconfig.bs_dev_dependencies->0@[j]@ == k))) by {
            assert(lists_pairs(r.pkgs@, root_pkgs(table)));
            if exists|i: int| 0 <= i < r.pkgs@.len() && #[trigger] r.pkgs@[i].0@ == k {
                let i = choose|i: int| 0 <= i < r.pkgs@.len() && #[trigger] r.pkgs@[i].0@ == k;
                assert(root_pkgs(table).contains_key(r.pkgs@[i].0@));
            }
            if root_pkgs(table).contains_key(k) {
                let n = choose|n: Seq<char>| table.contains_key(n) && !table[n].is_root && #[trigger] dependency_names(table[n]).contains(k);
                lemma_dependency_names_listed(table[n], k);
            }
            if table.contains_key(k) && exists|n: Seq<char>|
                #![trigger table[n]]
                table.contains_key(n) && !table[n].is_root && ((table[n].bsconfig.pinned_dependencies is Some && exists|j: int| 0 <= j < table[n].bsconfig.pinned_dependencies->0@.len() && #[trigger] table[n].bsconfig.pinned_dependencies->0@[j]@ == k)
            || (table[n].bsconfig.bs_dependencies is Some && exists|j: int| 0 <= j < table[n].bsconfig.bs_dependencies->0@.len() && #[trigger] table[n].bsconfig.bs_dependencies->0@[j]@ == k)
            || (table[n].bsconfig.bs_dev_dependencies is Some && exists|j: int| 0 <= j < table[n].bsconfig.bs_dev_dependencies->0@.len() && #[trigger] table[n].bsconfig.bs_dev_dependencies->0@[j]@ == k)) {
                let n = choose|n: Seq<char>|
                    #![trigger table[n]]
                    table.contains_key(n) && !table[n].is_root && ((table[n].bsconfig.pinned_dependencies is Some && exists|j: int| 0 <= j < table[n].bsconfig.pinned_dependencies->0@.len() && #[trigger] table[n].bsconfig.pinned_dependencies->0@[j]@ == k)
            || (table[n].bsconfig.bs_dependencies is Some && exists|j: int| 0 <= j < table[n].bsconfig.bs_dependencies->0@.len() && #[trigger] table[n].bsconfig.bs_dependencies->0@[j]@ == k)
            || (table[n].bsconfig.bs_dev_dependencies is Some && exists|j: int| 0 <= j < table[n].bsconfig.bs_dev_dependencies->0@.len() && #[trigger] table[n].bsconfig.bs_dev_dependencies->0@[j]@ == k));
                lemma_dependency_names_listed(table[n], k);
                assert(root_pkgs(table).contains_key(k));
            }
        }
    }
    proof {
        assert(root_dirs(table, pmap) =~= package_dir_paths(table, pmap)) by {
            assert forall|x: Seq<char>| root_dirs(table, pmap).contains(x) implies package_dir_paths(table, pmap).contains(x) by {
                let n = choose|n: Seq<char>|
                    table.contains_key(n) && !table[n].is_root && #[trigger] joined(pmap[n], package_dirs(table[n])).contains(x);
                let d = choose|d: Seq<char>| #[trigger] package_dirs(table[n]).contains(d) && x == pmap[n] + seq!['/'] + d;
                let j = choose|j: int| 0 <= j < listed(table[n].dirs).len() && #[trigger] listed(table[n].dirs)[j]@ == d;
                assert(table[n].dirs->0@[j]@ == d);
            }
            assert forall|x: Seq<char>| package_dir_paths(table, pmap).contains(x) implies root_dirs(table, pmap).contains(x) by {
                let (n, j) = choose|n: Seq<char>, j: int|
                    #![trigger table[n].dirs->0@[j]]
                    table.contains_key(n) && !table[n].is_root && table[n].dirs is Some && 0 <= j < table[n].dirs->0@.len()
                        && x == pmap[n] + seq!['/'] + table[n].dirs->0@[j]@;
                let d = table[n].dirs->0@[j]@;
                assert(listed(table[n].dirs)[j]@ == d);
                assert(package_dirs(table[n]).contains(d));
                assert(joined(pmap[n], package_dirs(table[n])).contains(x));
            }
        }
    }
    r
}

/// A name is among a package's dependencies exactly when its pinned,
/// regular or development dependency list names it.
pub proof fn lemma_dependency_names_listed(p: Package, k: Seq<char>)
    ensures
        dependency_names(p).contains(k) == ((p.bsconfig.pinned_dependencies is Some && exists|j: int| 0 <= j < p.bsconfig.pinned_dependencies->0@.len() && #[trigger] p.bsconfig.pinned_dependencies->0@[j]@ == k)
            || (p.bsconfig.bs_dependencies is Some && exists|j: int| 0 <= j < p.bsconfig.bs_dependencies->0@.len() && #[trigger] p.bsconfig.bs_dependencies->0@[j]@ == k)
            || (p.bsconfig.bs_dev_dependencies is Some && exists|j: int| 0 <= j < p.bsconfig.bs_dev_dependencies->0@.len() && #[trigger] p.bsconfig.bs_dev_dependencies->0@[j]@ == k)),
{
    if dependency_names(p).contains(k) {
        if views_of(listed(p.bsconfig.pinned_dependencies)).contains(k) {
            let j = choose|j: int| 0 <= j < listed(p.bsconfig.pinned_dependencies).len() && #[trigger] listed(p.bsconfig.pinned_dependencies)[j]@ == k;
            assert(p.bsconfig.pinned_dependencies->0@[j]@ == k);
        } else if views_of(listed(p.bsconfig.bs_dependencies)).contains(k) {
            let j = choose|j: int| 0 <= j < listed(p.bsconfig.bs_dependencies).len() && #[trigger] listed(p.bsconfig.bs_dependencies)[j]@ == k;
            assert(p.bsconfig.bs_dependencies->0@[j]@ == k);
        } else {
            let j = choose|j: int| 0 <= j < listed(p.bsconfig.bs_dev_dependencies).len() && #[trigger] listed(p.bsconfig.bs_dev_dependencies)[j]@ == k;
            assert(p.bsconfig.bs_dev_dependencies->0@[j]@ == k);
        }
    }
    if p.bsconfig.pinned_dependencies is Some && exists|j: int| 0 <= j < p.bsconfig.pinned_dependencies->0@.len() && #[trigger] p.bsconfig.pinned_dependencies->0@[j]@ == k {
        let j = choose|j: int| 0 <= j < p.bsconfig.pinned_dependencies->0@.len() && #[trigger] p.bsconfig.pinned_dependencies->0@[j]@ == k;
        assert(listed(p.bsconfig.pinned_dependencies)[j]@ == k);
    }
    if p.bsconfig.bs_dependencies is Some && exists|j: int| 0 <= j < p.bsconfig.bs_dependencies->0@.len() && #[trigger] p.bsconfig.bs_dependencies->0@[j]@ == k {
        let j = choose|j: int| 0 <= j < p.bsconfig.bs_dependencies->0@.len() && #[trigger] p.bsconfig.bs_dependencies->0@[j]@ == k;
        assert(listed(p.bsconfig.bs_dependencies)[j]@ == k);
    }
    if p.bsconfig.bs_dev_dependencies is Some && exists|j: int| 0 <= j < p.bsconfig.bs_dev_dependencies->0@.len() && #[trigger] p.bsconfig.bs_dev_dependencies->0@[j]@ == k {
        let j = choose|j: int| 0 <= j < p.bsconfig.bs_dev_dependencies->0@.len() && #[trigger] p.bsconfig.bs_dev_dependencies->0@[j]@ == k;
        assert(listed(p.bsconfig.bs_dev_dependencies)[j]@ == k);
    }
}

/// The root package's dependencies hold a name exactly when it is a package
/// of the build that some non-root package names in its pinned, regular or
/// development dependencies; each comes with that package's directory.
pub proof fn lemma_root_pkgs_listed(table: Map<Seq<char>, Package>, k: Seq<char>)
    ensures
        root_pkgs(table).contains_key(k) == (table.contains_key(k) && exists|n: Seq<char>|
            #![trigger table[n]]
            table.contains_key(n) && !table[n].is_root && ((table[n].bsconfig.pinned_dependencies is Some && exists|j: int| 0 <= j < table[n].bsconfig.pinned_dependencies->0@.len() && #[trigger] table[n].bsconfig.pinned_dependencies->0@[j]@ == k)
            || (table[n].bsconfig.bs_dependencies is Some && exists|j: int| 0 <= j < table[n].bsconfig.bs_dependencies->0@.len() && #[trigger] table[n].bsconfig.bs_dependencies->0@[j]@ == k)
            || (table[n].bsconfig.bs_dev_dependencies is Some && exists|j: int| 0 <= j < table[n].bsconfig.bs_dev_dependencies->0@.len() && #[trigger] table[n].bsconfig.bs_dev_dependencies->0@[j]@ == k))),
        root_pkgs(table).contains_key(k) ==> root_pkgs(table)[k] == table[k].package_dir@,
{
    if root_pkgs(table).contains_key(k) {
        let n = choose|n: Seq<char>| table.contains_key(n) && !table[n].is_root && #[trigger] dependency_names(table[n]).contains(k);
        lemma_dependency_names_listed(table[n], k);
    }
    if table.contains_key(k) && exists|n: Seq<char>|
        #![trigger table[n]]
        table.contains_key(n) && !table[n].is_root && ((table[n].bsconfig.pinned_dependencies is Some && exists|j: int| 0 <= j < table[n].bsconfig.pinned_dependencies->0@.len() && #[trigger] table[n].bsconfig.pinned_dependencies->0@[j]@ == k)
            || (table[n].bsconfig.bs_dependencies is Some && exists|j: int| 0 <= j < table[n].bsconfig.bs_dependencies->0@.len() && #[trigger] table[n].bsconfig.bs_dependencies->0@[j]@ == k)
            || (table[n].bsconfig.bs_dev_dependencies is Some && exists|j: int| 0 <= j < table[n].bsconfig.bs_dev_dependencies->0@.len() && #[trigger] table[n].bsconfig.bs_dev_dependencies->0@[j]@ == k)) {
        let n = choose|n: Seq<char>|
            #![trigger table[n]]
            table.contains_key(n) && !table[n].is_root && ((table[n].bsconfig.pinned_dependencies is Some && exists|j: int| 0 <= j < table[n].bsconfig.pinned_dependencies->0@.len() && #[trigger] table[n].bsconfig.pinned_dependencies->0@[j]@ == k)
            || (table[n].bsconfig.bs_dependencies is Some && exists|j: int| 0 <= j < table[n].bsconfig.bs_dependencies->0@.len() && #[trigger] table[n].bsconfig.bs_dependencies->0@[j]@ == k)
            || (table[n].bsconfig.bs_dev_dependencies is Some && exists|j: int| 0 <= j < table[n].bsconfig.bs_dev_dependencies->0@.len() && #[trigger] table[n].bsconfig.bs_dev_dependencies->0@[j]@ == k));
        lemma_dependency_names_listed(table[n], k);
        assert(root_pkgs(table).contains_key(k));
    }
}

} // verus!
