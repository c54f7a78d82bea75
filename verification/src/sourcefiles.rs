//! The `.sourcefiles.json` summary of a build: one file per package that is
//! not the root, and one for the root that gathers theirs.
use vstd::prelude::*;
use ahash::AHashMap;
use crate::collections::{
    lists_packages, package_table, package_table_entries, string_table, string_table_insert, string_table_new,
};
use crate::sourcedirs::{add_all_pairs, find_root_package, has_root, lists_pairs, table_to_vec};
use crate::types::Package;

verus! {

/// The contents of a `.sourcefiles.json` file: directories, sub-directories
/// by package, and generated files.
pub struct SourceFiles {
    pub dirs: Vec<String>,
    pub subdirs: Vec<(String, String)>,
    pub generated: Vec<String>,
}

/// The file lists nothing.
pub open spec fn is_empty_listing(f: SourceFiles) -> bool {
    f.dirs@.len() == 0 && f.subdirs@.len() == 0 && f.generated@.len() == 0
}

/// What a list of pairs gives when inserted into a map in order.
pub open spec fn pairs_map(pairs: Seq<(String, String)>) -> Map<Seq<char>, Seq<char>>
    decreases pairs.len(),
{
    if pairs.len() == 0 {
        Map::empty()
    } else {
        pairs_map(pairs.drop_last()).insert(pairs.last().0@, pairs.last().1@)
    }
}

/// The directories of every package, in order, each under its package's
/// path and a `/`.
pub open spec fn prefixed_dirs(children: Seq<(&String, Vec<String>, AHashMap<String, String>)>) -> Seq<Seq<char>>
    decreases children.len(),
{
    if children.len() == 0 {
        Seq::empty()
    } else {
        let last = children.last();
        prefixed_dirs(children.drop_last()) + last.1@.map_values(|d: String| last.0@ + seq!['/'] + d@)
    }
}

/// The sub-directories of every package; a later package's entry for a name
/// replaces an earlier one.
pub open spec fn merged_subdirs(children: Seq<(&String, Vec<String>, AHashMap<String, String>)>) -> Map<Seq<char>, Seq<char>>
    decreases children.len(),
{
    if children.len() == 0 {
        Map::empty()
    } else {
        merged_subdirs(children.drop_last()).union_prefer_right(string_table(children.last().2))
    }
}

/// A map of the pairs, a later pair replacing an earlier one with its name.
fn pairs_to_table(pairs: &Vec<(String, String)>) -> (r: AHashMap<String, String>)
    ensures
        string_table(r) == pairs_map(pairs@),
{
    let mut r = string_table_new();
    proof {
        assert(string_table(r) =~= pairs_map(pairs@.take(0)));
    }
    let mut i: usize = 0;
    while i < pairs.len()
        invariant
            i <= pairs.len(),
            string_table(r) == pairs_map(pairs@.take(i as int)),
        decreases pairs.len() - i,
    {
        let (k, v) = &pairs[i];
        let _ = string_table_insert(&mut r, k.clone(), v.clone());
        proof {
            assert(pairs@.take(i + 1).drop_last() =~= pairs@.take(i as int));
            assert(pairs@.take(i + 1).last() == pairs@[i as int]);
        }
        i = i + 1;
    }
    proof {
        assert(pairs@.take(pairs.len() as int) =~= pairs@);
    }
    r
}

/// The root package's file: every package's directories under its path, in
/// order, and all their sub-directories.
pub fn root_source_files(children: &Vec<(&String, Vec<String>, AHashMap<String, String>)>) -> (r: SourceFiles)
    ensures
        r.dirs@.map_values(|d: String| d@) == prefixed_dirs(children@),
        lists_pairs(r.subdirs@, merged_subdirs(children@)),
        r.generated@.len() == 0,
{
    proof {
        reveal_strlit("/");
        assert("/"@ =~= seq!['/']);
    }
    let mut all_dirs: Vec<String> = Vec::new();
    let mut all_subdirs = string_table_new();
    proof {
        assert(all_dirs@.map_values(|d: String| d@) =~= prefixed_dirs(children@.take(0)));
        assert(string_table(all_subdirs) =~= merged_subdirs(children@.take(0)));
    }
    let mut i: usize = 0;
    while i < children.len()
        invariant
            i <= children.len(),
            "/"@ == seq!['/'],
            all_dirs@.map_values(|d: String| d@) == prefixed_dirs(children@.take(i as int)),
            string_table(all_subdirs) == merged_subdirs(children@.take(i as int)),
        decreases children.len() - i,
    {
        let (package_path, dirs, subdirs) = &children[i];
        let ghost start = all_dirs@.map_values(|d: String| d@);
        let mut j: usize = 0;
        while j < dirs.len()
            invariant
                j <= dirs.len(),
                "/"@ == seq!['/'],
                all_dirs@.map_values(|d: String| d@) == start + dirs@.take(j as int).map_values(
                    |d: String| package_path@ + seq!['/'] + d@,
                ),
            decreases dirs.len() - j,
        {
            let ghost before = all_dirs@;
            let mut entry = (*package_path).clone();
            entry.append("/");
            entry.append(dirs[j].as_str());
            assert(entry@ == package_path@ + seq!['/'] + dirs@[j as int]@);
            all_dirs.push(entry);
            proof {
                assert(all_dirs@.map_values(|d: String| d@) =~= before.map_values(|d: String| d@).push(
                    package_path@ + seq!['/'] + dirs@[j as int]@,
                ));
                assert(dirs@.take(j + 1).map_values(|d: String| package_path@ + seq!['/'] + d@) =~= dirs@.take(j as int).map_values(
                    |d: String| package_path@ + seq!['/'] + d@,
                ).push(package_path@ + seq!['/'] + dirs@[j as int]@));
                assert(all_dirs@.map_values(|d: String| d@) =~= start + dirs@.take(j + 1).map_values(
                    |d: String| package_path@ + seq!['/'] + d@,
                ));
            }
            j = j + 1;
        }
        add_all_pairs(&mut all_subdirs, subdirs);
        proof {
            assert(dirs@.take(dirs.len() as int) =~= dirs@);
            assert(children@.take(i + 1).drop_last() =~= children@.take(i as int));
            assert(children@.take(i + 1).last() == children@[i as int]);
        }
        i = i + 1;
    }
    proof {
        assert(children@.take(children.len() as int) =~= children@);
    }
    SourceFiles { dirs: all_dirs, subdirs: table_to_vec(&all_subdirs), generated: Vec::new() }
}

/// The list holds each package of the build that is not the root once, by
/// name, with an empty file.
pub open spec fn lists_children(v: Seq<(&String, &Package, SourceFiles)>, table: Map<Seq<char>, Package>) -> bool {
    &&& forall|i: int, j: int| 0 <= i < v.len() && 0 <= j < v.len() && i != j ==> v[i].0@ != v[j].0@
    &&& forall|i: int|
        #![trigger v[i]]
        0 <= i < v.len() ==> {
            &&& table.contains_key(v[i].0@)
            &&& table[v[i].0@] == *v[i].1
            &&& !v[i].1.is_root
            &&& is_empty_listing(v[i].2)
        }
    &&& forall|k: Seq<char>| table.contains_key(k) && !table[k].is_root ==> exists|i: int| 0 <= i < v.len() && #[trigger] v[i].0@ == k
}

/// What the `.sourcefiles.json` files of a build hold: the root package (by
/// name), an empty file for every other package, and the root's file, which
/// gathers theirs and so is empty too. A build without a root package has no
/// such files.
pub fn print(packages: &AHashMap<String, Package>) -> (r: (&String, &Package, Vec<(&String, &Package, SourceFiles)>, SourceFiles))
    requires
        has_root(package_table(*packages)),
    ensures
        package_table(*packages).contains_key(r.0@),
        package_table(*packages)[r.0@] == *r.1,
        r.1.is_root,
        lists_children(r.2@, package_table(*packages)),
        is_empty_listing(r.3),
{
    let ghost table = package_table(*packages);
    let (name, package) = find_root_package(packages).unwrap();
    let entries = package_table_entries(packages);
    let mut children: Vec<(&String, &Package, SourceFiles)> = Vec::new();
    let mut grouped: Vec<(&String, Vec<String>, AHashMap<String, String>)> = Vec::new();
    let mut i: usize = 0;
    while i < entries.len()
        invariant
            i <= entries.len(),
            lists_packages(entries@, table),
            table == package_table(*packages),
            forall|a: int| 0 <= a < grouped@.len() ==> (#[trigger] grouped@[a]).1@.len() == 0 && string_table(grouped@[a].2).dom()
                =~= Set::<Seq<char>>::empty(),
            forall|a: int, b: int| 0 <= a < children@.len() && 0 <= b < children@.len() && a != b ==> children@[a].0@ != children@[b].0@,
            forall|a: int|
                #![trigger children@[a]]
                0 <= a < children@.len() ==> {
                    &&& table.contains_key(children@[a].0@)
                    &&& table[children@[a].0@] == *children@[a].1
                    &&& !children@[a].1.is_root
                    &&& is_empty_listing(children@[a].2)
                    &&& exists|b: int| 0 <= b < i && #[trigger] entries@[b].0@ == children@[a].0@
                },
            forall|b: int|
                #![trigger entries@[b]]
                0 <= b < i && !entries@[b].1.is_root ==> exists|a: int| 0 <= a < children@.len() && #[trigger] children@[a].0@ == entries@[b].0@,
        decreases entries.len() - i,
    {
        let (child_name, child) = entries[i];
        let ghost old_children = children@;
        if !child.is_root {
            let dirs: Vec<String> = Vec::new();
            let subdirs: Vec<(String, String)> = Vec::new();
            let file = SourceFiles { dirs: Vec::new(), subdirs: Vec::new(), generated: Vec::new() };
            let subdir_table = pairs_to_table(&subdirs);
            proof {
                assert(string_table(subdir_table).dom() =~= Set::<Seq<char>>::empty());
            }
            grouped.push((&child.package_dir, dirs, subdir_table));
            children.push((child_name, child, file));
            proof {
                assert forall|a: int| 0 <= a < old_children.len() implies old_children[a].0@ != child_name@ by {
                    let b = choose|b: int| 0 <= b < i && #[trigger] entries@[b].0@ == old_children[a].0@;
                    assert(children@[a] == old_children[a]);
                }
                assert(children@[children@.len() - 1].0@ == entries@[i as int].0@);
            }
        }
        proof {
            assert forall|b: int|
                #![trigger entries@[b]]
                0 <= b < i + 1 && !entries@[b].1.is_root implies exists|a: int| 0 <= a < children@.len() && #[trigger] children@[a].0@ == entries@[b].0@ by {
                if b < i {
                    let a = choose|a: int| 0 <= a < old_children.len() && #[trigger] old_children[a].0@ == entries@[b].0@;
                    assert(children@[a] == old_children[a]);
                } else {
                    assert(children@[children@.len() - 1].0@ == entries@[b].0@);
                }
            }
        }
        i = i + 1;
    }
    proof {
        assert forall|k: Seq<char>| table.contains_key(k) && !table[k].is_root implies exists|a: int|
            0 <= a < children@.len() && #[trigger] children@[a].0@ == k by {
            let b = choose|b: int| 0 <= b < entries@.len() && #[trigger] entries@[b].0@ == k;
            assert(*entries@[b].1 == table[k]);
        }
        lemma_empty_children(grouped@);
    }
    let root = root_source_files(&grouped);
    proof {
        assert(root.dirs@.len() == root.dirs@.map_values(|d: String| d@).len());
        if root.subdirs@.len() > 0 {
            assert(merged_subdirs(grouped@).contains_key(root.subdirs@[0].0@));
        }
    }
    (name, package, children, root)
}

/// Packages with no directories and no sub-directories give the root none.
proof fn lemma_empty_children(children: Seq<(&String, Vec<String>, AHashMap<String, String>)>)
    requires
        forall|a: int| 0 <= a < children.len() ==> (#[trigger] children[a]).1@.len() == 0 && string_table(children[a].2).dom()
            =~= Set::<Seq<char>>::empty(),
    ensures
        prefixed_dirs(children).len() == 0,
        merged_subdirs(children).dom() =~= Set::<Seq<char>>::empty(),
    decreases children.len(),
{
    if children.len() > 0 {
        let rest = children.drop_last();
        assert forall|a: int| 0 <= a < rest.len() implies (#[trigger] rest[a]).1@.len() == 0 && string_table(rest[a].2).dom()
            =~= Set::<Seq<char>>::empty() by {
            assert(rest[a] == children[a]);
        }
        lemma_empty_children(rest);
        assert(children.last() == children[children.len() - 1]);
    }
}

} // verus!
