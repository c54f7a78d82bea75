//! The hash collections of `ahash` as the build uses them. Each collection
//! type that the build keeps has a name for what it holds, and each method
//! the build calls has a wrapper whose contract says what the method does to
//! that content, as `std`'s `HashSet`/`HashMap` (which `ahash` derefs to)
//! document it. Iteration order depends on a per-process random seed, so no
//! contract here says anything about order.
use vstd::prelude::*;
use ahash::{AHashMap, AHashSet, RandomState};
use crate::types::{AstFile, Module, Package};

verus! {

#[verifier::external_type_specification]
#[verifier::external_body]
pub struct ExRandomState(RandomState);

#[verifier::external_type_specification]
#[verifier::external_body]
#[verifier::reject_recursive_types(T)]
#[verifier::reject_recursive_types(S)]
pub struct ExAHashSet<T, S>(AHashSet<T, S>);

#[verifier::external_type_specification]
#[verifier::external_body]
#[verifier::reject_recursive_types(K)]
#[verifier::reject_recursive_types(V)]
#[verifier::reject_recursive_types(S)]
pub struct ExAHashMap<K, V, S>(AHashMap<K, V, S>);

/// The strings an `AHashSet<String>` holds, each taken by its characters.
pub uninterp spec fn string_set(s: AHashSet<String>) -> Set<Seq<char>>;

/// No two entries of the sequence hold the same string.
pub open spec fn distinct_views(v: Seq<&String>) -> bool {
    forall|i: int, j: int| 0 <= i < v.len() && 0 <= j < v.len() && i != j ==> v[i]@ != v[j]@
}

/// The sequence lists exactly the strings of `s`, each once.
pub open spec fn lists_exactly(v: Seq<&String>, s: Set<Seq<char>>) -> bool {
    &&& distinct_views(v)
    &&& forall|i: int| 0 <= i < v.len() ==> s.contains(#[trigger] v[i]@)
    &&& forall|x: Seq<char>| s.contains(x) ==> exists|i: int| 0 <= i < v.len() && #[trigger] v[i]@ == x
}

/// `AHashSet::new`: an empty set.
#[verifier::external_body]
pub(crate) fn string_set_new() -> (r: AHashSet<String>)
    ensures
        string_set(r) == Set::<Seq<char>>::empty(),
{
    AHashSet::new()
}

/// `HashSet::insert` through `AHashSet`'s deref: adds the string, and says
/// whether it was absent before.
#[verifier::external_body]
pub(crate) fn string_set_insert(s: &mut AHashSet<String>, v: String) -> (r: bool)
    ensures
        string_set(*final(s)) == string_set(*old(s)).insert(v@),
        r == !string_set(*old(s)).contains(v@),
{
    s.insert(v)
}

/// `HashSet::contains` through `AHashSet`'s deref.
#[verifier::external_body]
pub(crate) fn string_set_contains(s: &AHashSet<String>, v: &String) -> (r: bool)
    ensures
        r == string_set(*s).contains(v@),
{
    s.contains(v)
}

/// `HashSet::len` through `AHashSet`'s deref: the number of strings held.
#[verifier::external_body]
pub(crate) fn string_set_len(s: &AHashSet<String>) -> (r: usize)
    ensures
        r == string_set(*s).len(),
{
    s.len()
}

/// `HashSet::iter` collected: every string of the set, once each.
#[verifier::external_body]
pub(crate) fn string_set_items(s: &AHashSet<String>) -> (r: Vec<&String>)
    ensures
        lists_exactly(r@, string_set(*s)),
{
    s.iter().collect()
}

/// `HashSet::difference` collected: the strings of `a` that `b` lacks, once
/// each.
#[verifier::external_body]
pub(crate) fn string_set_difference<'a>(a: &'a AHashSet<String>, b: &'a AHashSet<String>) -> (r: Vec<&'a String>)
    ensures
        lists_exactly(r@, string_set(*a).difference(string_set(*b))),
{
    a.difference(b).collect()
}

/// `HashSet::intersection` collected: the strings of `a` that `b` has too,
/// once each.
#[verifier::external_body]
pub(crate) fn string_set_intersection<'a>(a: &'a AHashSet<String>, b: &'a AHashSet<String>) -> (r: Vec<&'a String>)
    ensures
        lists_exactly(r@, string_set(*a).intersect(string_set(*b))),
{
    a.intersection(b).collect()
}


/// The modules an `AHashMap<String, Module>` holds, keyed by the characters
/// of their names.
pub uninterp spec fn module_table(m: AHashMap<String, Module>) -> Map<Seq<char>, Module>;

/// The entries list exactly the key/value pairs of `m`, each key once.
pub open spec fn lists_modules(v: Seq<(&String, &Module)>, m: Map<Seq<char>, Module>) -> bool {
    &&& forall|i: int, j: int| 0 <= i < v.len() && 0 <= j < v.len() && i != j ==> v[i].0@ != v[j].0@
    &&& forall|i: int| 0 <= i < v.len() ==> m.contains_key(#[trigger] v[i].0@) && m[v[i].0@] == *v[i].1
    &&& forall|k: Seq<char>| m.contains_key(k) ==> exists|i: int| 0 <= i < v.len() && #[trigger] v[i].0@ == k
}

/// `AHashMap::get`: the module under the name, if any.
#[verifier::external_body]
pub(crate) fn module_table_get<'a>(m: &'a AHashMap<String, Module>, k: &String) -> (r: Option<&'a Module>)
    ensures
        r is Some == module_table(*m).contains_key(k@),
        r matches Some(v) ==> *v == module_table(*m)[k@],
{
    m.get(k)
}

/// `AHashMap::get_mut`: a mutable reference to the module under the name,
/// if any; what is written through it is what the map holds afterwards.
#[verifier::external_body]
pub(crate) fn module_table_get_mut<'a>(m: &'a mut AHashMap<String, Module>, k: &String) -> (r: Option<&'a mut Module>)
    ensures
        r is Some == module_table(*old(m)).contains_key(k@),
        r matches Some(v) ==> *v == module_table(*old(m))[k@]
            && module_table(*final(m)) == module_table(*old(m)).insert(k@, *final(v)),
        r is None ==> module_table(*final(m)) == module_table(*old(m)),
{
    m.get_mut(k)
}

/// `HashMap::iter` collected: every name/module pair, each name once.
#[verifier::external_body]
pub(crate) fn module_table_entries(m: &AHashMap<String, Module>) -> (r: Vec<(&String, &Module)>)
    ensures
        lists_modules(r@, module_table(*m)),
{
    m.iter().collect()
}


/// The abstract syntax tree files an `AHashMap<String, AstFile>` holds,
/// keyed by the characters of their source file's path.
pub uninterp spec fn ast_table(m: AHashMap<String, AstFile>) -> Map<Seq<char>, AstFile>;

/// The entries list exactly the key/value pairs of `m`, each key once.
pub open spec fn lists_ast_files(v: Seq<(&String, &AstFile)>, m: Map<Seq<char>, AstFile>) -> bool {
    &&& forall|i: int, j: int| 0 <= i < v.len() && 0 <= j < v.len() && i != j ==> v[i].0@ != v[j].0@
    &&& forall|i: int| 0 <= i < v.len() ==> m.contains_key(#[trigger] v[i].0@) && m[v[i].0@] == *v[i].1
    &&& forall|k: Seq<char>| m.contains_key(k) ==> exists|i: int| 0 <= i < v.len() && #[trigger] v[i].0@ == k
}

/// `AHashMap::new`: an empty map.
#[verifier::external_body]
pub(crate) fn ast_table_new() -> (r: AHashMap<String, AstFile>)
    ensures
        ast_table(r).dom() == Set::<Seq<char>>::empty(),
{
    AHashMap::new()
}

/// `AHashMap::insert`: the key now maps to the value, replacing what it
/// mapped to before, which is returned; the other keys keep theirs.
#[verifier::external_body]
pub(crate) fn ast_table_insert(m: &mut AHashMap<String, AstFile>, k: String, v: AstFile) -> (r: Option<AstFile>)
    ensures
        ast_table(*final(m)) == ast_table(*old(m)).insert(k@, v),
        r is Some == ast_table(*old(m)).contains_key(k@),
        r matches Some(prev) ==> prev == ast_table(*old(m))[k@],
{
    m.insert(k, v)
}

/// `AHashMap::get`: the file under the key, if any.
#[verifier::external_body]
pub(crate) fn ast_table_get<'a>(m: &'a AHashMap<String, AstFile>, k: &String) -> (r: Option<&'a AstFile>)
    ensures
        r is Some == ast_table(*m).contains_key(k@),
        r matches Some(v) ==> *v == ast_table(*m)[k@],
{
    m.get(k)
}

/// `HashMap::iter` collected: every key/file pair, each key once.
#[verifier::external_body]
pub(crate) fn ast_table_entries(m: &AHashMap<String, AstFile>) -> (r: Vec<(&String, &AstFile)>)
    ensures
        lists_ast_files(r@, ast_table(*m)),
{
    m.iter().collect()
}


/// The packages an `AHashMap<String, Package>` holds, keyed by the
/// characters of their names.
pub uninterp spec fn package_table(m: AHashMap<String, Package>) -> Map<Seq<char>, Package>;

/// The entries list exactly the key/value pairs of `m`, each key once.
pub open spec fn lists_packages(v: Seq<(&String, &Package)>, m: Map<Seq<char>, Package>) -> bool {
    &&& forall|i: int, j: int| 0 <= i < v.len() && 0 <= j < v.len() && i != j ==> v[i].0@ != v[j].0@
    &&& forall|i: int| 0 <= i < v.len() ==> m.contains_key(#[trigger] v[i].0@) && m[v[i].0@] == *v[i].1
    &&& forall|k: Seq<char>| m.contains_key(k) ==> exists|i: int| 0 <= i < v.len() && #[trigger] v[i].0@ == k
}

/// `AHashMap::get`: the package under the name, if any.
#[verifier::external_body]
pub(crate) fn package_table_get<'a>(m: &'a AHashMap<String, Package>, k: &String) -> (r: Option<&'a Package>)
    ensures
        r is Some == package_table(*m).contains_key(k@),
        r matches Some(v) ==> *v == package_table(*m)[k@],
{
    m.get(k)
}

/// `HashMap::iter` collected: every name/package pair, each name once.
#[verifier::external_body]
pub(crate) fn package_table_entries(m: &AHashMap<String, Package>) -> (r: Vec<(&String, &Package)>)
    ensures
        lists_packages(r@, package_table(*m)),
{
    m.iter().collect()
}

/// The pairs an `AHashMap<String, String>` holds, keys and values taken by
/// their characters.
pub uninterp spec fn string_table(m: AHashMap<String, String>) -> Map<Seq<char>, Seq<char>>;

/// The entries list exactly the key/value pairs of `m`, each key once.
pub open spec fn lists_string_pairs(v: Seq<(&String, &String)>, m: Map<Seq<char>, Seq<char>>) -> bool {
    &&& forall|i: int, j: int| 0 <= i < v.len() && 0 <= j < v.len() && i != j ==> v[i].0@ != v[j].0@
    &&& forall|i: int| 0 <= i < v.len() ==> m.contains_key(#[trigger] v[i].0@) && m[v[i].0@] == v[i].1@
    &&& forall|k: Seq<char>| m.contains_key(k) ==> exists|i: int| 0 <= i < v.len() && #[trigger] v[i].0@ == k
}

/// `AHashMap::new`: an empty map.
#[verifier::external_body]
pub(crate) fn string_table_new() -> (r: AHashMap<String, String>)
    ensures
        string_table(r).dom() == Set::<Seq<char>>::empty(),
{
    AHashMap::new()
}

/// `AHashMap::insert`: the key now maps to the value, replacing what it
/// mapped to before, which is returned; the other keys keep theirs.
#[verifier::external_body]
pub(crate) fn string_table_insert(m: &mut AHashMap<String, String>, k: String, v: String) -> (r: Option<String>)
    ensures
        string_table(*final(m)) == string_table(*old(m)).insert(k@, v@),
        r is Some == string_table(*old(m)).contains_key(k@),
        r matches Some(prev) ==> prev@ == string_table(*old(m))[k@],
{
    m.insert(k, v)
}

/// `AHashMap::get`: the value under the key, if any.
#[verifier::external_body]
pub(crate) fn string_table_get<'a>(m: &'a AHashMap<String, String>, k: &String) -> (r: Option<&'a String>)
    ensures
        r is Some == string_table(*m).contains_key(k@),
        r matches Some(v) ==> v@ == string_table(*m)[k@],
{
    m.get(k)
}

/// `HashMap::iter` collected: every key/value pair, each key once.
#[verifier::external_body]
pub(crate) fn string_table_entries(m: &AHashMap<String, String>) -> (r: Vec<(&String, &String)>)
    ensures
        lists_string_pairs(r@, string_table(*m)),
{
    m.iter().collect()
}

} // verus!
