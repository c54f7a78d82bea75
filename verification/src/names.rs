//! Reading module names and asset file names.
use vstd::prelude::*;

verus! {

/// The position of the first `-` in `s`, or `s.len()` when there is none.
pub open spec fn first_dash(s: Seq<char>) -> nat
    decreases s.len(),
{
    if s.len() == 0 {
        0
    } else if s[0] == '-' {
        0
    } else {
        1 + first_dash(s.drop_first())
    }
}

/// The namespace a module name carries: module names of a namespaced package
/// read `Module-Namespace`, so it is the text between the first `-` and the
/// next `-` (or the end); a name without `-` carries none.
pub open spec fn spec_namespace_of(name: Seq<char>) -> Option<Seq<char>> {
    if first_dash(name) < name.len() {
        let rest = name.skip(first_dash(name) as int + 1);
        Some(rest.take(first_dash(rest) as int))
    } else {
        None
    }
}

/// What a deleted module name marks as gone: its namespace when it has one,
/// else the name itself.
pub open spec fn spec_deleted_name(name: Seq<char>) -> Seq<char> {
    match spec_namespace_of(name) {
        Some(ns) => ns,
        None => name,
    }
}

/// `first_dash` is the first dash, or the length when there is none.
pub proof fn lemma_first_dash(s: Seq<char>)
    ensures
        first_dash(s) <= s.len(),
        forall|i: int| 0 <= i < first_dash(s) ==> s[i] != '-',
        first_dash(s) < s.len() ==> s[first_dash(s) as int] == '-',
    decreases s.len(),
{
    if s.len() > 0 && s[0] != '-' {
        lemma_first_dash(s.drop_first());
        assert forall|i: int| 0 <= i < first_dash(s) implies s[i] != '-' by {
            if i > 0 {
                assert(s[i] == s.drop_first()[i - 1]);
            }
        }
    }
}

/// Any position that matches what `first_dash` finds is `first_dash`.
proof fn lemma_first_dash_unique(s: Seq<char>, k: int)
    requires
        0 <= k <= s.len(),
        forall|i: int| 0 <= i < k ==> s[i] != '-',
        k < s.len() ==> s[k] == '-',
    ensures
        first_dash(s) == k,
    decreases s.len(),
{
    if s.len() > 0 && s[0] != '-' {
        assert forall|i: int| 0 <= i < k - 1 implies s.drop_first()[i] != '-' by {
            assert(s.drop_first()[i] == s[i + 1]);
        }
        if k - 1 < s.len() - 1 {
            assert(s.drop_first()[k - 1] == s[k]);
        }
        lemma_first_dash_unique(s.drop_first(), k - 1);
    }
}

/// The characters of a string, read in one pass.
fn chars_of(s: &str) -> (r: Vec<char>)
    ensures
        r@ == s@,
{
    broadcast use vstd::string::group_string_axioms;

    let mut r: Vec<char> = Vec::new();
    for c in it: s.chars()
        invariant
            r@ == it.seq().take(it.index() as int),
            it.seq() == s@,
    {
        r.push(c);
    }
    r
}

/// The first `-` of `s` at or after `from`, or the length of `s`.
fn find_dash(s: &Vec<char>, from: usize) -> (r: usize)
    requires
        from <= s@.len(),
    ensures
        from <= r <= s@.len(),
        forall|i: int| from <= i < r ==> s@[i] != '-',
        r < s@.len() ==> s@[r as int] == '-',
{
    let mut i = from;
    while i < s.len()
        invariant
            from <= i <= s@.len(),
            forall|j: int| from <= j < i ==> s@[j] != '-',
        decreases s@.len() - i,
    {
        if s[i] == '-' {
            return i;
        }
        i = i + 1;
    }
    i
}

/// The namespace a module name carries, if any.
pub fn get_namespace_from_module_name(module_name: &str) -> (r: Option<String>)
    ensures
        r is Some == spec_namespace_of(module_name@) is Some,
        r matches Some(ns) ==> ns@ == spec_namespace_of(module_name@)->0,
{
    let ghost s = module_name@;
    let chars = chars_of(module_name);
    let len = chars.len();
    let first = find_dash(&chars, 0);
    proof {
        lemma_first_dash_unique(s, first as int);
    }
    if first == len {
        return None;
    }
    let second = find_dash(&chars, first + 1);
    proof {
        let rest = s.skip(first as int + 1);
        assert forall|i: int| 0 <= i < second - first - 1 implies rest[i] != '-' by {
            assert(rest[i] == s[i + first + 1]);
        }
        if second < len {
            assert(rest[second - first - 1] == s[second as int]);
        }
        lemma_first_dash_unique(rest, second - first - 1);
        assert(rest.take(second - first - 1) =~= s.subrange(first + 1, second as int));
    }
    Some(String::from_str(module_name.substring_char(first + 1, second)))
}

/// The name an interface's abstract syntax tree is stored under ends in
/// `.iast`.
pub open spec fn spec_is_interface_ast_file(path: Seq<char>) -> bool {
    path.len() >= 5 && path.subrange(path.len() - 5, path.len() as int) == seq!['.', 'i', 'a', 's', 't']
}

/// Whether the path names the abstract syntax tree of an interface.
pub fn is_interface_ast_file(path: &str) -> (r: bool)
    ensures
        r == spec_is_interface_ast_file(path@),
{
    let len = path.unicode_len();
    if len < 5 {
        return false;
    }
    let r = path.get_char(len - 5) == '.' && path.get_char(len - 4) == 'i' && path.get_char(len - 3) == 'a'
        && path.get_char(len - 2) == 's' && path.get_char(len - 1) == 't';
    proof {
        let tail = path@.subrange(len - 5, len as int);
        if r {
            assert(tail =~= seq!['.', 'i', 'a', 's', 't']);
        } else if tail == seq!['.', 'i', 'a', 's', 't'] {
            assert(tail[0] == path@[len - 5]);
            assert(tail[1] == path@[len - 4]);
            assert(tail[2] == path@[len - 3]);
            assert(tail[3] == path@[len - 2]);
            assert(tail[4] == path@[len - 1]);
        }
    }
    r
}

/// The file extensions under which abstract syntax trees are stored.
pub open spec fn spec_is_ast_extension(ext: Seq<char>) -> bool {
    ext == seq!['a', 's', 't'] || ext == seq!['i', 'a', 's', 't']
}

/// Whether a file extension is that of an abstract syntax tree
/// (`ast` or `iast`).
pub fn is_ast_extension(ext: &str) -> (r: bool)
    ensures
        r == spec_is_ast_extension(ext@),
{
    let len = ext.unicode_len();
    let r = if len == 3 {
        ext.get_char(0) == 'a' && ext.get_char(1) == 's' && ext.get_char(2) == 't'
    } else if len == 4 {
        ext.get_char(0) == 'i' && ext.get_char(1) == 'a' && ext.get_char(2) == 's' && ext.get_char(3) == 't'
    } else {
        false
    };
    proof {
        let s = ext@;
        if r {
            if len == 3 {
                assert(s =~= seq!['a', 's', 't']);
            } else {
                assert(s =~= seq!['i', 'a', 's', 't']);
            }
        } else {
            if s == seq!['a', 's', 't'] {
                assert(s[0] == 'a' && s[1] == 's' && s[2] == 't');
            }
            if s == seq!['i', 'a', 's', 't'] {
                assert(s[0] == 'i' && s[1] == 'a' && s[2] == 's' && s[3] == 't');
            }
        }
    }
    r
}


/// A name without `-` carries no namespace, and marks itself as deleted;
/// `Module-Namespace` (neither part holding `-`) carries `Namespace`, which
/// is what it marks as deleted.
pub proof fn lemma_namespace_convention(module: Seq<char>, namespace: Seq<char>)
    requires
        forall|i: int| 0 <= i < module.len() ==> module[i] != '-',
        forall|i: int| 0 <= i < namespace.len() ==> namespace[i] != '-',
    ensures
        spec_namespace_of(module) is None,
        spec_deleted_name(module) == module,
        spec_namespace_of(module + seq!['-'] + namespace) == Some(namespace),
        spec_deleted_name(module + seq!['-'] + namespace) == namespace,
{
    lemma_first_dash_unique(module, module.len() as int);
    let name = module + seq!['-'] + namespace;
    assert forall|i: int| 0 <= i < module.len() implies name[i] != '-' by {
        assert(name[i] == module[i]);
    }
    lemma_first_dash_unique(name, module.len() as int);
    let rest = name.skip(module.len() as int + 1);
    assert(rest =~= namespace);
    lemma_first_dash_unique(rest, namespace.len() as int);
    assert(rest.take(namespace.len() as int) =~= namespace);
}

} // verus!
