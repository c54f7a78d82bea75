# rewatch (cleaning and build summaries)

A verified library for the bookkeeping of a ReScript build:

- `clean`: which compiler assets of a previous build are stale, which
  modules can skip recompilation because their abstract syntax trees are
  newer than their sources, which module names are gone, and which trees must
  be removed after a build because their module did not compile.
- `sourcedirs`, `sourcefiles`: the contents of the `.sourcedirs.json` and
  `.sourcefiles.json` files of each package and of the root package.
- `names`: reading namespaces out of module names and recognising abstract
  syntax tree files.
- `collections`: the `ahash` maps and sets the build keeps, with contracts
  for the methods used.
- `types`: modules, packages and assets as plain values.

Every function in `src/` is verified with Verus against its contract,
except the wrappers in `collections.rs`: those are trusted (their bodies make
one `ahash` call and are not verified), and their contracts restate what
`std`'s `HashMap`/`HashSet` document. The lemmas stated as public proof
functions are the library's laws.

`app/` holds what touches the file system: it scans build directories,
removes the assets the library lists, and writes the JSON summaries. The
path layout of the build tree is supplied by the embedding tool through the
`BuildLayout` trait.
