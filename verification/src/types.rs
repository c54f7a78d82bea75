//! The data a build tracks for each module and package, as plain values.
use vstd::prelude::*;

verus! {

/// How far the compiler got with one source file.
#[derive(Clone, Copy, Debug, PartialEq, Eq, Structural)]
pub enum CompileState {
    Warning,
    Error,
    Success,
    Pending,
}

/// How far the parser got with one source file.
#[derive(Clone, Copy, Debug, PartialEq, Eq, Structural)]
pub enum ParseState {
    Pending,
    ParseError,
    Warning,
    Success,
}

/// The implementation (`.res`) half of a source module.
/// `last_modified` is the modification time in nanoseconds relative to the
/// UNIX epoch (negative before it).
pub struct Implementation {
    pub path: String,
    pub parse_state: ParseState,
    pub compile_state: CompileState,
    pub last_modified: i128,
    pub dirty: bool,
}

/// The interface (`.resi`) half of a source module.
pub struct Interface {
    pub path: String,
    pub parse_state: ParseState,
    pub compile_state: CompileState,
    pub last_modified: i128,
    pub dirty: bool,
}

/// A module written by the user: an implementation and maybe an interface.
pub struct SourceFile {
    pub implementation: Implementation,
    pub interface: Option<Interface>,
}

/// The generated map module of a namespace.
pub struct MlMap {
    pub parse_dirty: bool,
}

pub enum SourceType {
    SourceFile(SourceFile),
    MlMap(MlMap),
}

/// The dependency lists of a package's configuration.
pub struct Config {
    pub pinned_dependencies: Option<Vec<String>>,
    pub bs_dependencies: Option<Vec<String>>,
    pub bs_dev_dependencies: Option<Vec<String>>,
}

/// A package of the build: its name, namespace, where it lives and what it
/// depends on. `dirs` are its source directories, relative to the package.
pub struct Package {
    pub name: String,
    pub namespace: Option<String>,
    pub is_root: bool,
    pub package_dir: String,
    pub dirs: Option<Vec<String>>,
    pub bsconfig: Config,
}

/// A module of the build and the package it belongs to.
pub struct Module {
    pub source_type: SourceType,
    pub package: Package,
}


/// An abstract syntax tree file found in a package's build directory:
/// where it is, the source file it was made from (when that could be read
/// from it), the module it belongs to, the package's name and namespace,
/// and its modification time (nanoseconds relative to the UNIX epoch).
pub struct AstFile {
    pub ast_file_path: String,
    pub res_file_path: Option<String>,
    pub module_name: String,
    pub package_name: String,
    pub package_namespace: Option<String>,
    pub last_modified: i128,
}

/// A copy of an optional string.
pub fn copy_option_string(o: &Option<String>) -> (r: Option<String>)
    ensures
        r == *o,
{
    match o {
        Some(s) => Some(s.clone()),
        None => None,
    }
}

impl AstFile {
    /// A copy of the record.
    pub fn duplicate(&self) -> (r: AstFile)
        ensures
            r == *self,
    {
        AstFile {
            ast_file_path: self.ast_file_path.clone(),
            res_file_path: copy_option_string(&self.res_file_path),
            module_name: self.module_name.clone(),
            package_name: self.package_name.clone(),
            package_namespace: copy_option_string(&self.package_namespace),
            last_modified: self.last_modified,
        }
    }
}

/// A source file whose compiler assets are to be removed, with the package
/// (name and namespace) they were compiled for.
pub struct StaleSource {
    pub source_file: String,
    pub package_name: String,
    pub package_namespace: Option<String>,
}

/// Where a compiler asset of a source file lies: beside the source file,
/// in the package's build directory, or in its `bs` build directory.
#[derive(Clone, Copy, Debug, PartialEq, Eq, Structural)]
pub enum AssetLocation {
    SourceDir,
    Build,
    BsBuild,
}

/// One compiler asset of a source file: the source file, the package it was
/// compiled for, the asset's extension and where it lies.
pub struct Asset {
    pub source_file: String,
    pub package_name: String,
    pub package_namespace: Option<String>,
    pub extension: String,
    pub location: AssetLocation,
}

/// An asset as plain text values.
pub struct AssetView {
    pub source_file: Seq<char>,
    pub package_name: Seq<char>,
    pub package_namespace: Option<Seq<char>>,
    pub extension: Seq<char>,
    pub location: AssetLocation,
}

impl View for Asset {
    type V = AssetView;

    open spec fn view(&self) -> AssetView {
        AssetView {
            source_file: self.source_file@,
            package_name: self.package_name@,
            package_namespace: self.package_namespace.deep_view(),
            extension: self.extension@,
            location: self.location,
        }
    }
}

} // verus!
