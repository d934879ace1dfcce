//! The manifest of an npm package, `package.json`.

use indexmap::IndexMap;
use vstd::prelude::*;

use crate::address::{joined_url, on_registry, package_page, package_reference};
use crate::bin::{
    all_nameable, check_commands, command_fails, commands_become, commands_become_one_way,
    create_npm_bin,
};
use crate::convert::{names_all, names_one_way, rewrites_all, rewrites_one_way};
use crate::dependencies::{
    create_npm_dependencies, dependencies_become, dependencies_become_one_way, dependency_fails,
    named_or_failed, DependencyKind, PackageReq,
};
use crate::emit::PackageVersion;
use crate::error::{ErrorView, NpmTarballError};
use crate::exports::{create_npm_exports, exports_become, exports_become_one_way, ExportsMap};
use crate::maps::text_entries;
use crate::source::{ParsedSource, ParsedSourceStore};
use crate::text::result_text;

verus! {

/// A package of the registry, by which its npm name is known.
#[derive(Debug)]
pub struct NpmMappedJsrPackageName {
    pub scope: String,
    pub package: String,
}

/// The manifest of an npm package.
pub struct NpmPackageJson {
    pub name: NpmMappedJsrPackageName,
    pub version: String,
    /// The address of the page of the package.
    pub homepage: String,
    /// How code is loaded.
    pub module_type: String,
    pub exports: IndexMap<String, String>,
    pub dependencies: IndexMap<String, String>,
    /// The commands that the package offers.
    pub bin: IndexMap<String, String>,
    /// Which way of packing the package was packed in.
    pub revision: u32,
}

/// A manifest by its texts.
pub struct ManifestView {
    pub scope: Seq<char>,
    pub package: Seq<char>,
    pub version: Seq<char>,
    pub homepage: Seq<char>,
    pub module_type: Seq<char>,
    pub exports: Seq<(Seq<char>, Seq<char>)>,
    pub dependencies: Seq<(Seq<char>, Seq<char>)>,
    pub bin: Seq<(Seq<char>, Seq<char>)>,
    pub revision: u32,
}

impl View for NpmPackageJson {
    type V = ManifestView;

    open spec fn view(&self) -> ManifestView {
        ManifestView {
            scope: self.name.scope@,
            package: self.name.package@,
            version: self.version@,
            homepage: self.homepage@,
            module_type: self.module_type@,
            exports: text_entries(self.exports),
            dependencies: text_entries(self.dependencies),
            bin: text_entries(self.bin),
            revision: self.revision,
        }
    }
}

/// Whether a writer of manifests accepts every manifest.
pub open spec fn writes_all<J: Fn(&NpmPackageJson) -> Result<String, String>>(to_json: J) -> bool {
    forall|manifest: &NpmPackageJson| #[trigger] call_requires(to_json, (manifest,))
}

/// Whether `to_json` may answer `answer` when asked to write a manifest down: the text, or why it
/// cannot be written.
pub open spec fn writes<J: Fn(&NpmPackageJson) -> Result<String, String>>(
    to_json: J,
    manifest: ManifestView,
    answer: Result<Seq<char>, Seq<char>>,
) -> bool {
    exists|m: &NpmPackageJson, r: Result<String, String>|
        m@ == manifest && #[trigger] call_ensures(to_json, (m,), r) && result_text(r) == answer
}

/// Whether `to_json` has one answer about each manifest.
pub open spec fn writes_one_way<J: Fn(&NpmPackageJson) -> Result<String, String>>(
    to_json: J,
) -> bool {
    forall|
        m: ManifestView,
        a: Result<Seq<char>, Seq<char>>,
        b: Result<Seq<char>, Seq<char>>,
    | #[trigger]
        writes(to_json, m, a) && #[trigger] writes(to_json, m, b) ==> a == b
}

/// Asks `to_json` to write a manifest down.
pub fn write_with<J: Fn(&NpmPackageJson) -> Result<String, String>>(
    to_json: &J,
    manifest: &NpmPackageJson,
) -> (r: Result<String, String>)
    requires
        writes_all(*to_json),
    ensures
        writes(*to_json, manifest@, result_text(r)),
{
    let r = to_json(manifest);
    assert(call_ensures(*to_json, (manifest,), r));
    r
}

/// The address of the page of a package.
pub open spec fn homepage(package: PackageVersion) -> Option<Seq<char>> {
    joined_url(package.registry_url@, package_reference(package.scope@, package.package@))
}

/// Whether `manifest` is what the manifest of a package may be.
pub open spec fn described<
    R: Fn(&str) -> Option<String>,
    N: Fn(&str) -> Result<String, String>,
>(
    rewrite: R,
    npm_name: N,
    package: PackageVersion,
    exports: Seq<(Seq<char>, Seq<char>)>,
    dependencies: Seq<(DependencyKind, PackageReq)>,
    sources: Seq<ParsedSource>,
    revision: u32,
    manifest: ManifestView,
) -> bool {
    &&& manifest.scope == package.scope@
    &&& manifest.package == package.package@
    &&& manifest.version == package.version@
    &&& homepage(package) == Some(manifest.homepage)
    &&& manifest.module_type == "module"@
    &&& exports_become(rewrite, exports, manifest.exports)
    &&& dependencies_become(npm_name, dependencies, manifest.dependencies)
    &&& commands_become(rewrite, package.package@, exports, sources, manifest.bin)
    &&& manifest.revision == revision
}

/// Whether the manifest of a package may fail with `error`: the page of the package has no address,
/// a dependency has no valid name, or a command has no name.
pub open spec fn undescribed<N: Fn(&str) -> Result<String, String>>(
    npm_name: N,
    package: PackageVersion,
    exports: Seq<(Seq<char>, Seq<char>)>,
    dependencies: Seq<(DependencyKind, PackageReq)>,
    sources: Seq<ParsedSource>,
    error: ErrorView,
) -> bool {
    if homepage(package) is None {
        error == (ErrorView::InvalidUrl {
            reference: package_reference(package.scope@, package.package@),
        })
    } else {
        ||| dependency_fails(npm_name, dependencies, error)
        ||| {
            &&& exists|entries: Seq<(Seq<char>, Seq<char>)>| #[trigger]
                dependencies_become(npm_name, dependencies, entries)
            &&& command_fails(package.package@, exports, sources, error)
        }
    }
}

/// The manifest of a package.
pub fn create_package_json<
    R: Fn(&str) -> Option<String>,
    N: Fn(&str) -> Result<String, String>,
>(
    package: &PackageVersion,
    exports: &ExportsMap,
    dependencies: &Vec<(DependencyKind, PackageReq)>,
    sources: &ParsedSourceStore,
    revision: u32,
    rewrite: &R,
    npm_name: &N,
) -> (r: Result<NpmPackageJson, NpmTarballError>)
    requires
        rewrites_all(*rewrite),
        names_all(*npm_name),
    ensures
        match r {
            Ok(manifest) => {
                &&& described(
                    *rewrite,
                    *npm_name,
                    *package,
                    exports@,
                    dependencies@,
                    sources.sources@,
                    revision,
                    manifest@,
                )
                &&& all_nameable(package.package@, exports@, sources.sources@)
            },
            Err(e) => undescribed(
                *npm_name,
                *package,
                exports@,
                dependencies@,
                sources.sources@,
                e@,
            ),
        },
{
    let reference = package_page(package.scope, package.package);
    let homepage = match on_registry(package.registry_url, reference.as_str()) {
        Some(homepage) => homepage,
        None => {
            return Err(NpmTarballError::InvalidUrl { reference });
        },
    };
    let npm_exports = create_npm_exports(exports, rewrite);
    let npm_dependencies = match create_npm_dependencies(dependencies, npm_name) {
        Ok(npm_dependencies) => npm_dependencies,
        Err(e) => {
            return Err(e);
        },
    };
    match check_commands(package.package, exports, sources) {
        Ok(_) => {},
        Err(e) => {
            return Err(e);
        },
    }
    let npm_bin = create_npm_bin(package.package, exports, sources, rewrite);
    Ok(
        NpmPackageJson {
            name: NpmMappedJsrPackageName {
                scope: package.scope.to_owned(),
                package: package.package.to_owned(),
            },
            version: package.version.to_owned(),
            homepage,
            module_type: "module".to_owned(),
            exports: npm_exports,
            dependencies: npm_dependencies,
            bin: npm_bin,
            revision,
        },
    )
}

/// Where files and names are answered one way, there is one manifest.
pub proof fn described_one_way<
    R: Fn(&str) -> Option<String>,
    N: Fn(&str) -> Result<String, String>,
>(
    rewrite: R,
    npm_name: N,
    package: PackageVersion,
    exports: Seq<(Seq<char>, Seq<char>)>,
    dependencies: Seq<(DependencyKind, PackageReq)>,
    sources: Seq<ParsedSource>,
    revision: u32,
    a: ManifestView,
    b: ManifestView,
)
    requires
        rewrites_one_way(rewrite),
        names_one_way(npm_name),
        described(rewrite, npm_name, package, exports, dependencies, sources, revision, a),
        described(rewrite, npm_name, package, exports, dependencies, sources, revision, b),
    ensures
        a == b,
{
    exports_become_one_way(rewrite, exports, a.exports, b.exports);
    dependencies_become_one_way(npm_name, dependencies, a.dependencies, b.dependencies);
    commands_become_one_way(rewrite, package.package@, exports, sources, a.bin, b.bin);
}

/// Where names are answered one way, there is a manifest or a failure, not both.
pub proof fn described_or_failed<
    R: Fn(&str) -> Option<String>,
    N: Fn(&str) -> Result<String, String>,
>(
    rewrite: R,
    npm_name: N,
    package: PackageVersion,
    exports: Seq<(Seq<char>, Seq<char>)>,
    dependencies: Seq<(DependencyKind, PackageReq)>,
    sources: Seq<ParsedSource>,
    revision: u32,
    manifest: ManifestView,
    error: ErrorView,
)
    requires
        names_one_way(npm_name),
        described(rewrite, npm_name, package, exports, dependencies, sources, revision, manifest),
        all_nameable(package.package@, exports, sources),
    ensures
        !undescribed(npm_name, package, exports, dependencies, sources, error),
{
    if dependency_fails(npm_name, dependencies, error) {
        named_or_failed(npm_name, dependencies, error);
    }
}

/// Whether `to_json`, asked to write a manifest down, answers what `f` gives.
pub open spec fn writes_as<J: Fn(&NpmPackageJson) -> Result<String, String>>(
    to_json: J,
    f: spec_fn(ManifestView) -> Result<Seq<char>, Seq<char>>,
) -> bool {
    forall|manifest: &NpmPackageJson, r: Result<String, String>| #[trigger]
        call_ensures(to_json, (manifest,), r) ==> match r {
            Ok(t) => f(manifest@) == Ok::<Seq<char>, Seq<char>>(t@),
            Err(t) => f(manifest@) == Err::<Seq<char>, Seq<char>>(t@),
        }
}

/// A manifest is known by its own texts and entries, each under its own name.
pub proof fn manifests_read_as_they_are(manifest: NpmPackageJson)
    ensures
        manifest@.scope == manifest.name.scope@,
        manifest@.package == manifest.name.package@,
        manifest@.version == manifest.version@,
        manifest@.homepage == manifest.homepage@,
        manifest@.module_type == manifest.module_type@,
        manifest@.exports == text_entries(manifest.exports),
        manifest@.dependencies == text_entries(manifest.dependencies),
        manifest@.bin == text_entries(manifest.bin),
        manifest@.revision == manifest.revision,
{
}

} // verus!
