//! When there is a tarball, and what is told when there is none.
//!
//! Here the conventions are known by functions: `f` for names, `g` for extensions, `h` for
//! transpiled code and `k` for written manifests.

use vstd::prelude::*;
use vstd::seq_lib::to_multiset_contains;
use vstd::utf8::{encode_utf8, is_ascii_chars_encode_utf8};

use crate::address::joined_url;
use crate::archive::{gunzipped, reads_as, tar_entries, tar_file};
use crate::bin::{all_nameable, first_untold_export_fails, nameable};
use crate::contents::{
    only_arrivals_come_in, only_source_files_come_in, ordinary, ordinary_paths_are_rooted,
};
use crate::convert::{extends_as, names_as, transpiles, transpiles_as, Extension};
use crate::dependencies::{
    dependencies_become, dependency_fails, first_nameless_dependency_fails, lemma_answers, named,
    DependencyKind, PackageReq,
};
use crate::emit::{
    at_hand, emits, fails, first_fails, lemma_transpiles_as, only_transpiling_fails, stored_as,
    PackageVersion,
};
use crate::error::{ErrorView, NpmTarballError};
use crate::files::{package_files, EmittedView};
use crate::graph::Module;
use crate::laws::lemma_filter_member;
use crate::manifest::{writes, writes_as, ManifestView, NpmPackageJson};
use crate::outcomes::{
    lemma_manifest_path, long_paths_are_refused, modules_before_a_failure_transpile,
};
use crate::packages::{lemma_draft, made, made_paths_are_drafted, superseded};
use crate::source::{first_source_is_found, ParsedSource};
use crate::tarball::{
    all_at_hand, arranged, created, drafted, fetched, fetched_as, finished, manifest_is,
    modules_emit, packed, tarball_of, undrafted, unpacked, unwritable, with_all, with_missing,
    Conventions, Download, DraftView, NpmTarball, NpmTarballDraft, NpmTarballFiles,
    NpmTarballOptions, NpmTarballStep,
};
use crate::text::{result_text, texts};

verus! {

/// Whether every dependency on the registry has an npm name.
pub open spec fn all_have_names(
    f: spec_fn(Seq<char>) -> Result<Seq<char>, Seq<char>>,
    dependencies: Seq<(DependencyKind, PackageReq)>,
) -> bool {
    forall|i: int|
        0 <= i < dependencies.len() && (#[trigger] dependencies[i]).0 is Jsr ==> f(
            dependencies[i].1.name@,
        ) is Ok
}

/// Whether a module, if it is JSX, TypeScript or TSX of the package, has an address on the registry
/// and transpiles there.
pub open spec fn compiles(
    h: spec_fn(ParsedSource, Seq<char>) -> Result<Seq<char>, Seq<char>>,
    package: PackageVersion,
    sources: Seq<ParsedSource>,
    module: Module,
) -> bool {
    superseded(module) ==> exists|n: int|
        {
            &&& 0 <= n < sources.len()
            &&& (#[trigger] sources[n]).specifier@ == module.specifier@
            &&& forall|j: int|
                0 <= j < n ==> (#[trigger] sources[j]).specifier@ != module.specifier@
            &&& match joined_url(
                package.registry_url@,
                "./@"@ + package.scope@ + "/"@ + package.package@ + "/"@ + package.version@
                    + module.path@,
            ) {
                Some(url) => h(sources[n], url) is Ok,
                None => false,
            }
        }
}

/// A module that compiles does not fail.
proof fn lemma_compiles<T: Fn(&ParsedSource, &str) -> Result<String, String>>(
    transpile: T,
    h: spec_fn(ParsedSource, Seq<char>) -> Result<Seq<char>, Seq<char>>,
    package: PackageVersion,
    sources: Seq<ParsedSource>,
    module: Module,
    error: ErrorView,
)
    requires
        transpiles_as(transpile, h),
        compiles(h, package, sources, module),
    ensures
        !fails(transpile, package, sources, module, error),
{
    if fails(transpile, package, sources, module, error) {
        assert(superseded(module));
        let n = choose|n: int|
            {
                &&& 0 <= n < sources.len()
                &&& (#[trigger] sources[n]).specifier@ == module.specifier@
                &&& forall|j: int|
                    0 <= j < n ==> (#[trigger] sources[j]).specifier@ != module.specifier@
                &&& match joined_url(
                    package.registry_url@,
                    "./@"@ + package.scope@ + "/"@ + package.package@ + "/"@ + package.version@
                        + module.path@,
                ) {
                    Some(url) => h(sources[n], url) is Ok,
                    None => false,
                }
            };
        only_transpiling_fails(transpile, h, package, sources, module, n, error);
    }
}

/// Where all dependencies have names, they do not fail.
proof fn lemma_have_names<N: Fn(&str) -> Result<String, String>>(
    npm_name: N,
    f: spec_fn(Seq<char>) -> Result<Seq<char>, Seq<char>>,
    dependencies: Seq<(DependencyKind, PackageReq)>,
    e: NpmTarballError,
)
    requires
        names_as(npm_name, f),
        all_have_names(f, dependencies),
    ensures
        !dependency_fails(npm_name, dependencies, e@),
{
    if dependency_fails(npm_name, dependencies, e@) {
        first_nameless_dependency_fails(npm_name, f, dependencies, Err(e));
    }
}

/// A package has a tarball, or what is to be fetched is told, if its page has an address, its
/// dependencies have names, of its exports it can be told which commands they are, its modules
/// compile, and its manifest can be written. Only a path can still be refused, of files that are
/// handed over.
pub proof fn packages_are_made<
    R: Fn(&str) -> Option<String>,
    X: Fn(&str, Extension) -> Option<String>,
    T: Fn(&ParsedSource, &str) -> Result<String, String>,
    N: Fn(&str) -> Result<String, String>,
    J: Fn(&NpmPackageJson) -> Result<String, String>,
>(
    opts: NpmTarballOptions,
    conventions: Conventions<R, X, T, N, J>,
    f: spec_fn(Seq<char>) -> Result<Seq<char>, Seq<char>>,
    h: spec_fn(ParsedSource, Seq<char>) -> Result<Seq<char>, Seq<char>>,
    k: spec_fn(ManifestView) -> Result<Seq<char>, Seq<char>>,
    mtime: u64,
    r: Result<NpmTarballStep, NpmTarballError>,
)
    requires
        names_as(conventions.npm_name, f),
        transpiles_as(conventions.transpile, h),
        writes_as(conventions.to_json, k),
        created(opts, conventions, mtime, r),
        joined_url(
            opts.package.registry_url@,
            "./@"@ + opts.package.scope@ + "/"@ + opts.package.package@,
        ) is Some,
        all_have_names(f, opts.dependencies@),
        all_nameable(opts.package.package@, opts.exports@, opts.sources.sources@),
        forall|i: int|
            0 <= i < opts.graph@.len() ==> compiles(
                h,
                opts.package,
                opts.sources.sources@,
                #[trigger] opts.graph@[i],
            ),
        forall|manifest: ManifestView| #[trigger]
            manifest_is(opts, conventions, manifest) ==> k(manifest) is Ok,
    ensures
        match opts.files {
            NpmTarballFiles::WithBytes(_) => match r {
                Ok(step) => step is Finished,
                Err(e) => e@ is InvalidPath,
            },
            NpmTarballFiles::FromBucket { .. } => r is Ok && r->Ok_0 is Download,
        },
{
    if let Err(e) = r {
        lemma_have_names(conventions.npm_name, f, opts.dependencies@, e);
        if undrafted(opts, conventions, e@) {
            if exists|failed: int| #[trigger]
                first_fails(
                    conventions.rewrite_specifier,
                    conventions.rewrite_extension,
                    conventions.transpile,
                    opts.package,
                    opts.sources.sources@,
                    opts.graph@,
                    failed,
                    e@,
                ) {
                let failed = choose|failed: int| #[trigger]
                    first_fails(
                        conventions.rewrite_specifier,
                        conventions.rewrite_extension,
                        conventions.transpile,
                        opts.package,
                        opts.sources.sources@,
                        opts.graph@,
                        failed,
                        e@,
                    );
                lemma_compiles(
                    conventions.transpile,
                    h,
                    opts.package,
                    opts.sources.sources@,
                    opts.graph@[failed],
                    e@,
                );
            } else {
                let (manifest, cause) = choose|manifest: ManifestView, cause: Seq<char>|
                    {
                        &&& #[trigger] unwritable(conventions.to_json, manifest, cause)
                        &&& manifest_is(opts, conventions, manifest)
                        &&& e@ == (ErrorView::Manifest { cause })
                    };
                lemma_unwritable(conventions.to_json, k, manifest, cause);
            }
        } else if let NpmTarballFiles::WithBytes(list) = opts.files {
            let draft = choose|draft: DraftView| #[trigger]
                drafted(opts, conventions, draft) && unpacked(
                    with_missing(draft.files, package_files(list@)).files,
                    mtime,
                    e@,
                );
            let file = long_paths_are_refused(
                with_missing(draft.files, package_files(list@)).files,
                mtime,
                e@,
            );
        }
    }
}

/// A manifest is refused for the reason that `k` gives.
proof fn lemma_unwritable<J: Fn(&NpmPackageJson) -> Result<String, String>>(
    to_json: J,
    k: spec_fn(ManifestView) -> Result<Seq<char>, Seq<char>>,
    manifest: ManifestView,
    cause: Seq<char>,
)
    requires
        writes_as(to_json, k),
        unwritable(to_json, manifest, cause),
    ensures
        k(manifest) == Err::<Seq<char>, Seq<char>>(cause),
{
    let (m, r) = choose|m: &NpmPackageJson, r: Result<String, String>|
        m@ == manifest && #[trigger] call_ensures(to_json, (m,), r) && result_text(r) == Err::<
            Seq<char>,
            Seq<char>,
        >(cause);
    assert(call_ensures(to_json, (m,), r));
}

/// No path is refused where all paths are made of names and short enough: those that modules make
/// files under, and those that are handed over.
pub proof fn short_paths_are_not_refused<
    R: Fn(&str) -> Option<String>,
    X: Fn(&str, Extension) -> Option<String>,
    T: Fn(&ParsedSource, &str) -> Result<String, String>,
    N: Fn(&str) -> Result<String, String>,
    J: Fn(&NpmPackageJson) -> Result<String, String>,
>(
    opts: NpmTarballOptions,
    conventions: Conventions<R, X, T, N, J>,
    g: spec_fn(Seq<char>, Extension) -> Option<Seq<char>>,
    draft: DraftView,
    mtime: u64,
    error: ErrorView,
)
    requires
        extends_as(conventions.rewrite_extension, g),
        drafted(opts, conventions, draft),
        forall|p: Seq<char>| #[trigger]
            made(g, opts.graph@, p) ==> ordinary(p) && encode_utf8("./package"@ + p).len() <= 100,
    ensures
        match opts.files {
            NpmTarballFiles::WithBytes(list) => (forall|i: int|
                0 <= i < list@.len() ==> ordinary((#[trigger] list@[i]).path@) && encode_utf8(
                    "./package"@ + list@[i].path@,
                ).len() <= 100) ==> !unpacked(
                with_missing(draft.files, package_files(list@)).files,
                mtime,
                error,
            ),
            NpmTarballFiles::FromBucket { .. } => true,
        },
{
    if let NpmTarballFiles::WithBytes(list) = opts.files {
        let listed = package_files(list@);
        let files = with_missing(draft.files, listed).files;
        if unpacked(files, mtime, error) {
            let file = long_paths_are_refused(files, mtime, error);
            only_source_files_come_in(draft.files, listed, file);
            made_paths_are_drafted(opts, conventions, g, draft, file.0);
            lemma_manifest_path();
            assert(encode_utf8("./package"@ + "/package.json"@).len() == 22) by {
                reveal_strlit("./package");
                reveal_strlit("/package.json");
                is_ascii_chars_encode_utf8("./package"@ + "/package.json"@);
            }
            if draft.files.files.contains(file) {
                assert(draft.files.files.contains((file.0, file.1)));
            } else {
                let i = choose|i: int| 0 <= i < listed.len() && listed[i] == file;
                assert(list@[i].path@ == file.0);
            }
        }
    }
}

/// Where a dependency on the registry has no npm name, there is no tarball, and the first such
/// dependency is told, with what `f` says against it.
pub proof fn nameless_dependencies_are_told<
    R: Fn(&str) -> Option<String>,
    X: Fn(&str, Extension) -> Option<String>,
    T: Fn(&ParsedSource, &str) -> Result<String, String>,
    N: Fn(&str) -> Result<String, String>,
    J: Fn(&NpmPackageJson) -> Result<String, String>,
>(
    opts: NpmTarballOptions,
    conventions: Conventions<R, X, T, N, J>,
    f: spec_fn(Seq<char>) -> Result<Seq<char>, Seq<char>>,
    mtime: u64,
    r: Result<NpmTarballStep, NpmTarballError>,
    i: int,
)
    requires
        names_as(conventions.npm_name, f),
        created(opts, conventions, mtime, r),
        joined_url(
            opts.package.registry_url@,
            "./@"@ + opts.package.scope@ + "/"@ + opts.package.package@,
        ) is Some,
        0 <= i < opts.dependencies@.len(),
        opts.dependencies@[i].0 is Jsr,
        f(opts.dependencies@[i].1.name@) is Err,
        forall|j: int|
            0 <= j < i && (#[trigger] opts.dependencies@[j]).0 is Jsr ==> f(
                opts.dependencies@[j].1.name@,
            ) is Ok,
    ensures
        r is Err,
        r->Err_0@ == (ErrorView::InvalidName {
            name: opts.dependencies@[i].1.name@,
            cause: f(opts.dependencies@[i].1.name@)->Err_0,
        }),
{
    assert forall|entries: Seq<(Seq<char>, Seq<char>)>| !#[trigger]
        dependencies_become(conventions.npm_name, opts.dependencies@, entries) by {
        if dependencies_become(conventions.npm_name, opts.dependencies@, entries) {
            let answers = choose|answers: Seq<Seq<char>>| #[trigger]
                named(conventions.npm_name, opts.dependencies@, answers);
            lemma_answers(conventions.npm_name, f, opts.dependencies@, answers);
            assert(opts.dependencies@[i].0 is Jsr);
        }
    }
    assert forall|manifest: ManifestView| !#[trigger] manifest_is(opts, conventions, manifest) by {
        if manifest_is(opts, conventions, manifest) {
            assert(dependencies_become(
                conventions.npm_name,
                opts.dependencies@,
                manifest.dependencies,
            ));
        }
    }
    assert forall|draft: DraftView| !#[trigger] drafted(opts, conventions, draft) by {
        if drafted(opts, conventions, draft) {
            let (manifest, emissions, json) = lemma_draft(opts, conventions, draft);
            assert(manifest_is(opts, conventions, manifest));
        }
    }
    let e = r->Err_0;
    assert(dependency_fails(conventions.npm_name, opts.dependencies@, e@));
    first_nameless_dependency_fails(conventions.npm_name, f, opts.dependencies@, Err(e));
    let x = choose|x: int|
        {
            &&& 0 <= x < opts.dependencies@.len()
            &&& (#[trigger] opts.dependencies@[x]).0 is Jsr
            &&& f(opts.dependencies@[x].1.name@) is Err
            &&& e@ == (ErrorView::InvalidName {
                name: opts.dependencies@[x].1.name@,
                cause: f(opts.dependencies@[x].1.name@)->Err_0,
            })
            &&& forall|j: int|
                0 <= j < x && (#[trigger] opts.dependencies@[j]).0 is Jsr ==> f(
                    opts.dependencies@[j].1.name@,
                ) is Ok
        };
    if x < i {
        assert(f(opts.dependencies@[x].1.name@) is Ok);
    } else if i < x {
        assert(f(opts.dependencies@[i].1.name@) is Ok);
    }
}

/// Where it cannot be told of an export which command it is, there is no tarball, and the first such
/// export is told.
pub proof fn untold_exports_are_told<
    R: Fn(&str) -> Option<String>,
    X: Fn(&str, Extension) -> Option<String>,
    T: Fn(&ParsedSource, &str) -> Result<String, String>,
    N: Fn(&str) -> Result<String, String>,
    J: Fn(&NpmPackageJson) -> Result<String, String>,
>(
    opts: NpmTarballOptions,
    conventions: Conventions<R, X, T, N, J>,
    f: spec_fn(Seq<char>) -> Result<Seq<char>, Seq<char>>,
    mtime: u64,
    r: Result<NpmTarballStep, NpmTarballError>,
    i: int,
)
    requires
        names_as(conventions.npm_name, f),
        created(opts, conventions, mtime, r),
        joined_url(
            opts.package.registry_url@,
            "./@"@ + opts.package.scope@ + "/"@ + opts.package.package@,
        ) is Some,
        all_have_names(f, opts.dependencies@),
        0 <= i < opts.exports@.len(),
        !nameable(opts.package.package@, opts.sources.sources@, opts.exports@[i]),
        forall|j: int|
            0 <= j < i ==> nameable(
                opts.package.package@,
                opts.sources.sources@,
                #[trigger] opts.exports@[j],
            ),
    ensures
        r is Err,
        r->Err_0@ == (ErrorView::InvalidExport { key: opts.exports@[i].0 }),
{
    assert(!all_nameable(opts.package.package@, opts.exports@, opts.sources.sources@)) by {
        if all_nameable(opts.package.package@, opts.exports@, opts.sources.sources@) {
            assert(nameable(opts.package.package@, opts.sources.sources@, opts.exports@[i]));
        }
    }
    assert forall|draft: DraftView| !#[trigger] drafted(opts, conventions, draft) by {
        if drafted(opts, conventions, draft) {
            let (manifest, emissions, json) = lemma_draft(opts, conventions, draft);
            assert(manifest_is(opts, conventions, manifest));
        }
    }
    let e = r->Err_0;
    lemma_have_names(conventions.npm_name, f, opts.dependencies@, e);
    first_untold_export_fails(
        opts.package.package@,
        opts.exports@,
        opts.sources.sources@,
        e@,
        i,
    );
}

/// Where a module does not compile, there is no tarball, and the first such module is told: that it
/// has no address, or what `h` says against it.
pub proof fn failing_modules_are_told<
    R: Fn(&str) -> Option<String>,
    X: Fn(&str, Extension) -> Option<String>,
    T: Fn(&ParsedSource, &str) -> Result<String, String>,
    N: Fn(&str) -> Result<String, String>,
    J: Fn(&NpmPackageJson) -> Result<String, String>,
>(
    opts: NpmTarballOptions,
    conventions: Conventions<R, X, T, N, J>,
    f: spec_fn(Seq<char>) -> Result<Seq<char>, Seq<char>>,
    h: spec_fn(ParsedSource, Seq<char>) -> Result<Seq<char>, Seq<char>>,
    mtime: u64,
    r: Result<NpmTarballStep, NpmTarballError>,
    i: int,
    n: int,
)
    requires
        names_as(conventions.npm_name, f),
        transpiles_as(conventions.transpile, h),
        created(opts, conventions, mtime, r),
        joined_url(
            opts.package.registry_url@,
            "./@"@ + opts.package.scope@ + "/"@ + opts.package.package@,
        ) is Some,
        all_have_names(f, opts.dependencies@),
        all_nameable(opts.package.package@, opts.exports@, opts.sources.sources@),
        0 <= i < opts.graph@.len(),
        superseded(opts.graph@[i]),
        0 <= n < opts.sources.sources@.len(),
        opts.sources.sources@[n].specifier@ == opts.graph@[i].specifier@,
        forall|j: int|
            0 <= j < n ==> (#[trigger] opts.sources.sources@[j]).specifier@
                != opts.graph@[i].specifier@,
        match joined_url(
            opts.package.registry_url@,
            "./@"@ + opts.package.scope@ + "/"@ + opts.package.package@ + "/"@
                + opts.package.version@ + opts.graph@[i].path@,
        ) {
            Some(url) => h(opts.sources.sources@[n], url) is Err,
            None => true,
        },
        forall|j: int|
            0 <= j < i ==> compiles(
                h,
                opts.package,
                opts.sources.sources@,
                #[trigger] opts.graph@[j],
            ),
    ensures
        r is Err,
        r->Err_0@ == match joined_url(
            opts.package.registry_url@,
            "./@"@ + opts.package.scope@ + "/"@ + opts.package.package@ + "/"@
                + opts.package.version@ + opts.graph@[i].path@,
        ) {
            Some(url) => ErrorView::Transpile {
                path: opts.graph@[i].path@,
                cause: h(opts.sources.sources@[n], url)->Err_0,
            },
            None => ErrorView::InvalidUrl {
                reference: "./@"@ + opts.package.scope@ + "/"@ + opts.package.package@ + "/"@
                    + opts.package.version@ + opts.graph@[i].path@,
            },
        },
{
    assert forall|emissions: Seq<EmittedView>| !#[trigger]
        modules_emit(opts, conventions, emissions) by {
        if modules_emit(opts, conventions, emissions) {
            lemma_emitting_compiles(opts, conventions, h, opts.graph@[i], emissions[i], n);
        }
    }
    assert forall|draft: DraftView| !#[trigger] drafted(opts, conventions, draft) by {
        if drafted(opts, conventions, draft) {
            let (manifest, emissions, json) = lemma_draft(opts, conventions, draft);
            assert(modules_emit(opts, conventions, emissions));
        }
    }
    let e = r->Err_0;
    lemma_have_names(conventions.npm_name, f, opts.dependencies@, e);
    let failed = choose|failed: int| #[trigger]
        first_fails(
            conventions.rewrite_specifier,
            conventions.rewrite_extension,
            conventions.transpile,
            opts.package,
            opts.sources.sources@,
            opts.graph@,
            failed,
            e@,
        );
    if failed < i {
        lemma_compiles(
            conventions.transpile,
            h,
            opts.package,
            opts.sources.sources@,
            opts.graph@[failed],
            e@,
        );
    } else if i < failed {
        modules_before_a_failure_transpile(opts, conventions, h, failed, e@, i, n);
    } else {
        only_transpiling_fails(
            conventions.transpile,
            h,
            opts.package,
            opts.sources.sources@,
            opts.graph@[i],
            n,
            e@,
        );
    }
}

/// A module that adds something compiles.
proof fn lemma_emitting_compiles<
    R: Fn(&str) -> Option<String>,
    X: Fn(&str, Extension) -> Option<String>,
    T: Fn(&ParsedSource, &str) -> Result<String, String>,
    N: Fn(&str) -> Result<String, String>,
    J: Fn(&NpmPackageJson) -> Result<String, String>,
>(
    opts: NpmTarballOptions,
    conventions: Conventions<R, X, T, N, J>,
    h: spec_fn(ParsedSource, Seq<char>) -> Result<Seq<char>, Seq<char>>,
    module: Module,
    emitted: EmittedView,
    n: int,
)
    requires
        transpiles_as(conventions.transpile, h),
        emits(
            conventions.rewrite_specifier,
            conventions.rewrite_extension,
            conventions.transpile,
            opts.package,
            opts.sources.sources@,
            module,
            emitted,
        ),
        superseded(module),
        0 <= n < opts.sources.sources@.len(),
        opts.sources.sources@[n].specifier@ == module.specifier@,
        forall|j: int|
            0 <= j < n ==> (#[trigger] opts.sources.sources@[j]).specifier@ != module.specifier@,
    ensures
        match joined_url(
            opts.package.registry_url@,
            "./@"@ + opts.package.scope@ + "/"@ + opts.package.package@ + "/"@
                + opts.package.version@ + module.path@,
        ) {
            Some(url) => h(opts.sources.sources@[n], url) is Ok,
            None => false,
        },
{
    first_source_is_found(opts.sources.sources@, module.specifier@, n);
    let source = opts.sources.sources@[n];
    let url = opts.package.file_url(module.path@)->0;
    let code = choose|code: Seq<char>| #[trigger]
        transpiles(conventions.transpile, source, url, Ok(code)) && stored_as(
            conventions.rewrite_extension,
            module.path@,
            Extension::Js,
            encode_utf8(code),
            emitted.code->0,
        );
    lemma_transpiles_as(conventions.transpile, h, source, url, Ok(code));
}

/// Where the manifest cannot be written, there is no tarball, and what `k` says against it is told.
pub proof fn unwritten_manifests_are_told<
    R: Fn(&str) -> Option<String>,
    X: Fn(&str, Extension) -> Option<String>,
    T: Fn(&ParsedSource, &str) -> Result<String, String>,
    N: Fn(&str) -> Result<String, String>,
    J: Fn(&NpmPackageJson) -> Result<String, String>,
>(
    opts: NpmTarballOptions,
    conventions: Conventions<R, X, T, N, J>,
    f: spec_fn(Seq<char>) -> Result<Seq<char>, Seq<char>>,
    h: spec_fn(ParsedSource, Seq<char>) -> Result<Seq<char>, Seq<char>>,
    k: spec_fn(ManifestView) -> Result<Seq<char>, Seq<char>>,
    mtime: u64,
    r: Result<NpmTarballStep, NpmTarballError>,
) -> (manifest: ManifestView)
    requires
        names_as(conventions.npm_name, f),
        transpiles_as(conventions.transpile, h),
        writes_as(conventions.to_json, k),
        created(opts, conventions, mtime, r),
        joined_url(
            opts.package.registry_url@,
            "./@"@ + opts.package.scope@ + "/"@ + opts.package.package@,
        ) is Some,
        all_have_names(f, opts.dependencies@),
        all_nameable(opts.package.package@, opts.exports@, opts.sources.sources@),
        forall|i: int|
            0 <= i < opts.graph@.len() ==> compiles(
                h,
                opts.package,
                opts.sources.sources@,
                #[trigger] opts.graph@[i],
            ),
        forall|manifest: ManifestView| #[trigger]
            manifest_is(opts, conventions, manifest) ==> k(manifest) is Err,
    ensures
        r is Err,
        r->Err_0@ == (ErrorView::Manifest { cause: k(manifest)->Err_0 }),
        manifest.scope == opts.package.scope@,
        manifest.package == opts.package.package@,
        manifest.version == opts.package.version@,
        manifest.revision == opts.revision,
{
    assert forall|draft: DraftView| !#[trigger] drafted(opts, conventions, draft) by {
        if drafted(opts, conventions, draft) {
            let (manifest, emissions, json) = lemma_draft(opts, conventions, draft);
            let (m, a) = choose|m: &NpmPackageJson, a: Result<String, String>|
                m@ == manifest && #[trigger] call_ensures(conventions.to_json, (m,), a)
                    && result_text(a) == Ok::<Seq<char>, Seq<char>>(json);
            assert(writes(conventions.to_json, manifest, Ok(json)));
            assert(call_ensures(conventions.to_json, (m,), a));
            assert(k(manifest) is Err);
        }
    }
    let e = r->Err_0;
    lemma_have_names(conventions.npm_name, f, opts.dependencies@, e);
    assert forall|failed: int| !#[trigger]
        first_fails(
            conventions.rewrite_specifier,
            conventions.rewrite_extension,
            conventions.transpile,
            opts.package,
            opts.sources.sources@,
            opts.graph@,
            failed,
            e@,
        ) by {
        if 0 <= failed < opts.graph@.len() {
            lemma_compiles(
                conventions.transpile,
                h,
                opts.package,
                opts.sources.sources@,
                opts.graph@[failed],
                e@,
            );
        }
    }
    let (manifest, cause) = choose|manifest: ManifestView, cause: Seq<char>|
        {
            &&& #[trigger] unwritable(conventions.to_json, manifest, cause)
            &&& manifest_is(opts, conventions, manifest)
            &&& e@ == (ErrorView::Manifest { cause })
        };
    lemma_unwritable(conventions.to_json, k, manifest, cause);
    manifest
}

/// Nothing is in a finished tarball but the files of the draft and those that were fetched.
pub proof fn only_drafted_and_fetched_files_are_packed(
    draft: DraftView,
    downloads: Seq<Download>,
    mtime: u64,
    tarball: NpmTarball,
    a: int,
) -> (file: (Seq<char>, Seq<u8>))
    requires
        finished(draft, downloads, mtime, Ok(tarball)),
        0 <= a < tar_entries(gunzipped(tarball.tarball@)->0).len(),
    ensures
        tar_entries(gunzipped(tarball.tarball@)->0)[a].content == file.1,
        ordinary(file.0) ==> tar_entries(gunzipped(tarball.tarball@)->0)[a].path == encode_utf8(
            "package"@ + file.0,
        ),
        draft.files.files.contains(file) || exists|i: int|
            {
                &&& 0 <= i < downloads.len()
                &&& (#[trigger] downloads[i]).path@ == file.0
                &&& match downloads[i].outcome {
                    Ok(Some(content)) => content@ == file.1,
                    _ => false,
                }
            },
{
    let arrived = choose|arrived: Seq<(Seq<char>, Seq<u8>)>| #[trigger]
        fetched(downloads, arrived) && packed(
            with_all(draft.files, arrived).files,
            draft.bin,
            mtime,
            tarball,
        );
    let files = with_all(draft.files, arrived).files;
    let sorted = choose|sorted: Seq<(Seq<char>, Seq<u8>)>| #[trigger]
        arranged(files, sorted) && tarball_of(sorted, draft.bin, mtime, tarball);
    let file = sorted[a];
    assert(reads_as(tar_entries(tar_file(sorted, mtime))[a], sorted[a], mtime));
    to_multiset_contains(sorted, file);
    to_multiset_contains(files, file);
    ordinary_paths_are_rooted(file.0);
    only_arrivals_come_in(draft.files, arrived, file);
    if !draft.files.files.contains(file) {
        let i = choose|i: int| 0 <= i < arrived.len() && arrived[i] == file;
        assert(fetched_as(downloads[i], arrived[i]));
    }
    file
}

/// No path is fetched twice that is listed once.
pub proof fn paths_are_fetched_once<
    R: Fn(&str) -> Option<String>,
    X: Fn(&str, Extension) -> Option<String>,
    T: Fn(&ParsedSource, &str) -> Result<String, String>,
    N: Fn(&str) -> Result<String, String>,
    J: Fn(&NpmPackageJson) -> Result<String, String>,
>(
    opts: NpmTarballOptions,
    conventions: Conventions<R, X, T, N, J>,
    mtime: u64,
    draft: NpmTarballDraft,
    paths: Vec<String>,
    i: int,
    j: int,
)
    requires
        created(opts, conventions, mtime, Ok(NpmTarballStep::Download { draft, paths })),
        match opts.files {
            NpmTarballFiles::WithBytes(_) => false,
            NpmTarballFiles::FromBucket { files } => forall|a: int, b: int|
                0 <= a < b < files@.len() ==> (#[trigger] files@[a])@ != (#[trigger] files@[b])@,
        },
        0 <= i < j < paths@.len(),
    ensures
        paths@[i]@ != paths@[j]@,
{
    if let NpmTarballFiles::FromBucket { files } = opts.files {
        let list = texts(files@);
        assert forall|a: int, b: int| 0 <= a < b < list.len() implies list[a] != list[b] by {
            assert(files@[a]@ != files@[b]@);
        }
        lemma_filter_once(list, |path: Seq<char>| draft@.files.lacks(path));
        assert(texts(paths@)[i] != texts(paths@)[j]);
    }
}

/// What a filter keeps of a list without repetition has none.
proof fn lemma_filter_once(list: Seq<Seq<char>>, keep: spec_fn(Seq<char>) -> bool)
    requires
        forall|a: int, b: int| 0 <= a < b < list.len() ==> list[a] != list[b],
    ensures
        forall|a: int, b: int|
            0 <= a < b < list.filter(keep).len() ==> list.filter(keep)[a] != list.filter(keep)[b],
    decreases list.len(),
{
    reveal(Seq::filter);
    if list.len() > 0 {
        let rest = list.drop_last();
        let kept = rest.filter(keep);
        lemma_filter_once(rest, keep);
        assert forall|a: int| 0 <= a < kept.len() implies kept[a] != list.last() by {
            assert(kept.contains(kept[a]));
            lemma_filter_member(rest, keep, kept[a]);
            let b = choose|b: int| 0 <= b < rest.len() && rest[b] == kept[a];
            assert(list[b] != list[list.len() - 1]);
        }
    }
}

/// The sources of a package are at hand if those of each module are.
pub proof fn sources_of_all_modules(opts: NpmTarballOptions)
    ensures
        all_at_hand(opts) <==> forall|i: int|
            0 <= i < opts.graph@.len() ==> at_hand(
                opts.sources.sources@,
                #[trigger] opts.graph@[i],
            ),
{
}

} // verus!
