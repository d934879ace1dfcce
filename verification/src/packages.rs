//! What becomes of the modules and files of a package.
//!
//! Here the conventions are known by functions: `f` for specifiers, `g` for extensions, `h` for
//! transpiled code and `k` for written manifests.

use vstd::prelude::*;
use vstd::utf8::encode_utf8;

use crate::address::joined_url;
use crate::contents::{
    last_module_decides, made_paths_are_taken, packed_modules_make_files,
    transpiled_modules_are_marked,
};
use crate::convert::{extends_as, transpiles, transpiles_as, Extension};
use crate::emit::{
    data_is_added, declarations_are_added, emits, gathered, generated_declarations_are_added,
    lemma_stored_as, script_becomes, scripts_are_added, stored_as, transpiled_code_is_added,
    PackageVersion,
};
use crate::files::EmittedView;
use crate::graph::{MediaType, Module, ModuleKind};
use crate::manifest::{ManifestView, NpmPackageJson};
use crate::maps::put_changes_one_key;
use crate::source::{find_source, ParsedSource};
use crate::tarball::{
    drafted, drafted_from, manifest_path, modules_emit, Conventions, DraftView, NpmTarballOptions,
};

verus! {

/// The path that `g` gives with the extension, or the path itself where it gives none.
pub open spec fn extended(
    g: spec_fn(Seq<char>, Extension) -> Option<Seq<char>>,
    path: Seq<char>,
    extension: Extension,
) -> Seq<char> {
    match g(path, extension) {
        Some(other) => other,
        None => path,
    }
}

/// Whether a module makes a file under a path: data, scripts and declarations under their own;
/// JSX, TypeScript and TSX under that of the code they become; and each its generated declarations.
pub open spec fn makes(
    g: spec_fn(Seq<char>, Extension) -> Option<Seq<char>>,
    module: Module,
    path: Seq<char>,
) -> bool {
    module.scheme@ == "file"@ && match module.kind {
        ModuleKind::Json { .. } => path == module.path@,
        ModuleKind::Js { media_type, dts, .. } => {
            ||| match media_type {
                MediaType::JavaScript
                | MediaType::Mjs
                | MediaType::Dts
                | MediaType::Dmts => path == module.path@,
                MediaType::Jsx
                | MediaType::TypeScript
                | MediaType::Mts
                | MediaType::Tsx => path == extended(g, module.path@, Extension::Js),
                _ => false,
            }
            ||| dts is Some && path == extended(g, module.path@, Extension::Dts)
        },
        ModuleKind::Other => false,
    }
}

/// Whether a module is a source that is left out, because the code it becomes takes its place: JSX,
/// TypeScript and TSX are.
pub open spec fn superseded(module: Module) -> bool {
    module.scheme@ == "file"@ && match module.kind {
        ModuleKind::Js { media_type, .. } => match media_type {
            MediaType::Jsx | MediaType::TypeScript | MediaType::Mts | MediaType::Tsx => true,
            _ => false,
        },
        _ => false,
    }
}

/// Whether a module makes a file under the path, behind the `i`-th.
pub open spec fn made_later(
    g: spec_fn(Seq<char>, Extension) -> Option<Seq<char>>,
    modules: Seq<Module>,
    i: int,
    path: Seq<char>,
) -> bool {
    exists|j: int| i < j < modules.len() && makes(g, #[trigger] modules[j], path)
}

/// Whether some module makes a file under the path.
pub open spec fn made(
    g: spec_fn(Seq<char>, Extension) -> Option<Seq<char>>,
    modules: Seq<Module>,
    path: Seq<char>,
) -> bool {
    exists|j: int| 0 <= j < modules.len() && makes(g, #[trigger] modules[j], path)
}

/// Whether the path is that of a source that is left out.
pub open spec fn left_out(modules: Seq<Module>, path: Seq<char>) -> bool {
    exists|j: int|
        0 <= j < modules.len() && superseded(#[trigger] modules[j]) && modules[j].path@ == path
}

/// The paths that a module makes files under are those of what it adds.
proof fn lemma_added_paths<
    R: Fn(&str) -> Option<String>,
    X: Fn(&str, Extension) -> Option<String>,
    T: Fn(&ParsedSource, &str) -> Result<String, String>,
>(
    rewrite: R,
    extend: X,
    transpile: T,
    g: spec_fn(Seq<char>, Extension) -> Option<Seq<char>>,
    package: PackageVersion,
    sources: Seq<ParsedSource>,
    module: Module,
    emitted: EmittedView,
    path: Seq<char>,
)
    requires
        extends_as(extend, g),
        emits(rewrite, extend, transpile, package, sources, module, emitted),
    ensures
        makes(g, module, path) <==> {
            ||| emitted.code is Some && (emitted.code->0).0 == path
            ||| emitted.dts is Some && (emitted.dts->0).0 == path
        },
        emitted.transpiled == superseded(module),
{
    if module.scheme@ == "file"@ {
        if let ModuleKind::Js { media_type, source, dts } = module.kind {
            if media_type.is_transpiled() {
                let file = emitted.code->0;
                let source = find_source(sources, module.specifier@)->0;
                let url = package.file_url(module.path@)->0;
                let code = choose|code: Seq<char>| #[trigger]
                    transpiles(transpile, source, url, Ok(code)) && stored_as(
                        extend,
                        module.path@,
                        Extension::Js,
                        encode_utf8(code),
                        file,
                    );
                lemma_stored_as(extend, g, module.path@, Extension::Js, encode_utf8(code), file);
            }
            if let Some(text) = dts {
                lemma_stored_as(
                    extend,
                    g,
                    module.path@,
                    Extension::Dts,
                    encode_utf8(text@),
                    emitted.dts->0,
                );
            }
        }
    }
}

/// What makes up a draft.
pub(crate) proof fn lemma_draft<
    R: Fn(&str) -> Option<String>,
    X: Fn(&str, Extension) -> Option<String>,
    T: Fn(&ParsedSource, &str) -> Result<String, String>,
    N: Fn(&str) -> Result<String, String>,
    J: Fn(&NpmPackageJson) -> Result<String, String>,
>(
    opts: NpmTarballOptions,
    conventions: Conventions<R, X, T, N, J>,
    draft: DraftView,
) -> (r: (ManifestView, Seq<EmittedView>, Seq<char>))
    requires
        drafted(opts, conventions, draft),
    ensures
        drafted_from(opts, conventions, r.0, r.1, r.2, draft),
        r.1.len() == opts.graph@.len(),
        draft.files.files.contains(("/package.json"@, encode_utf8(r.2))),
        forall|file: (Seq<char>, Seq<u8>)|
            file.0 != "/package.json"@ ==> #[trigger] draft.files.files.contains(file) == gathered(
                opts.graph@,
                r.1,
            ).files.contains(file),
        draft.files.transpiled == gathered(opts.graph@, r.1).transpiled,
{
    let (manifest, emissions, json) = choose|
        manifest: ManifestView,
        emissions: Seq<EmittedView>,
        json: Seq<char>,
    | #[trigger] drafted_from(opts, conventions, manifest, emissions, json, draft);
    put_changes_one_key(
        gathered(opts.graph@, emissions).files,
        manifest_path(),
        encode_utf8(json),
    );
    (manifest, emissions, json)
}

/// What a module adds is in the draft, unless it is made again.
proof fn lemma_added_stays<
    R: Fn(&str) -> Option<String>,
    X: Fn(&str, Extension) -> Option<String>,
    T: Fn(&ParsedSource, &str) -> Result<String, String>,
    N: Fn(&str) -> Result<String, String>,
    J: Fn(&NpmPackageJson) -> Result<String, String>,
>(
    opts: NpmTarballOptions,
    conventions: Conventions<R, X, T, N, J>,
    g: spec_fn(Seq<char>, Extension) -> Option<Seq<char>>,
    draft: DraftView,
    emissions: Seq<EmittedView>,
    i: int,
    file: (Seq<char>, Seq<u8>),
)
    requires
        extends_as(conventions.rewrite_extension, g),
        modules_emit(opts, conventions, emissions),
        forall|file: (Seq<char>, Seq<u8>)|
            file.0 != "/package.json"@ ==> #[trigger] draft.files.files.contains(file) == gathered(
                opts.graph@,
                emissions,
            ).files.contains(file),
        0 <= i < opts.graph@.len(),
        emissions[i].dts == Some(file) || {
            &&& emissions[i].code == Some(file)
            &&& emissions[i].dts matches Some(other) ==> other.0 != file.0
        },
        !made_later(g, opts.graph@, i, file.0),
        file.0 != "/package.json"@,
    ensures
        draft.files.files.contains(file),
{
    assert forall|j: int| i < j < opts.graph@.len() implies {
        &&& (#[trigger] emissions[j]).code matches Some(other) ==> other.0 != file.0
        &&& emissions[j].dts matches Some(other) ==> other.0 != file.0
    } by {
        assert(!makes(g, opts.graph@[j], file.0));
        lemma_added_paths(
            conventions.rewrite_specifier,
            conventions.rewrite_extension,
            conventions.transpile,
            g,
            opts.package,
            opts.sources.sources@,
            opts.graph@[j],
            emissions[j],
            file.0,
        );
    }
    last_module_decides(opts.graph@, emissions, i, file.0, file.1);
    assert(file == (file.0, file.1));
}

/// What JSX, TypeScript and TSX of the package transpile to is in the draft, under the path with the
/// extension of code, and the path of the source is marked.
pub proof fn transpiled_code_is_drafted<
    R: Fn(&str) -> Option<String>,
    X: Fn(&str, Extension) -> Option<String>,
    T: Fn(&ParsedSource, &str) -> Result<String, String>,
    N: Fn(&str) -> Result<String, String>,
    J: Fn(&NpmPackageJson) -> Result<String, String>,
>(
    opts: NpmTarballOptions,
    conventions: Conventions<R, X, T, N, J>,
    g: spec_fn(Seq<char>, Extension) -> Option<Seq<char>>,
    h: spec_fn(ParsedSource, Seq<char>) -> Result<Seq<char>, Seq<char>>,
    draft: DraftView,
    i: int,
    media_type: MediaType,
    source: String,
    dts: Option<String>,
    n: int,
    url: Seq<char>,
)
    requires
        extends_as(conventions.rewrite_extension, g),
        transpiles_as(conventions.transpile, h),
        drafted(opts, conventions, draft),
        0 <= i < opts.graph@.len(),
        opts.graph@[i].scheme@ == "file"@,
        opts.graph@[i].kind == (ModuleKind::Js { media_type, source, dts }),
        media_type == MediaType::Jsx || media_type == MediaType::TypeScript || media_type
            == MediaType::Mts || media_type == MediaType::Tsx,
        0 <= n < opts.sources.sources@.len(),
        opts.sources.sources@[n].specifier@ == opts.graph@[i].specifier@,
        forall|j: int|
            0 <= j < n ==> (#[trigger] opts.sources.sources@[j]).specifier@
                != opts.graph@[i].specifier@,
        joined_url(
            opts.package.registry_url@,
            "./@"@ + opts.package.scope@ + "/"@ + opts.package.package@ + "/"@
                + opts.package.version@ + opts.graph@[i].path@,
        ) == Some(url),
        extended(g, opts.graph@[i].path@, Extension::Js) != "/package.json"@,
        dts is Some ==> extended(g, opts.graph@[i].path@, Extension::Dts) != extended(
            g,
            opts.graph@[i].path@,
            Extension::Js,
        ),
        !made_later(g, opts.graph@, i, extended(g, opts.graph@[i].path@, Extension::Js)),
    ensures
        h(opts.sources.sources@[n], url) is Ok,
        draft.files.files.contains(
            (
                extended(g, opts.graph@[i].path@, Extension::Js),
                encode_utf8(h(opts.sources.sources@[n], url)->Ok_0),
            ),
        ),
        draft.files.transpiled.contains(opts.graph@[i].path@),
{
    let (manifest, emissions, json) = lemma_draft(opts, conventions, draft);
    let module = opts.graph@[i];
    transpiled_code_is_added(
        conventions.rewrite_specifier,
        conventions.rewrite_extension,
        conventions.transpile,
        g,
        h,
        opts.package,
        opts.sources.sources@,
        module,
        emissions[i],
        media_type,
        source,
        dts,
        n,
        url,
    );
    generated_declarations_are_added(
        conventions.rewrite_specifier,
        conventions.rewrite_extension,
        conventions.transpile,
        g,
        opts.package,
        opts.sources.sources@,
        module,
        emissions[i],
        media_type,
        source,
        dts,
    );
    lemma_added_stays(opts, conventions, g, draft, emissions, i, emissions[i].code->0);
    transpiled_modules_are_marked(opts.graph@, emissions, module.path@);
}

/// Scripts of the package are in the draft under their own paths, with their specifiers rewritten.
pub proof fn scripts_are_drafted<
    R: Fn(&str) -> Option<String>,
    X: Fn(&str, Extension) -> Option<String>,
    T: Fn(&ParsedSource, &str) -> Result<String, String>,
    N: Fn(&str) -> Result<String, String>,
    J: Fn(&NpmPackageJson) -> Result<String, String>,
>(
    opts: NpmTarballOptions,
    conventions: Conventions<R, X, T, N, J>,
    g: spec_fn(Seq<char>, Extension) -> Option<Seq<char>>,
    draft: DraftView,
    i: int,
    media_type: MediaType,
    source: String,
    dts: Option<String>,
    n: int,
) -> (content: Seq<u8>)
    requires
        extends_as(conventions.rewrite_extension, g),
        drafted(opts, conventions, draft),
        0 <= i < opts.graph@.len(),
        opts.graph@[i].scheme@ == "file"@,
        opts.graph@[i].kind == (ModuleKind::Js { media_type, source, dts }),
        media_type == MediaType::JavaScript || media_type == MediaType::Mjs,
        0 <= n < opts.sources.sources@.len(),
        opts.sources.sources@[n].specifier@ == opts.graph@[i].specifier@,
        forall|j: int|
            0 <= j < n ==> (#[trigger] opts.sources.sources@[j]).specifier@
                != opts.graph@[i].specifier@,
        opts.graph@[i].path@ != "/package.json"@,
        dts is Some ==> extended(g, opts.graph@[i].path@, Extension::Dts) != opts.graph@[i].path@,
        !made_later(g, opts.graph@, i, opts.graph@[i].path@),
    ensures
        script_becomes(conventions.rewrite_specifier, opts.sources.sources@[n], content),
        draft.files.files.contains((opts.graph@[i].path@, content)),
{
    let (manifest, emissions, json) = lemma_draft(opts, conventions, draft);
    let module = opts.graph@[i];
    scripts_are_added(
        conventions.rewrite_specifier,
        conventions.rewrite_extension,
        conventions.transpile,
        opts.package,
        opts.sources.sources@,
        module,
        emissions[i],
        media_type,
        source,
        dts,
        n,
    );
    generated_declarations_are_added(
        conventions.rewrite_specifier,
        conventions.rewrite_extension,
        conventions.transpile,
        g,
        opts.package,
        opts.sources.sources@,
        module,
        emissions[i],
        media_type,
        source,
        dts,
    );
    let file = emissions[i].code->0;
    lemma_added_stays(opts, conventions, g, draft, emissions, i, file);
    assert(file == (module.path@, file.1));
    file.1
}

/// Declarations of the package are in the draft as they are.
pub proof fn declarations_are_drafted<
    R: Fn(&str) -> Option<String>,
    X: Fn(&str, Extension) -> Option<String>,
    T: Fn(&ParsedSource, &str) -> Result<String, String>,
    N: Fn(&str) -> Result<String, String>,
    J: Fn(&NpmPackageJson) -> Result<String, String>,
>(
    opts: NpmTarballOptions,
    conventions: Conventions<R, X, T, N, J>,
    g: spec_fn(Seq<char>, Extension) -> Option<Seq<char>>,
    draft: DraftView,
    i: int,
    media_type: MediaType,
    source: String,
    dts: Option<String>,
)
    requires
        extends_as(conventions.rewrite_extension, g),
        drafted(opts, conventions, draft),
        0 <= i < opts.graph@.len(),
        opts.graph@[i].scheme@ == "file"@,
        opts.graph@[i].kind == (ModuleKind::Js { media_type, source, dts }),
        media_type == MediaType::Dts || media_type == MediaType::Dmts,
        opts.graph@[i].path@ != "/package.json"@,
        dts is Some ==> extended(g, opts.graph@[i].path@, Extension::Dts) != opts.graph@[i].path@,
        !made_later(g, opts.graph@, i, opts.graph@[i].path@),
    ensures
        draft.files.files.contains((opts.graph@[i].path@, encode_utf8(source@))),
{
    let (manifest, emissions, json) = lemma_draft(opts, conventions, draft);
    let module = opts.graph@[i];
    declarations_are_added(
        conventions.rewrite_specifier,
        conventions.rewrite_extension,
        conventions.transpile,
        opts.package,
        opts.sources.sources@,
        module,
        emissions[i],
        media_type,
        source,
        dts,
    );
    generated_declarations_are_added(
        conventions.rewrite_specifier,
        conventions.rewrite_extension,
        conventions.transpile,
        g,
        opts.package,
        opts.sources.sources@,
        module,
        emissions[i],
        media_type,
        source,
        dts,
    );
    lemma_added_stays(opts, conventions, g, draft, emissions, i, emissions[i].code->0);
}

/// Data of the package is in the draft as it is.
pub proof fn data_is_drafted<
    R: Fn(&str) -> Option<String>,
    X: Fn(&str, Extension) -> Option<String>,
    T: Fn(&ParsedSource, &str) -> Result<String, String>,
    N: Fn(&str) -> Result<String, String>,
    J: Fn(&NpmPackageJson) -> Result<String, String>,
>(
    opts: NpmTarballOptions,
    conventions: Conventions<R, X, T, N, J>,
    g: spec_fn(Seq<char>, Extension) -> Option<Seq<char>>,
    draft: DraftView,
    i: int,
    source: String,
)
    requires
        extends_as(conventions.rewrite_extension, g),
        drafted(opts, conventions, draft),
        0 <= i < opts.graph@.len(),
        opts.graph@[i].scheme@ == "file"@,
        opts.graph@[i].kind == (ModuleKind::Json { source }),
        opts.graph@[i].path@ != "/package.json"@,
        !made_later(g, opts.graph@, i, opts.graph@[i].path@),
    ensures
        draft.files.files.contains((opts.graph@[i].path@, encode_utf8(source@))),
{
    let (manifest, emissions, json) = lemma_draft(opts, conventions, draft);
    data_is_added(
        conventions.rewrite_specifier,
        conventions.rewrite_extension,
        conventions.transpile,
        opts.package,
        opts.sources.sources@,
        opts.graph@[i],
        emissions[i],
        source,
    );
    lemma_added_stays(opts, conventions, g, draft, emissions, i, emissions[i].code->0);
}

/// The declarations that were generated for code of the package are in the draft, under the path
/// with the extension of declarations, whatever the type of the code.
pub proof fn generated_declarations_are_drafted<
    R: Fn(&str) -> Option<String>,
    X: Fn(&str, Extension) -> Option<String>,
    T: Fn(&ParsedSource, &str) -> Result<String, String>,
    N: Fn(&str) -> Result<String, String>,
    J: Fn(&NpmPackageJson) -> Result<String, String>,
>(
    opts: NpmTarballOptions,
    conventions: Conventions<R, X, T, N, J>,
    g: spec_fn(Seq<char>, Extension) -> Option<Seq<char>>,
    draft: DraftView,
    i: int,
    media_type: MediaType,
    source: String,
    text: String,
)
    requires
        extends_as(conventions.rewrite_extension, g),
        drafted(opts, conventions, draft),
        0 <= i < opts.graph@.len(),
        opts.graph@[i].scheme@ == "file"@,
        opts.graph@[i].kind == (ModuleKind::Js { media_type, source, dts: Some(text) }),
        extended(g, opts.graph@[i].path@, Extension::Dts) != "/package.json"@,
        !made_later(g, opts.graph@, i, extended(g, opts.graph@[i].path@, Extension::Dts)),
    ensures
        draft.files.files.contains(
            (extended(g, opts.graph@[i].path@, Extension::Dts), encode_utf8(text@)),
        ),
{
    let (manifest, emissions, json) = lemma_draft(opts, conventions, draft);
    generated_declarations_are_added(
        conventions.rewrite_specifier,
        conventions.rewrite_extension,
        conventions.transpile,
        g,
        opts.package,
        opts.sources.sources@,
        opts.graph@[i],
        emissions[i],
        media_type,
        source,
        Some(text),
    );
    lemma_added_stays(opts, conventions, g, draft, emissions, i, emissions[i].dts->0);
}

/// The paths of a draft are that of the manifest and those that the modules make files under.
pub proof fn made_paths_are_drafted<
    R: Fn(&str) -> Option<String>,
    X: Fn(&str, Extension) -> Option<String>,
    T: Fn(&ParsedSource, &str) -> Result<String, String>,
    N: Fn(&str) -> Result<String, String>,
    J: Fn(&NpmPackageJson) -> Result<String, String>,
>(
    opts: NpmTarballOptions,
    conventions: Conventions<R, X, T, N, J>,
    g: spec_fn(Seq<char>, Extension) -> Option<Seq<char>>,
    draft: DraftView,
    path: Seq<char>,
)
    requires
        extends_as(conventions.rewrite_extension, g),
        drafted(opts, conventions, draft),
    ensures
        (exists|content: Seq<u8>| #[trigger] draft.files.files.contains((path, content))) <==> (path
            == "/package.json"@ || made(g, opts.graph@, path)),
{
    let (manifest, emissions, json) = lemma_draft(opts, conventions, draft);
    if made(g, opts.graph@, path) && path != "/package.json"@ {
        let i = choose|i: int| 0 <= i < opts.graph@.len() && makes(g, #[trigger] opts.graph@[i], path);
        lemma_added_paths(
            conventions.rewrite_specifier,
            conventions.rewrite_extension,
            conventions.transpile,
            g,
            opts.package,
            opts.sources.sources@,
            opts.graph@[i],
            emissions[i],
            path,
        );
        let file = if emissions[i].code is Some && (emissions[i].code->0).0 == path {
            emissions[i].code->0
        } else {
            emissions[i].dts->0
        };
        let content = made_paths_are_taken(opts.graph@, emissions, i, file);
        assert(draft.files.files.contains((path, content)));
    }
    if exists|content: Seq<u8>| #[trigger] draft.files.files.contains((path, content)) {
        let content = choose|content: Seq<u8>| #[trigger]
            draft.files.files.contains((path, content));
        if path != "/package.json"@ {
            let i = packed_modules_make_files(opts.graph@, emissions, (path, content));
            lemma_added_paths(
                conventions.rewrite_specifier,
                conventions.rewrite_extension,
                conventions.transpile,
                g,
                opts.package,
                opts.sources.sources@,
                opts.graph@[i],
                emissions[i],
                path,
            );
            assert(makes(g, opts.graph@[i], path));
        }
    } else {
        assert(draft.files.files.contains(("/package.json"@, encode_utf8(json))));
    }
}

/// The paths that a draft marks are those of the sources that are left out.
pub proof fn left_out_paths_are_marked<
    R: Fn(&str) -> Option<String>,
    X: Fn(&str, Extension) -> Option<String>,
    T: Fn(&ParsedSource, &str) -> Result<String, String>,
    N: Fn(&str) -> Result<String, String>,
    J: Fn(&NpmPackageJson) -> Result<String, String>,
>(
    opts: NpmTarballOptions,
    conventions: Conventions<R, X, T, N, J>,
    g: spec_fn(Seq<char>, Extension) -> Option<Seq<char>>,
    draft: DraftView,
    path: Seq<char>,
)
    requires
        extends_as(conventions.rewrite_extension, g),
        drafted(opts, conventions, draft),
    ensures
        draft.files.transpiled.contains(path) <==> left_out(opts.graph@, path),
{
    let (manifest, emissions, json) = lemma_draft(opts, conventions, draft);
    transpiled_modules_are_marked(opts.graph@, emissions, path);
    assert forall|i: int| 0 <= i < opts.graph@.len() implies emissions[i].transpiled == superseded(
        #[trigger] opts.graph@[i],
    ) by {
        lemma_added_paths(
            conventions.rewrite_specifier,
            conventions.rewrite_extension,
            conventions.transpile,
            g,
            opts.package,
            opts.sources.sources@,
            opts.graph@[i],
            emissions[i],
            path,
        );
    }
}

} // verus!
