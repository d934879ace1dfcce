//! What the modules of a package become in the npm package.

use vstd::prelude::*;
use vstd::utf8::encode_utf8;

use crate::address::{file_reference, joined_url, on_registry, package_file};
use crate::convert::{
    extend_with, extends, extends_all, extends_as, extends_one_way, rewrite_with, rewrites,
    rewrites_all, rewrites_as, rewrites_one_way, transpile_with, transpiles, transpiles_all,
    transpiles_as, transpiles_one_way, Extension,
};
use crate::error::{ErrorView, NpmTarballError};
use crate::files::{Emitted, EmittedView, FilesView, PackageFile, PackageFiles};
use crate::graph::{MediaType, Module, ModuleKind};
use crate::rewrite::{
    answers_stand_in_place, longer_by, other_bytes_stay, rewrite_source, rewritten, stands_at,
    untouched,
};
use crate::source::{
    find_source, first_source_is_found, found_source_is_first, inner_range, written_specifiers,
    DependencyDescriptor, DynamicArgument, ParsedSource, ParsedSourceStore, PositionRange,
};
use crate::text::{opt_text, opt_texts, or_text, result_text, same_text, text_or};

verus! {

/// A version of a package on a registry.
#[derive(Clone, Copy, Debug)]
pub struct PackageVersion<'a> {
    /// The address of the registry.
    pub registry_url: &'a str,
    pub scope: &'a str,
    pub package: &'a str,
    pub version: &'a str,
}

impl<'a> PackageVersion<'a> {
    /// How a file of the package is referred to on the registry.
    pub open spec fn file(self, path: Seq<char>) -> Seq<char> {
        file_reference(self.scope@, self.package@, self.version@, path)
    }

    /// The address of a file of the package.
    pub open spec fn file_url(self, path: Seq<char>) -> Option<Seq<char>> {
        joined_url(self.registry_url@, self.file(path))
    }
}

/// Whether `answers` holds what `rewrite` may answer about each specifier that is written down.
pub open spec fn specifier_answers<R: Fn(&str) -> Option<String>>(
    rewrite: R,
    dependencies: Seq<DependencyDescriptor>,
    answers: Seq<Option<Seq<char>>>,
) -> bool {
    &&& answers.len() == dependencies.len()
    &&& forall|i: int|
        0 <= i < dependencies.len() ==> match (#[trigger] dependencies[i]).specifier_text() {
            Some(specifier) => rewrites(rewrite, specifier, answers[i]),
            None => answers[i] is None,
        }
}

/// Whether `content` is what a script becomes: its text with every specifier rewritten.
pub open spec fn script_becomes<R: Fn(&str) -> Option<String>>(
    rewrite: R,
    source: ParsedSource,
    content: Seq<u8>,
) -> bool {
    exists|answers: Seq<Option<Seq<char>>>| #[trigger]
        specifier_answers(rewrite, source.dependencies@, answers) && content == rewritten(
            source,
            answers,
        )
}

/// Whether `file` holds `content` under `path` with the extension, or under `path` itself where
/// there is no way to give it the extension.
pub open spec fn stored_as<X: Fn(&str, Extension) -> Option<String>>(
    extend: X,
    path: Seq<char>,
    extension: Extension,
    content: Seq<u8>,
    file: (Seq<char>, Seq<u8>),
) -> bool {
    &&& file.1 == content
    &&& exists|answer: Option<Seq<char>>| #[trigger]
        extends(extend, path, extension, answer) && file.0 == or_text(answer, path)
}

/// Whether `file` holds what a source transpiles to.
pub open spec fn transpiled_as<
    X: Fn(&str, Extension) -> Option<String>,
    T: Fn(&ParsedSource, &str) -> Result<String, String>,
>(
    extend: X,
    transpile: T,
    source: ParsedSource,
    url: Seq<char>,
    path: Seq<char>,
    file: (Seq<char>, Seq<u8>),
) -> bool {
    exists|code: Seq<char>| #[trigger]
        transpiles(transpile, source, url, Ok(code)) && stored_as(
            extend,
            path,
            Extension::Js,
            encode_utf8(code),
            file,
        )
}

/// Whether `emitted` is what a module may add to the package.
pub open spec fn emits<
    R: Fn(&str) -> Option<String>,
    X: Fn(&str, Extension) -> Option<String>,
    T: Fn(&ParsedSource, &str) -> Result<String, String>,
>(
    rewrite: R,
    extend: X,
    transpile: T,
    package: PackageVersion,
    sources: Seq<ParsedSource>,
    module: Module,
    emitted: EmittedView,
) -> bool {
    let path = module.path@;
    let nothing = EmittedView { code: None, transpiled: false, dts: None };
    if !module.is_file() {
        emitted == nothing
    } else {
        match module.kind {
            ModuleKind::Json { source } => emitted == (EmittedView {
                code: Some((path, encode_utf8(source@))),
                ..nothing
            }),
            ModuleKind::Js { media_type, source, dts } => {
                &&& if media_type.is_script() {
                    emitted.code matches Some(f) && f.0 == path && script_becomes(
                        rewrite,
                        find_source(sources, module.specifier@)->0,
                        f.1,
                    )
                } else if media_type.is_declaration() {
                    emitted.code == Some((path, encode_utf8(source@)))
                } else if media_type.is_transpiled() {
                    match (emitted.code, package.file_url(path)) {
                        (Some(f), Some(url)) => transpiled_as(
                            extend,
                            transpile,
                            find_source(sources, module.specifier@)->0,
                            url,
                            path,
                            f,
                        ),
                        _ => false,
                    }
                } else {
                    emitted.code is None
                }
                &&& emitted.transpiled == media_type.is_transpiled()
                &&& match dts {
                    Some(text) => emitted.dts matches Some(f) && stored_as(
                        extend,
                        path,
                        Extension::Dts,
                        encode_utf8(text@),
                        f,
                    ),
                    None => emitted.dts is None,
                }
            },
            ModuleKind::Other => emitted == nothing,
        }
    }
}

/// Whether `transpile` may refuse a source for the given reason.
pub open spec fn refuses<T: Fn(&ParsedSource, &str) -> Result<String, String>>(
    transpile: T,
    source: ParsedSource,
    url: Seq<char>,
    cause: Seq<char>,
) -> bool {
    transpiles(transpile, source, url, Err(cause))
}

/// Whether a module may fail with `error`: it has no address on the registry, or it does not
/// transpile.
pub open spec fn fails<T: Fn(&ParsedSource, &str) -> Result<String, String>>(
    transpile: T,
    package: PackageVersion,
    sources: Seq<ParsedSource>,
    module: Module,
    error: ErrorView,
) -> bool {
    &&& module.needs_source()
    &&& module.kind->media_type.is_transpiled()
    &&& match package.file_url(module.path@) {
        Some(url) => exists|cause: Seq<char>| #[trigger]
            refuses(transpile, find_source(sources, module.specifier@)->0, url, cause) && error == (
            ErrorView::Transpile { path: module.path@, cause }),
        None => error == (ErrorView::InvalidUrl { reference: package.file(module.path@) }),
    }
}

/// Whether the source that a module is packed from is at hand, with a place for every specifier
/// where specifiers are rewritten.
pub open spec fn at_hand(sources: Seq<ParsedSource>, module: Module) -> bool {
    module.needs_source() ==> match find_source(sources, module.specifier@) {
        Some(source) => module.kind->media_type.is_script() ==> source.well_formed(),
        None => false,
    }
}

/// Whether the source that a module is packed from is at hand, with a place for every specifier
/// where specifiers are rewritten.
pub fn is_at_hand(sources: &ParsedSourceStore, module: &Module) -> (r: bool)
    ensures
        r == at_hand(sources.sources@, *module),
{
    if !same_text(module.scheme.as_str(), "file") {
        return true;
    }
    match &module.kind {
        ModuleKind::Js { media_type, .. } => match media_type {
            MediaType::JavaScript | MediaType::Mjs => {
                match sources.get_parsed_source(module.specifier.as_str()) {
                    Some(source) => source.is_well_formed(),
                    None => false,
                }
            },
            MediaType::Jsx | MediaType::TypeScript | MediaType::Mts | MediaType::Tsx => {
                sources.get_parsed_source(module.specifier.as_str()).is_some()
            },
            _ => true,
        },
        _ => true,
    }
}

/// The text of a script with every specifier rewritten.
pub fn rewrite_script<R: Fn(&str) -> Option<String>>(source: &ParsedSource, rewrite: &R) -> (r:
    String)
    requires
        source.well_formed(),
        rewrites_all(*rewrite),
    ensures
        script_becomes(*rewrite, *source, encode_utf8(r@)),
{
    let mut answers: Vec<Option<String>> = Vec::new();
    let mut i: usize = 0;
    while i < source.dependencies.len()
        invariant
            i <= source.dependencies@.len(),
            answers@.len() == i,
            rewrites_all(*rewrite),
            forall|j: int|
                0 <= j < i ==> match (#[trigger] source.dependencies@[j]).specifier_text() {
                    Some(specifier) => rewrites(*rewrite, specifier, opt_text(answers@[j])),
                    None => answers@[j] is None,
                },
        decreases source.dependencies@.len() - i,
    {
        let answer = match source.dependencies[i].specifier() {
            Some(specifier) => rewrite_with(rewrite, specifier.as_str()),
            None => None,
        };
        answers.push(answer);
        i = i + 1;
    }
    let text = rewrite_source(source, &answers);
    assert(specifier_answers(*rewrite, source.dependencies@, opt_texts(answers@)));
    text
}

/// What a module adds to the package.
pub fn emit_module<
    R: Fn(&str) -> Option<String>,
    X: Fn(&str, Extension) -> Option<String>,
    T: Fn(&ParsedSource, &str) -> Result<String, String>,
>(
    package: &PackageVersion,
    sources: &ParsedSourceStore,
    module: &Module,
    rewrite: &R,
    extend: &X,
    transpile: &T,
) -> (r: Result<Emitted, NpmTarballError>)
    requires
        at_hand(sources.sources@, *module),
        rewrites_all(*rewrite),
        extends_all(*extend),
        transpiles_all(*transpile),
    ensures
        match r {
            Ok(emitted) => emits(
                *rewrite,
                *extend,
                *transpile,
                *package,
                sources.sources@,
                *module,
                emitted@,
            ),
            Err(e) => fails(*transpile, *package, sources.sources@, *module, e@),
        },
{
    if !same_text(module.scheme.as_str(), "file") {
        return Ok(Emitted { code: None, transpiled: false, dts: None });
    }
    match &module.kind {
        ModuleKind::Json { source } => Ok(
            Emitted {
                code: Some(
                    PackageFile {
                        path: module.path.clone(),
                        content: source.as_str().as_bytes_vec(),
                    },
                ),
                transpiled: false,
                dts: None,
            },
        ),
        ModuleKind::Other => Ok(Emitted { code: None, transpiled: false, dts: None }),
        ModuleKind::Js { media_type, source, dts } => {
            let mut transpiled = false;
            let code = match media_type {
                MediaType::JavaScript | MediaType::Mjs => {
                    match sources.get_parsed_source(module.specifier.as_str()) {
                        Some(parsed) => Some(
                            PackageFile {
                                path: module.path.clone(),
                                content: rewrite_script(parsed, rewrite).as_str().as_bytes_vec(),
                            },
                        ),
                        None => None,
                    }
                },
                MediaType::Dts | MediaType::Dmts => Some(
                    PackageFile {
                        path: module.path.clone(),
                        content: source.as_str().as_bytes_vec(),
                    },
                ),
                MediaType::Jsx | MediaType::TypeScript | MediaType::Mts | MediaType::Tsx => {
                    transpiled = true;
                    match sources.get_parsed_source(module.specifier.as_str()) {
                        Some(parsed) => {
                            let reference = package_file(
                                package.scope,
                                package.package,
                                package.version,
                                module.path.as_str(),
                            );
                            let url = match on_registry(
                                package.registry_url,
                                reference.as_str(),
                            ) {
                                Some(url) => url,
                                None => {
                                    return Err(NpmTarballError::InvalidUrl { reference });
                                },
                            };
                            let text = match transpile_with(transpile, parsed, url.as_str()) {
                                Ok(text) => text,
                                Err(cause) => {
                                    assert(refuses(
                                        *transpile,
                                        find_source(sources.sources@, module.specifier@)->0,
                                        package.file_url(module.path@)->0,
                                        cause@,
                                    ));
                                    return Err(
                                        NpmTarballError::Transpile {
                                            path: module.path.clone(),
                                            cause,
                                        },
                                    );
                                },
                            };
                            let path = extend_with(extend, module.path.as_str(), Extension::Js);
                            Some(
                                PackageFile {
                                    path: text_or(path, &module.path),
                                    content: text.as_str().as_bytes_vec(),
                                },
                            )
                        },
                        None => None,
                    }
                },
                _ => None,
            };
            let dts = match dts {
                Some(text) => {
                    let path = extend_with(extend, module.path.as_str(), Extension::Dts);
                    Some(
                        PackageFile {
                            path: text_or(path, &module.path),
                            content: text.as_str().as_bytes_vec(),
                        },
                    )
                },
                None => None,
            };
            Ok(Emitted { code, transpiled, dts })
        },
    }
}

/// Whether `emissions` holds what each module may add to the package.
pub open spec fn all_emit<
    R: Fn(&str) -> Option<String>,
    X: Fn(&str, Extension) -> Option<String>,
    T: Fn(&ParsedSource, &str) -> Result<String, String>,
>(
    rewrite: R,
    extend: X,
    transpile: T,
    package: PackageVersion,
    sources: Seq<ParsedSource>,
    modules: Seq<Module>,
    emissions: Seq<EmittedView>,
) -> bool {
    &&& emissions.len() == modules.len()
    &&& forall|i: int|
        0 <= i < modules.len() ==> emits(
            rewrite,
            extend,
            transpile,
            package,
            sources,
            #[trigger] modules[i],
            emissions[i],
        )
}

/// The files that the modules add, one module after the other.
pub open spec fn gathered(modules: Seq<Module>, emissions: Seq<EmittedView>) -> FilesView
    decreases modules.len(),
{
    if modules.len() == 0 {
        FilesView::empty()
    } else {
        gathered(modules.drop_last(), emissions.drop_last()).with_module(
            modules.last().path@,
            emissions.last(),
        )
    }
}

/// Whether the module `failed`, after all before it were packed, may fail with `error`.
pub open spec fn first_fails<
    R: Fn(&str) -> Option<String>,
    X: Fn(&str, Extension) -> Option<String>,
    T: Fn(&ParsedSource, &str) -> Result<String, String>,
>(
    rewrite: R,
    extend: X,
    transpile: T,
    package: PackageVersion,
    sources: Seq<ParsedSource>,
    modules: Seq<Module>,
    failed: int,
    error: ErrorView,
) -> bool {
    &&& 0 <= failed < modules.len()
    &&& fails(transpile, package, sources, modules[failed], error)
    &&& exists|emissions: Seq<EmittedView>| #[trigger]
        all_emit(
            rewrite,
            extend,
            transpile,
            package,
            sources,
            modules.take(failed),
            emissions,
        )
}

/// Whether the source of every module is at hand that is reached: all modules before it may be
/// packed.
pub open spec fn reached_at_hand<
    R: Fn(&str) -> Option<String>,
    X: Fn(&str, Extension) -> Option<String>,
    T: Fn(&ParsedSource, &str) -> Result<String, String>,
>(
    rewrite: R,
    extend: X,
    transpile: T,
    package: PackageVersion,
    sources: Seq<ParsedSource>,
    modules: Seq<Module>,
) -> bool {
    forall|i: int, emissions: Seq<EmittedView>|
        0 <= i < modules.len() && #[trigger] all_emit(
            rewrite,
            extend,
            transpile,
            package,
            sources,
            modules.take(i),
            emissions,
        ) ==> at_hand(sources, modules[i])
}

/// The files that the modules add to the package. Fails with the first module that does.
pub fn module_files<
    R: Fn(&str) -> Option<String>,
    X: Fn(&str, Extension) -> Option<String>,
    T: Fn(&ParsedSource, &str) -> Result<String, String>,
>(
    package: &PackageVersion,
    sources: &ParsedSourceStore,
    modules: &Vec<Module>,
    rewrite: &R,
    extend: &X,
    transpile: &T,
) -> (r: Result<PackageFiles, NpmTarballError>)
    requires
        reached_at_hand(
            *rewrite,
            *extend,
            *transpile,
            *package,
            sources.sources@,
            modules@,
        ),
        rewrites_all(*rewrite),
        extends_all(*extend),
        transpiles_all(*transpile),
    ensures
        match r {
            Ok(files) => exists|emissions: Seq<EmittedView>| #[trigger]
                all_emit(
                    *rewrite,
                    *extend,
                    *transpile,
                    *package,
                    sources.sources@,
                    modules@,
                    emissions,
                ) && files@ == gathered(modules@, emissions),
            Err(e) => exists|failed: int| #[trigger]
                first_fails(
                    *rewrite,
                    *extend,
                    *transpile,
                    *package,
                    sources.sources@,
                    modules@,
                    failed,
                    e@,
                ),
        },
{
    let mut files = PackageFiles::new();
    let ghost mut emissions: Seq<EmittedView> = Seq::empty();
    let mut i: usize = 0;
    while i < modules.len()
        invariant
            i <= modules@.len(),
            reached_at_hand(
                *rewrite,
                *extend,
                *transpile,
                *package,
                sources.sources@,
                modules@,
            ),
            rewrites_all(*rewrite),
            extends_all(*extend),
            transpiles_all(*transpile),
            all_emit(
                *rewrite,
                *extend,
                *transpile,
                *package,
                sources.sources@,
                modules@.take(i as int),
                emissions,
            ),
            files@ == gathered(modules@.take(i as int), emissions),
        decreases modules@.len() - i,
    {
        let module = &modules[i];
        let emitted = match emit_module(package, sources, module, rewrite, extend, transpile) {
            Ok(emitted) => emitted,
            Err(e) => {
                assert(first_fails(
                    *rewrite,
                    *extend,
                    *transpile,
                    *package,
                    sources.sources@,
                    modules@,
                    i as int,
                    e@,
                ));
                return Err(e);
            },
        };
        proof {
            let before = emissions;
            emissions = emissions.push(emitted@);
            assert(modules@.take(i + 1).drop_last() =~= modules@.take(i as int));
            assert(emissions.drop_last() =~= before);
            assert forall|j: int| 0 <= j < i + 1 implies emits(
                *rewrite,
                *extend,
                *transpile,
                *package,
                sources.sources@,
                #[trigger] modules@.take(i + 1)[j],
                emissions[j],
            ) by {
                if j < i {
                    assert(modules@.take(i as int)[j] == modules@[j]);
                }
            }
        }
        files.insert_module(&module.path, emitted);
        i = i + 1;
    }
    assert(modules@.take(i as int) =~= modules@);
    Ok(files)
}

/// Where specifiers are answered one way, a script becomes one text.
proof fn lemma_script_one_way<R: Fn(&str) -> Option<String>>(
    rewrite: R,
    source: ParsedSource,
    a: Seq<u8>,
    b: Seq<u8>,
)
    requires
        rewrites_one_way(rewrite),
        script_becomes(rewrite, source, a),
        script_becomes(rewrite, source, b),
    ensures
        a == b,
{
    let x = choose|x: Seq<Option<Seq<char>>>| #[trigger]
        specifier_answers(rewrite, source.dependencies@, x) && a == rewritten(source, x);
    let y = choose|y: Seq<Option<Seq<char>>>| #[trigger]
        specifier_answers(rewrite, source.dependencies@, y) && b == rewritten(source, y);
    assert forall|i: int| 0 <= i < x.len() implies x[i] == y[i] by {
        if let Some(specifier) = source.dependencies@[i].specifier_text() {
            assert(rewrites(rewrite, specifier, x[i]) && rewrites(rewrite, specifier, y[i]));
        }
    }
    assert(x =~= y);
}

/// Where paths and sources are answered one way, a source transpiles to one file.
proof fn lemma_transpiled_one_way<
    X: Fn(&str, Extension) -> Option<String>,
    T: Fn(&ParsedSource, &str) -> Result<String, String>,
>(
    extend: X,
    transpile: T,
    source: ParsedSource,
    url: Seq<char>,
    path: Seq<char>,
    a: (Seq<char>, Seq<u8>),
    b: (Seq<char>, Seq<u8>),
)
    requires
        extends_one_way(extend),
        transpiles_one_way(transpile),
        transpiled_as(extend, transpile, source, url, path, a),
        transpiled_as(extend, transpile, source, url, path, b),
    ensures
        a == b,
{
    let x = choose|x: Seq<char>| #[trigger]
        transpiles(transpile, source, url, Ok(x)) && stored_as(
            extend,
            path,
            Extension::Js,
            encode_utf8(x),
            a,
        );
    let y = choose|y: Seq<char>| #[trigger]
        transpiles(transpile, source, url, Ok(y)) && stored_as(
            extend,
            path,
            Extension::Js,
            encode_utf8(y),
            b,
        );
    let first: Result<Seq<char>, Seq<char>> = Ok(x);
    let second: Result<Seq<char>, Seq<char>> = Ok(y);
    assert(transpiles(transpile, source, url, first) && transpiles(transpile, source, url, second));
    assert(first == second);
}

/// Where all questions are answered one way, a module adds one thing to the package.
pub proof fn emits_one_way<
    R: Fn(&str) -> Option<String>,
    X: Fn(&str, Extension) -> Option<String>,
    T: Fn(&ParsedSource, &str) -> Result<String, String>,
>(
    rewrite: R,
    extend: X,
    transpile: T,
    package: PackageVersion,
    sources: Seq<ParsedSource>,
    module: Module,
    a: EmittedView,
    b: EmittedView,
)
    requires
        rewrites_one_way(rewrite),
        extends_one_way(extend),
        transpiles_one_way(transpile),
        emits(rewrite, extend, transpile, package, sources, module, a),
        emits(rewrite, extend, transpile, package, sources, module, b),
    ensures
        a == b,
{
    if module.is_file() {
        if let ModuleKind::Js { media_type, source, dts } = module.kind {
            let parsed = find_source(sources, module.specifier@)->0;
            if media_type.is_script() {
                lemma_script_one_way(rewrite, parsed, (a.code->0).1, (b.code->0).1);
            } else if media_type.is_transpiled() {
                lemma_transpiled_one_way(
                    extend,
                    transpile,
                    parsed,
                    package.file_url(module.path@)->0,
                    module.path@,
                    a.code->0,
                    b.code->0,
                );
            }
        }
    }
}

/// Where sources are answered one way, a module adds something or fails, not both.
pub proof fn emitted_or_failed<
    R: Fn(&str) -> Option<String>,
    X: Fn(&str, Extension) -> Option<String>,
    T: Fn(&ParsedSource, &str) -> Result<String, String>,
>(
    rewrite: R,
    extend: X,
    transpile: T,
    package: PackageVersion,
    sources: Seq<ParsedSource>,
    module: Module,
    emitted: EmittedView,
    error: ErrorView,
)
    requires
        transpiles_one_way(transpile),
        emits(rewrite, extend, transpile, package, sources, module, emitted),
    ensures
        !fails(transpile, package, sources, module, error),
{
    if fails(transpile, package, sources, module, error) {
        let source = find_source(sources, module.specifier@)->0;
        let url = package.file_url(module.path@)->0;
        let cause = choose|cause: Seq<char>| #[trigger]
            refuses(transpile, source, url, cause) && error == (ErrorView::Transpile {
                path: module.path@,
                cause,
            });
        let code = choose|code: Seq<char>| #[trigger]
            transpiles(transpile, source, url, Ok(code)) && stored_as(
                extend,
                module.path@,
                Extension::Js,
                encode_utf8(code),
                emitted.code->0,
            );
        let first: Result<Seq<char>, Seq<char>> = Ok(code);
        let second: Result<Seq<char>, Seq<char>> = Err(cause);
        assert(transpiles(transpile, source, url, first));
        assert(transpiles(transpile, source, url, second));
        assert(first == second);
    }
}

/// The answers of a script are those that `f` gives.
proof fn lemma_script_answers<R: Fn(&str) -> Option<String>>(
    rewrite: R,
    f: spec_fn(Seq<char>) -> Option<Seq<char>>,
    source: ParsedSource,
    content: Seq<u8>,
) -> (answers: Seq<Option<Seq<char>>>)
    requires
        rewrites_as(rewrite, f),
        script_becomes(rewrite, source, content),
    ensures
        content == rewritten(source, answers),
        answers.len() == source.dependencies@.len(),
        forall|j: int|
            0 <= j < source.dependencies@.len() ==> match (
            #[trigger] source.dependencies@[j]).specifier_text() {
                Some(specifier) => answers[j] == f(specifier),
                None => answers[j] is None,
            },
{
    let answers = choose|answers: Seq<Option<Seq<char>>>| #[trigger]
        specifier_answers(rewrite, source.dependencies@, answers) && content == rewritten(
            source,
            answers,
        );
    assert forall|j: int| 0 <= j < source.dependencies@.len() implies match (
    #[trigger] source.dependencies@[j]).specifier_text() {
        Some(specifier) => answers[j] == f(specifier),
        None => answers[j] is None,
    } by {
        if let Some(specifier) = source.dependencies@[j].specifier_text() {
            assert(rewrites(rewrite, specifier, answers[j]));
        }
    }
    answers
}

/// In a script, what `f` gives for a specifier stands in its place, between the quotation marks:
/// for every specifier that is imported or exported from, and for every string that is loaded.
pub proof fn every_specifier_is_rewritten<R: Fn(&str) -> Option<String>>(
    rewrite: R,
    f: spec_fn(Seq<char>) -> Option<Seq<char>>,
    source: ParsedSource,
    content: Seq<u8>,
    i: int,
    specifier: Seq<char>,
    place: PositionRange,
    new: Seq<char>,
)
    requires
        source.well_formed(),
        rewrites_as(rewrite, f),
        script_becomes(rewrite, source, content),
        0 <= i < source.dependencies@.len(),
        match source.dependencies@[i] {
            DependencyDescriptor::Static { specifier: s, specifier_range } => s@ == specifier
                && specifier_range == place,
            DependencyDescriptor::Dynamic { argument, argument_range } => match argument {
                DynamicArgument::String(s) => s@ == specifier && argument_range == place,
                DynamicArgument::Template => false,
                DynamicArgument::Expr => false,
            },
        },
        f(specifier) == Some(new),
        forall|j: int|
            0 <= j < source.dependencies@.len() && j != i ==> match (
            #[trigger] source.dependencies@[j]) {
                DependencyDescriptor::Static { specifier_range, .. } => inner_range(
                    source.text@,
                    specifier_range,
                ) != inner_range(source.text@, place),
                DependencyDescriptor::Dynamic { argument, argument_range } => argument is String
                    ==> inner_range(source.text@, argument_range) != inner_range(
                    source.text@,
                    place,
                ),
            },
    ensures
        stands_at(source, f, content, inner_range(source.text@, place), encode_utf8(new)),
{
    let answers = lemma_script_answers(rewrite, f, source, content);
    written_specifiers(source.dependencies@[i]);
    assert forall|j: int|
        0 <= j < source.dependencies@.len() && j != i && (
        #[trigger] source.dependencies@[j]).specifier_text() is Some implies inner_range(
        source.text@,
        source.dependencies@[j].place(),
    ) != inner_range(source.text@, source.dependencies@[i].place()) by {
        written_specifiers(source.dependencies@[j]);
    }
    answers_stand_in_place(source, f, answers, i);
}

/// In a script, every byte that is not inside the place of a specifier for which `f` gives something
/// stays, and nothing else is put in.
pub proof fn the_rest_of_a_script_stays<R: Fn(&str) -> Option<String>>(
    rewrite: R,
    f: spec_fn(Seq<char>) -> Option<Seq<char>>,
    source: ParsedSource,
    content: Seq<u8>,
)
    requires
        source.well_formed(),
        rewrites_as(rewrite, f),
        script_becomes(rewrite, source, content),
    ensures
        content.len() == encode_utf8(source.text@).len() + longer_by(
            source.text@,
            source.dependencies@,
            f,
            |start: int, end: int| true,
        ),
        forall|b: int| #[trigger]
            untouched(source, f, b) ==> {
                let at = b + longer_by(
                    source.text@,
                    source.dependencies@,
                    f,
                    |start: int, end: int| end <= b,
                );
                &&& 0 <= at < content.len()
                &&& content[at] == encode_utf8(source.text@)[b]
            },
{
    let answers = lemma_script_answers(rewrite, f, source, content);
    other_bytes_stay(source, f, answers);
}

/// A module that is not a file of the package adds nothing.
pub proof fn other_modules_add_nothing<
    R: Fn(&str) -> Option<String>,
    X: Fn(&str, Extension) -> Option<String>,
    T: Fn(&ParsedSource, &str) -> Result<String, String>,
>(
    rewrite: R,
    extend: X,
    transpile: T,
    package: PackageVersion,
    sources: Seq<ParsedSource>,
    module: Module,
    emitted: EmittedView,
)
    requires
        emits(rewrite, extend, transpile, package, sources, module, emitted),
        module.scheme@ != "file"@ || module.kind is Other,
    ensures
        emitted.code is None,
        emitted.dts is None,
        !emitted.transpiled,
{
}

/// Data is added as it is.
pub proof fn data_is_added<
    R: Fn(&str) -> Option<String>,
    X: Fn(&str, Extension) -> Option<String>,
    T: Fn(&ParsedSource, &str) -> Result<String, String>,
>(
    rewrite: R,
    extend: X,
    transpile: T,
    package: PackageVersion,
    sources: Seq<ParsedSource>,
    module: Module,
    emitted: EmittedView,
    source: String,
)
    requires
        emits(rewrite, extend, transpile, package, sources, module, emitted),
        module.scheme@ == "file"@,
        module.kind == (ModuleKind::Json { source }),
    ensures
        emitted.code == Some((module.path@, encode_utf8(source@))),
        emitted.dts is None,
        !emitted.transpiled,
{
}

/// Declarations are added as they are.
pub proof fn declarations_are_added<
    R: Fn(&str) -> Option<String>,
    X: Fn(&str, Extension) -> Option<String>,
    T: Fn(&ParsedSource, &str) -> Result<String, String>,
>(
    rewrite: R,
    extend: X,
    transpile: T,
    package: PackageVersion,
    sources: Seq<ParsedSource>,
    module: Module,
    emitted: EmittedView,
    media_type: MediaType,
    source: String,
    dts: Option<String>,
)
    requires
        emits(rewrite, extend, transpile, package, sources, module, emitted),
        module.scheme@ == "file"@,
        module.kind == (ModuleKind::Js { media_type, source, dts }),
        media_type == MediaType::Dts || media_type == MediaType::Dmts,
    ensures
        emitted.code == Some((module.path@, encode_utf8(source@))),
        !emitted.transpiled,
{
}

/// Scripts are added under their own paths, with their specifiers rewritten.
pub proof fn scripts_are_added<
    R: Fn(&str) -> Option<String>,
    X: Fn(&str, Extension) -> Option<String>,
    T: Fn(&ParsedSource, &str) -> Result<String, String>,
>(
    rewrite: R,
    extend: X,
    transpile: T,
    package: PackageVersion,
    sources: Seq<ParsedSource>,
    module: Module,
    emitted: EmittedView,
    media_type: MediaType,
    source: String,
    dts: Option<String>,
    k: int,
)
    requires
        emits(rewrite, extend, transpile, package, sources, module, emitted),
        module.scheme@ == "file"@,
        module.kind == (ModuleKind::Js { media_type, source, dts }),
        media_type == MediaType::JavaScript || media_type == MediaType::Mjs,
        0 <= k < sources.len(),
        sources[k].specifier@ == module.specifier@,
        forall|j: int| 0 <= j < k ==> (#[trigger] sources[j]).specifier@ != module.specifier@,
    ensures
        emitted.code is Some,
        (emitted.code->0).0 == module.path@,
        script_becomes(rewrite, sources[k], (emitted.code->0).1),
        !emitted.transpiled,
{
    first_source_is_found(sources, module.specifier@, k);
}

/// What `transpile` makes of JSX, TypeScript and TSX is added, under the path that `extend` gives for
/// executable code, or the path itself where it gives none, and the source is marked as transpiled.
/// `transpile` is told the address of the source on the registry.
pub proof fn transpiled_code_is_added<
    R: Fn(&str) -> Option<String>,
    X: Fn(&str, Extension) -> Option<String>,
    T: Fn(&ParsedSource, &str) -> Result<String, String>,
>(
    rewrite: R,
    extend: X,
    transpile: T,
    g: spec_fn(Seq<char>, Extension) -> Option<Seq<char>>,
    h: spec_fn(ParsedSource, Seq<char>) -> Result<Seq<char>, Seq<char>>,
    package: PackageVersion,
    sources: Seq<ParsedSource>,
    module: Module,
    emitted: EmittedView,
    media_type: MediaType,
    source: String,
    dts: Option<String>,
    k: int,
    url: Seq<char>,
)
    requires
        extends_as(extend, g),
        transpiles_as(transpile, h),
        emits(rewrite, extend, transpile, package, sources, module, emitted),
        module.scheme@ == "file"@,
        module.kind == (ModuleKind::Js { media_type, source, dts }),
        media_type == MediaType::Jsx || media_type == MediaType::TypeScript || media_type
            == MediaType::Mts || media_type == MediaType::Tsx,
        0 <= k < sources.len(),
        sources[k].specifier@ == module.specifier@,
        forall|j: int| 0 <= j < k ==> (#[trigger] sources[j]).specifier@ != module.specifier@,
        joined_url(
            package.registry_url@,
            "./@"@ + package.scope@ + "/"@ + package.package@ + "/"@ + package.version@
                + module.path@,
        ) == Some(url),
    ensures
        h(sources[k], url) is Ok,
        emitted.code == Some(
            (
                match g(module.path@, Extension::Js) {
                    Some(path) => path,
                    None => module.path@,
                },
                encode_utf8(h(sources[k], url)->Ok_0),
            ),
        ),
        emitted.transpiled,
{
    first_source_is_found(sources, module.specifier@, k);
    let file = emitted.code->0;
    let code = choose|code: Seq<char>| #[trigger]
        transpiles(transpile, sources[k], url, Ok(code)) && stored_as(
            extend,
            module.path@,
            Extension::Js,
            encode_utf8(code),
            file,
        );
    assert(transpiles(transpile, sources[k], url, Ok(code)));
    lemma_transpiles_as(transpile, h, sources[k], url, Ok(code));
    lemma_stored_as(extend, g, module.path@, Extension::Js, encode_utf8(code), file);
}

/// Code of any other type adds no code.
pub proof fn other_code_is_not_added<
    R: Fn(&str) -> Option<String>,
    X: Fn(&str, Extension) -> Option<String>,
    T: Fn(&ParsedSource, &str) -> Result<String, String>,
>(
    rewrite: R,
    extend: X,
    transpile: T,
    package: PackageVersion,
    sources: Seq<ParsedSource>,
    module: Module,
    emitted: EmittedView,
    media_type: MediaType,
    source: String,
    dts: Option<String>,
)
    requires
        emits(rewrite, extend, transpile, package, sources, module, emitted),
        module.scheme@ == "file"@,
        module.kind == (ModuleKind::Js { media_type, source, dts }),
        match media_type {
            MediaType::Cjs
            | MediaType::Cts
            | MediaType::Dcts
            | MediaType::Json
            | MediaType::Wasm
            | MediaType::TsBuildInfo
            | MediaType::SourceMap
            | MediaType::Unknown => true,
            _ => false,
        },
    ensures
        emitted.code is None,
        !emitted.transpiled,
{
}

/// Generated declarations are added under the path that `extend` gives for them, or the path of the
/// module where it gives none, whatever the type of the code; where none were generated, none are.
pub proof fn generated_declarations_are_added<
    R: Fn(&str) -> Option<String>,
    X: Fn(&str, Extension) -> Option<String>,
    T: Fn(&ParsedSource, &str) -> Result<String, String>,
>(
    rewrite: R,
    extend: X,
    transpile: T,
    g: spec_fn(Seq<char>, Extension) -> Option<Seq<char>>,
    package: PackageVersion,
    sources: Seq<ParsedSource>,
    module: Module,
    emitted: EmittedView,
    media_type: MediaType,
    source: String,
    dts: Option<String>,
)
    requires
        extends_as(extend, g),
        emits(rewrite, extend, transpile, package, sources, module, emitted),
        module.scheme@ == "file"@,
        module.kind == (ModuleKind::Js { media_type, source, dts }),
    ensures
        emitted.dts == match dts {
            Some(text) => Some(
                (
                    match g(module.path@, Extension::Dts) {
                        Some(path) => path,
                        None => module.path@,
                    },
                    encode_utf8(text@),
                ),
            ),
            None => None,
        },
{
    if let Some(text) = dts {
        lemma_stored_as(
            extend,
            g,
            module.path@,
            Extension::Dts,
            encode_utf8(text@),
            emitted.dts->0,
        );
    }
}

/// What is stored under a path with an extension is stored under the path that `g` gives.
pub(crate) proof fn lemma_stored_as<X: Fn(&str, Extension) -> Option<String>>(
    extend: X,
    g: spec_fn(Seq<char>, Extension) -> Option<Seq<char>>,
    path: Seq<char>,
    extension: Extension,
    content: Seq<u8>,
    file: (Seq<char>, Seq<u8>),
)
    requires
        extends_as(extend, g),
        stored_as(extend, path, extension, content, file),
    ensures
        file == (
            match g(path, extension) {
                Some(other) => other,
                None => path,
            },
            content,
        ),
{
    let answer = choose|answer: Option<Seq<char>>| #[trigger]
        extends(extend, path, extension, answer) && file.0 == or_text(answer, path);
    let (s, r) = choose|s: &str, r: Option<String>|
        s@ == path && #[trigger] call_ensures(extend, (s, extension), r) && opt_text(r) == answer;
    assert(call_ensures(extend, (s, extension), r));
}

/// What a source transpiles to is what `h` gives.
pub(crate) proof fn lemma_transpiles_as<T: Fn(&ParsedSource, &str) -> Result<String, String>>(
    transpile: T,
    h: spec_fn(ParsedSource, Seq<char>) -> Result<Seq<char>, Seq<char>>,
    source: ParsedSource,
    url: Seq<char>,
    answer: Result<Seq<char>, Seq<char>>,
)
    requires
        transpiles_as(transpile, h),
        transpiles(transpile, source, url, answer),
    ensures
        h(source, url) == answer,
{
    let (u, r) = choose|u: &str, r: Result<String, String>|
        u@ == url && #[trigger] call_ensures(transpile, (&source, u), r) && result_text(r)
            == answer;
    assert(call_ensures(transpile, (&source, u), r));
}

/// A module fails where JSX, TypeScript or TSX of the package has no address on the registry, or
/// `transpile` refuses it, and nowhere else.
pub proof fn only_transpiling_fails<T: Fn(&ParsedSource, &str) -> Result<String, String>>(
    transpile: T,
    h: spec_fn(ParsedSource, Seq<char>) -> Result<Seq<char>, Seq<char>>,
    package: PackageVersion,
    sources: Seq<ParsedSource>,
    module: Module,
    k: int,
    error: ErrorView,
)
    requires
        transpiles_as(transpile, h),
        fails(transpile, package, sources, module, error),
        0 <= k < sources.len(),
        sources[k].specifier@ == module.specifier@,
        forall|j: int| 0 <= j < k ==> (#[trigger] sources[j]).specifier@ != module.specifier@,
    ensures
        module.scheme@ == "file"@,
        match module.kind {
            ModuleKind::Js { media_type, .. } => media_type == MediaType::Jsx || media_type
                == MediaType::TypeScript || media_type == MediaType::Mts || media_type
                == MediaType::Tsx,
            _ => false,
        },
        ({
            let reference = "./@"@ + package.scope@ + "/"@ + package.package@ + "/"@
                + package.version@ + module.path@;
            match joined_url(package.registry_url@, reference) {
                Some(url) => {
                    &&& h(sources[k], url) is Err
                    &&& error == (ErrorView::Transpile {
                        path: module.path@,
                        cause: h(sources[k], url)->Err_0,
                    })
                },
                None => error == (ErrorView::InvalidUrl { reference }),
            }
        }),
{
    first_source_is_found(sources, module.specifier@, k);
    if let Some(url) = package.file_url(module.path@) {
        let cause = choose|cause: Seq<char>| #[trigger]
            refuses(transpile, sources[k], url, cause) && error == (ErrorView::Transpile {
                path: module.path@,
                cause,
            });
        assert(transpiles(transpile, sources[k], url, Err(cause)));
        lemma_transpiles_as(transpile, h, sources[k], url, Err(cause));
    }
}

/// No source is needed but those of scripts, whose specifiers need places of their own, and of JSX,
/// TypeScript and TSX.
pub proof fn needed_sources(sources: Seq<ParsedSource>, module: Module)
    requires
        module.scheme@ == "file"@ ==> match module.kind {
            ModuleKind::Js { media_type, .. } => match media_type {
                MediaType::JavaScript | MediaType::Mjs => exists|k: int|
                    {
                        &&& 0 <= k < sources.len()
                        &&& (#[trigger] sources[k]).specifier@ == module.specifier@
                        &&& sources[k].well_formed()
                        &&& forall|j: int|
                            0 <= j < k ==> (#[trigger] sources[j]).specifier@ != module.specifier@
                    },
                MediaType::Jsx
                | MediaType::TypeScript
                | MediaType::Mts
                | MediaType::Tsx => exists|k: int|
                    0 <= k < sources.len() && (#[trigger] sources[k]).specifier@
                        == module.specifier@,
                _ => true,
            },
            _ => true,
        },
    ensures
        at_hand(sources, module),
{
    found_source_is_first(sources, module.specifier@);
}

/// A script whose source is at hand has one, whose specifiers have places of their own, and JSX,
/// TypeScript and TSX have one, too.
pub proof fn sources_that_are_at_hand(
    sources: Seq<ParsedSource>,
    module: Module,
    media_type: MediaType,
    source: String,
    dts: Option<String>,
) -> (k: int)
    requires
        at_hand(sources, module),
        module.scheme@ == "file"@,
        module.kind == (ModuleKind::Js { media_type, source, dts }),
        match media_type {
            MediaType::JavaScript
            | MediaType::Mjs
            | MediaType::Jsx
            | MediaType::TypeScript
            | MediaType::Mts
            | MediaType::Tsx => true,
            _ => false,
        },
    ensures
        0 <= k < sources.len(),
        sources[k].specifier@ == module.specifier@,
        forall|j: int| 0 <= j < k ==> (#[trigger] sources[j]).specifier@ != module.specifier@,
        media_type == MediaType::JavaScript || media_type == MediaType::Mjs
            ==> sources[k].well_formed(),
{
    found_source_is_first(sources, module.specifier@);
    let found = find_source(sources, module.specifier@)->0;
    choose|k: int|
        {
            &&& 0 <= k < sources.len()
            &&& #[trigger] sources[k] == found
            &&& found.specifier@ == module.specifier@
            &&& forall|j: int|
                0 <= j < k ==> (#[trigger] sources[j]).specifier@ != module.specifier@
        }
}

} // verus!
