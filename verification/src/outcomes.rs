//! What making the tarball of a package comes to.
//!
//! Here the conventions are known by functions: `g` for extensions, `h` for transpiled code and `k`
//! for written manifests.

use vstd::prelude::*;
use vstd::seq_lib::to_multiset_contains;
use vstd::utf8::encode_utf8;

use crate::address::joined_url;
use crate::archive::{
    first_unstored, gunzipped, reads_as, tar_entries, tar_file, unstorable, unstored_error,
    ustar_header,
};
use crate::bin::commands_become;
use crate::contents::{
    last_arrival_decides, lemma_bytes_decide, lemma_stays, missing_paths_are_fetched,
    only_source_files_come_in, ordinary, ordinary_paths_are_rooted, packed_files_unpack,
    source_files_are_packed, unpacks,
};
use crate::convert::{extends_as, transpiles, transpiles_as, Extension};
use crate::dependencies::dependencies_become;
use crate::digest::{base64_text, hex_is_hexadecimal, sha1_hash, sha512_hash};
use crate::emit::{all_emit, emits, first_fails, gathered, lemma_transpiles_as, stored_as};
use crate::error::{ErrorView, NpmTarballError};
use crate::exports::exports_become;
use crate::files::{package_files, EmittedView};
use crate::graph::{MediaType, ModuleKind};
use crate::laws::fetched_files_leave_the_rest;
use crate::manifest::{writes, writes_as, ManifestView, NpmPackageJson};
use crate::maps::{has_key, put_changes_one_key};
use crate::packages::{
    extended, left_out, left_out_paths_are_marked, lemma_draft, made, made_later,
    made_paths_are_drafted, superseded, transpiled_code_is_drafted,
};
use crate::source::{first_source_is_found, ParsedSource};
use crate::tarball::{
    arranged, created, drafted, fetched, fetched_as, finished, finished_with, first_lost, lost,
    packed, tarball_of, unpacked, with_all, with_missing, Conventions, Download, DraftView, NpmTarball,
    NpmTarballDraft, NpmTarballFiles, NpmTarballOptions, NpmTarballStep,
};
use crate::text::{order_is_strict, precedes, result_text, texts};

verus! {

/// The manifest of a package is drafted: it names the package and its version, gives the address of
/// its page on the registry, and says that its code is loaded as modules. The commands of the
/// draft are its own.
pub proof fn manifest_is_drafted<
    R: Fn(&str) -> Option<String>,
    X: Fn(&str, Extension) -> Option<String>,
    T: Fn(&ParsedSource, &str) -> Result<String, String>,
    N: Fn(&str) -> Result<String, String>,
    J: Fn(&NpmPackageJson) -> Result<String, String>,
>(
    opts: NpmTarballOptions,
    conventions: Conventions<R, X, T, N, J>,
    k: spec_fn(ManifestView) -> Result<Seq<char>, Seq<char>>,
    draft: DraftView,
) -> (manifest: ManifestView)
    requires
        writes_as(conventions.to_json, k),
        drafted(opts, conventions, draft),
    ensures
        manifest.scope == opts.package.scope@,
        manifest.package == opts.package.package@,
        manifest.version == opts.package.version@,
        joined_url(
            opts.package.registry_url@,
            "./@"@ + opts.package.scope@ + "/"@ + opts.package.package@,
        ) == Some(manifest.homepage),
        manifest.module_type == "module"@,
        manifest.revision == opts.revision,
        exports_become(conventions.rewrite_specifier, opts.exports@, manifest.exports),
        dependencies_become(conventions.npm_name, opts.dependencies@, manifest.dependencies),
        commands_become(
            conventions.rewrite_specifier,
            opts.package.package@,
            opts.exports@,
            opts.sources.sources@,
            manifest.bin,
        ),
        draft.bin == manifest.bin,
        k(manifest) is Ok,
        draft.files.files.contains(("/package.json"@, encode_utf8(k(manifest)->Ok_0))),
        forall|content: Seq<u8>| #[trigger]
            draft.files.files.contains(("/package.json"@, content)) ==> content == encode_utf8(
                k(manifest)->Ok_0,
            ),
{
    let (manifest, emissions, json) = lemma_draft(opts, conventions, draft);
    let (m, r) = choose|m: &NpmPackageJson, r: Result<String, String>|
        m@ == manifest && #[trigger] call_ensures(conventions.to_json, (m,), r) && result_text(r)
            == Ok::<Seq<char>, Seq<char>>(json);
    assert(writes(conventions.to_json, manifest, Ok(json)));
    assert(call_ensures(conventions.to_json, (m,), r));
    put_changes_one_key(
        gathered(opts.graph@, emissions).files,
        "/package.json"@,
        encode_utf8(json),
    );
    manifest
}

/// The path of the manifest is made of names.
pub(crate) proof fn lemma_manifest_path()
    ensures
        ordinary("/package.json"@),
{
    reveal_strlit("/package.json");
}

/// The draft of a package whose files are handed over.
proof fn lemma_handed_over<
    R: Fn(&str) -> Option<String>,
    X: Fn(&str, Extension) -> Option<String>,
    T: Fn(&ParsedSource, &str) -> Result<String, String>,
    N: Fn(&str) -> Result<String, String>,
    J: Fn(&NpmPackageJson) -> Result<String, String>,
>(
    opts: NpmTarballOptions,
    conventions: Conventions<R, X, T, N, J>,
    mtime: u64,
    tarball: NpmTarball,
) -> (draft: DraftView)
    requires
        created(opts, conventions, mtime, Ok(NpmTarballStep::Finished(tarball))),
    ensures
        drafted(opts, conventions, draft),
        match opts.files {
            NpmTarballFiles::WithBytes(list) => finished_with(
                draft,
                package_files(list@),
                mtime,
                tarball,
            ),
            NpmTarballFiles::FromBucket { .. } => false,
        },
{
    match opts.files {
        NpmTarballFiles::WithBytes(list) => choose|draft: DraftView| #[trigger]
            drafted(opts, conventions, draft) && finished_with(
                draft,
                package_files(list@),
                mtime,
                tarball,
            ),
        NpmTarballFiles::FromBucket { .. } => arbitrary(),
    }
}

/// The tarball of a package whose files are handed over holds all files of its draft, as they are,
/// and comes with the commands of the draft.
pub proof fn handed_over_packages_hold_their_draft<
    R: Fn(&str) -> Option<String>,
    X: Fn(&str, Extension) -> Option<String>,
    T: Fn(&ParsedSource, &str) -> Result<String, String>,
    N: Fn(&str) -> Result<String, String>,
    J: Fn(&NpmPackageJson) -> Result<String, String>,
>(
    opts: NpmTarballOptions,
    conventions: Conventions<R, X, T, N, J>,
    mtime: u64,
    tarball: NpmTarball,
) -> (draft: DraftView)
    requires
        created(opts, conventions, mtime, Ok(NpmTarballStep::Finished(tarball))),
    ensures
        drafted(opts, conventions, draft),
        tarball.bin@ == draft.bin,
        forall|path: Seq<char>, content: Seq<u8>| #[trigger]
            draft.files.files.contains((path, content)) && ordinary(path) ==> unpacks(
                tarball,
                path,
                content,
                mtime,
            ),
{
    let draft = lemma_handed_over(opts, conventions, mtime, tarball);
    if let NpmTarballFiles::WithBytes(list) = opts.files {
        let files = with_missing(draft.files, package_files(list@)).files;
        assert forall|path: Seq<char>, content: Seq<u8>| #[trigger]
            draft.files.files.contains((path, content)) && ordinary(path) implies unpacks(
            tarball,
            path,
            content,
            mtime,
        ) by {
            lemma_stays(draft.files, package_files(list@), (path, content));
            packed_files_unpack(files, draft.bin, mtime, tarball, path, content);
        }
    }
    draft
}

/// The tarball of a package whose files are handed over holds its manifest, as `k` writes it.
pub proof fn handed_over_packages_hold_their_manifest<
    R: Fn(&str) -> Option<String>,
    X: Fn(&str, Extension) -> Option<String>,
    T: Fn(&ParsedSource, &str) -> Result<String, String>,
    N: Fn(&str) -> Result<String, String>,
    J: Fn(&NpmPackageJson) -> Result<String, String>,
>(
    opts: NpmTarballOptions,
    conventions: Conventions<R, X, T, N, J>,
    k: spec_fn(ManifestView) -> Result<Seq<char>, Seq<char>>,
    mtime: u64,
    tarball: NpmTarball,
) -> (manifest: ManifestView)
    requires
        writes_as(conventions.to_json, k),
        created(opts, conventions, mtime, Ok(NpmTarballStep::Finished(tarball))),
    ensures
        manifest.scope == opts.package.scope@,
        manifest.package == opts.package.package@,
        manifest.version == opts.package.version@,
        manifest.revision == opts.revision,
        k(manifest) is Ok,
        unpacks(tarball, "/package.json"@, encode_utf8(k(manifest)->Ok_0), mtime),
        tarball.bin@ == manifest.bin,
{
    let draft = handed_over_packages_hold_their_draft(opts, conventions, mtime, tarball);
    let manifest = manifest_is_drafted(opts, conventions, k, draft);
    lemma_manifest_path();
    manifest
}

/// A file that is handed over is in the tarball, as it is, unless a module makes a file under its
/// path, or it is a source that is left out, or it has the path of the manifest.
pub proof fn handed_over_files_are_packed<
    R: Fn(&str) -> Option<String>,
    X: Fn(&str, Extension) -> Option<String>,
    T: Fn(&ParsedSource, &str) -> Result<String, String>,
    N: Fn(&str) -> Result<String, String>,
    J: Fn(&NpmPackageJson) -> Result<String, String>,
>(
    opts: NpmTarballOptions,
    conventions: Conventions<R, X, T, N, J>,
    g: spec_fn(Seq<char>, Extension) -> Option<Seq<char>>,
    mtime: u64,
    tarball: NpmTarball,
    i: int,
    path: Seq<char>,
    content: Seq<u8>,
)
    requires
        extends_as(conventions.rewrite_extension, g),
        created(opts, conventions, mtime, Ok(NpmTarballStep::Finished(tarball))),
        match opts.files {
            NpmTarballFiles::WithBytes(list) => {
                &&& 0 <= i < list@.len()
                &&& list@[i].path@ == path
                &&& list@[i].content@ == content
                &&& forall|j: int| 0 <= j < i ==> (#[trigger] list@[j]).path@ != path
            },
            NpmTarballFiles::FromBucket { .. } => false,
        },
        path != "/package.json"@,
        !made(g, opts.graph@, path),
        !left_out(opts.graph@, path),
        ordinary(path),
    ensures
        unpacks(tarball, path, content, mtime),
{
    let draft = lemma_handed_over(opts, conventions, mtime, tarball);
    made_paths_are_drafted(opts, conventions, g, draft, path);
    left_out_paths_are_marked(opts, conventions, g, draft, path);
    if let NpmTarballFiles::WithBytes(list) = opts.files {
        let files = package_files(list@);
        assert(files[i] == (path, content));
        assert forall|j: int| 0 <= j < i implies (#[trigger] files[j]).0 != files[i].0 by {
            assert(list@[j].path@ != path);
        }
        source_files_are_packed(draft, files, mtime, tarball, i);
    }
}

/// Nothing is in the tarball but the manifest, the files that modules make, and those that are
/// handed over and neither have the path of such a file nor are sources that are left out.
pub proof fn only_package_files_are_packed<
    R: Fn(&str) -> Option<String>,
    X: Fn(&str, Extension) -> Option<String>,
    T: Fn(&ParsedSource, &str) -> Result<String, String>,
    N: Fn(&str) -> Result<String, String>,
    J: Fn(&NpmPackageJson) -> Result<String, String>,
>(
    opts: NpmTarballOptions,
    conventions: Conventions<R, X, T, N, J>,
    g: spec_fn(Seq<char>, Extension) -> Option<Seq<char>>,
    mtime: u64,
    tarball: NpmTarball,
    a: int,
) -> (file: (Seq<char>, Seq<u8>))
    requires
        extends_as(conventions.rewrite_extension, g),
        created(opts, conventions, mtime, Ok(NpmTarballStep::Finished(tarball))),
        0 <= a < tar_entries(gunzipped(tarball.tarball@)->0).len(),
    ensures
        tar_entries(gunzipped(tarball.tarball@)->0)[a].content == file.1,
        ordinary(file.0) ==> tar_entries(gunzipped(tarball.tarball@)->0)[a].path == encode_utf8(
            "package"@ + file.0,
        ),
        file.0 == "/package.json"@ || made(g, opts.graph@, file.0) || {
            &&& !left_out(opts.graph@, file.0)
            &&& match opts.files {
                NpmTarballFiles::WithBytes(list) => exists|i: int|
                    {
                        &&& 0 <= i < list@.len()
                        &&& (#[trigger] list@[i]).path@ == file.0
                        &&& list@[i].content@ == file.1
                    },
                NpmTarballFiles::FromBucket { .. } => false,
            }
        },
{
    let draft = lemma_handed_over(opts, conventions, mtime, tarball);
    match opts.files {
        NpmTarballFiles::WithBytes(list) => {
            let listed = package_files(list@);
            let files = with_missing(draft.files, listed).files;
            let sorted = choose|sorted: Seq<(Seq<char>, Seq<u8>)>| #[trigger]
                arranged(files, sorted) && tarball_of(sorted, draft.bin, mtime, tarball);
            let file = sorted[a];
            assert(reads_as(tar_entries(tar_file(sorted, mtime))[a], sorted[a], mtime));
            to_multiset_contains(sorted, file);
            to_multiset_contains(files, file);
            ordinary_paths_are_rooted(file.0);
            only_source_files_come_in(draft.files, listed, file);
            made_paths_are_drafted(opts, conventions, g, draft, file.0);
            left_out_paths_are_marked(opts, conventions, g, draft, file.0);
            if draft.files.files.contains(file) {
                assert(draft.files.files.contains((file.0, file.1)));
            } else {
                let i = choose|i: int| 0 <= i < listed.len() && listed[i] == file;
                assert(list@[i].path@ == file.0 && list@[i].content@ == file.1);
            }
            file
        },
        NpmTarballFiles::FromBucket { .. } => (seq![], seq![]),
    }
}

/// A source that is left out is not in the tarball, unless a module makes a file under its path.
pub proof fn left_out_sources_are_not_packed<
    R: Fn(&str) -> Option<String>,
    X: Fn(&str, Extension) -> Option<String>,
    T: Fn(&ParsedSource, &str) -> Result<String, String>,
    N: Fn(&str) -> Result<String, String>,
    J: Fn(&NpmPackageJson) -> Result<String, String>,
>(
    opts: NpmTarballOptions,
    conventions: Conventions<R, X, T, N, J>,
    g: spec_fn(Seq<char>, Extension) -> Option<Seq<char>>,
    mtime: u64,
    tarball: NpmTarball,
    path: Seq<char>,
    a: int,
)
    requires
        extends_as(conventions.rewrite_extension, g),
        created(opts, conventions, mtime, Ok(NpmTarballStep::Finished(tarball))),
        left_out(opts.graph@, path),
        !made(g, opts.graph@, path),
        path != "/package.json"@,
        forall|p: Seq<char>| #[trigger] made(g, opts.graph@, p) ==> ordinary(p),
        match opts.files {
            NpmTarballFiles::WithBytes(list) => forall|i: int|
                0 <= i < list@.len() ==> ordinary((#[trigger] list@[i]).path@),
            NpmTarballFiles::FromBucket { .. } => false,
        },
        0 <= a < tar_entries(gunzipped(tarball.tarball@)->0).len(),
    ensures
        tar_entries(gunzipped(tarball.tarball@)->0)[a].path != encode_utf8("package"@ + path),
{
    let file = only_package_files_are_packed(opts, conventions, g, mtime, tarball, a);
    lemma_manifest_path();
    if tar_entries(gunzipped(tarball.tarball@)->0)[a].path == encode_utf8("package"@ + path) {
        lemma_bytes_decide("package"@ + file.0, "package"@ + path);
        let n = "package"@.len() as int;
        assert(file.0 =~= ("package"@ + file.0).skip(n));
        assert(path =~= ("package"@ + path).skip(n));
    }
}

/// Where JSX, TypeScript or TSX is a file of the package, the tarball holds what it transpiles to,
/// under the path with the extension of code, and not the source.
pub proof fn transpiled_code_takes_the_place_of_sources<
    R: Fn(&str) -> Option<String>,
    X: Fn(&str, Extension) -> Option<String>,
    T: Fn(&ParsedSource, &str) -> Result<String, String>,
    N: Fn(&str) -> Result<String, String>,
    J: Fn(&NpmPackageJson) -> Result<String, String>,
>(
    opts: NpmTarballOptions,
    conventions: Conventions<R, X, T, N, J>,
    g: spec_fn(Seq<char>, Extension) -> Option<Seq<char>>,
    h: spec_fn(ParsedSource, Seq<char>) -> Result<Seq<char>, Seq<char>>,
    mtime: u64,
    tarball: NpmTarball,
    i: int,
    media_type: MediaType,
    source: String,
    dts: Option<String>,
    n: int,
    url: Seq<char>,
)
    requires
        extends_as(conventions.rewrite_extension, g),
        transpiles_as(conventions.transpile, h),
        created(opts, conventions, mtime, Ok(NpmTarballStep::Finished(tarball))),
        0 <= i < opts.graph@.len(),
        opts.graph@[i].scheme@ == "file"@,
        opts.graph@[i].kind == (ModuleKind::Js { media_type, source, dts }),
        media_type == MediaType::Jsx || media_type == MediaType::TypeScript || media_type
            == MediaType::Mts || media_type == MediaType::Tsx,
        0 <= n < opts.sources.sources@.len(),
        opts.sources.sources@[n].specifier@ == opts.graph@[i].specifier@,
        forall|j: int|
            0 <= j < n ==> (#[trigger] opts.sources.sources@[j]).specifier@
                != opts.graph@[i].specifier@,
        joined_url(
            opts.package.registry_url@,
            "./@"@ + opts.package.scope@ + "/"@ + opts.package.package@ + "/"@
                + opts.package.version@ + opts.graph@[i].path@,
        ) == Some(url),
        extended(g, opts.graph@[i].path@, Extension::Js) != "/package.json"@,
        dts is Some ==> extended(g, opts.graph@[i].path@, Extension::Dts) != extended(
            g,
            opts.graph@[i].path@,
            Extension::Js,
        ),
        !made_later(g, opts.graph@, i, extended(g, opts.graph@[i].path@, Extension::Js)),
        ordinary(extended(g, opts.graph@[i].path@, Extension::Js)),
    ensures
        h(opts.sources.sources@[n], url) is Ok,
        unpacks(
            tarball,
            extended(g, opts.graph@[i].path@, Extension::Js),
            encode_utf8(h(opts.sources.sources@[n], url)->Ok_0),
            mtime,
        ),
        ({
            let path = opts.graph@[i].path@;
            &&& path != "/package.json"@
            &&& !made(g, opts.graph@, path)
            &&& forall|p: Seq<char>| #[trigger] made(g, opts.graph@, p) ==> ordinary(p)
            &&& match opts.files {
                NpmTarballFiles::WithBytes(list) => forall|j: int|
                    0 <= j < list@.len() ==> ordinary((#[trigger] list@[j]).path@),
                NpmTarballFiles::FromBucket { .. } => false,
            }
        }) ==> forall|a: int|
            0 <= a < tar_entries(gunzipped(tarball.tarball@)->0).len() ==> (
            #[trigger] tar_entries(gunzipped(tarball.tarball@)->0)[a]).path != encode_utf8(
                "package"@ + opts.graph@[i].path@,
            ),
{
    let draft = handed_over_packages_hold_their_draft(opts, conventions, mtime, tarball);
    transpiled_code_is_drafted(
        opts,
        conventions,
        g,
        h,
        draft,
        i,
        media_type,
        source,
        dts,
        n,
        url,
    );
    let path = opts.graph@[i].path@;
    assert(superseded(opts.graph@[i]));
    assert(left_out(opts.graph@, path));
    if {
        &&& path != "/package.json"@
        &&& !made(g, opts.graph@, path)
        &&& forall|p: Seq<char>| #[trigger] made(g, opts.graph@, p) ==> ordinary(p)
        &&& match opts.files {
            NpmTarballFiles::WithBytes(list) => forall|j: int|
                0 <= j < list@.len() ==> ordinary((#[trigger] list@[j]).path@),
            NpmTarballFiles::FromBucket { .. } => false,
        }
    } {
        assert forall|a: int|
            0 <= a < tar_entries(gunzipped(tarball.tarball@)->0).len() implies (
        #[trigger] tar_entries(gunzipped(tarball.tarball@)->0)[a]).path != encode_utf8(
            "package"@ + path,
        ) by {
            left_out_sources_are_not_packed(opts, conventions, g, mtime, tarball, path, a);
        }
    }
}

/// A path is to be fetched if and only if it is listed, no module makes a file under it, it is not
/// that of a source that is left out, and it is not that of the manifest.
pub proof fn other_paths_are_fetched<
    R: Fn(&str) -> Option<String>,
    X: Fn(&str, Extension) -> Option<String>,
    T: Fn(&ParsedSource, &str) -> Result<String, String>,
    N: Fn(&str) -> Result<String, String>,
    J: Fn(&NpmPackageJson) -> Result<String, String>,
>(
    opts: NpmTarballOptions,
    conventions: Conventions<R, X, T, N, J>,
    g: spec_fn(Seq<char>, Extension) -> Option<Seq<char>>,
    mtime: u64,
    draft: NpmTarballDraft,
    paths: Vec<String>,
    path: Seq<char>,
)
    requires
        extends_as(conventions.rewrite_extension, g),
        created(opts, conventions, mtime, Ok(NpmTarballStep::Download { draft, paths })),
    ensures
        drafted(opts, conventions, draft@),
        (exists|i: int| 0 <= i < paths@.len() && (#[trigger] paths@[i])@ == path) <==> {
            &&& path != "/package.json"@
            &&& !made(g, opts.graph@, path)
            &&& !left_out(opts.graph@, path)
            &&& match opts.files {
                NpmTarballFiles::WithBytes(_) => false,
                NpmTarballFiles::FromBucket { files } => exists|i: int|
                    0 <= i < files@.len() && (#[trigger] files@[i])@ == path,
            }
        },
{
    if let NpmTarballFiles::FromBucket { files } = opts.files {
        missing_paths_are_fetched(draft@.files, texts(files@), path);
        made_paths_are_drafted(opts, conventions, g, draft@, path);
        left_out_paths_are_marked(opts, conventions, g, draft@, path);
        lemma_texts_contain(paths@, path);
        lemma_texts_contain(files@, path);
    }
}

/// A text is in a list if some member reads so.
proof fn lemma_texts_contain(list: Seq<String>, text: Seq<char>)
    ensures
        texts(list).contains(text) <==> exists|i: int|
            0 <= i < list.len() && (#[trigger] list[i])@ == text,
{
    if texts(list).contains(text) {
        let i = choose|i: int| 0 <= i < texts(list).len() && texts(list)[i] == text;
        assert(list[i]@ == text);
    }
    if exists|i: int| 0 <= i < list.len() && (#[trigger] list[i])@ == text {
        let i = choose|i: int| 0 <= i < list.len() && (#[trigger] list[i])@ == text;
        assert(texts(list)[i] == text);
    }
}

/// A tarball that is finished holds every file that was fetched, unless it was fetched again, and
/// comes with the commands of the draft. Every file was fetched.
pub proof fn fetched_files_are_packed(
    draft: DraftView,
    downloads: Seq<Download>,
    mtime: u64,
    tarball: NpmTarball,
    i: int,
)
    requires
        finished(draft, downloads, mtime, Ok(tarball)),
        0 <= i < downloads.len(),
        forall|j: int| i < j < downloads.len() ==> (#[trigger] downloads[j]).path@ != downloads[i].path@,
        ordinary(downloads[i].path@),
    ensures
        match downloads[i].outcome {
            Ok(Some(content)) => unpacks(tarball, downloads[i].path@, content@, mtime),
            _ => false,
        },
        tarball.bin@ == draft.bin,
{
    let files = choose|files: Seq<(Seq<char>, Seq<u8>)>| #[trigger]
        fetched(downloads, files) && packed(
            with_all(draft.files, files).files,
            draft.bin,
            mtime,
            tarball,
        );
    assert(fetched_as(downloads[i], files[i]));
    assert forall|j: int| i < j < files.len() implies (#[trigger] files[j]).0 != files[i].0 by {
        assert(fetched_as(downloads[j], files[j]));
    }
    last_arrival_decides(draft.files, files, i);
    packed_files_unpack(
        with_all(draft.files, files).files,
        draft.bin,
        mtime,
        tarball,
        files[i].0,
        files[i].1,
    );
}

/// A tarball that is finished holds every file of the draft under whose path nothing was fetched.
pub proof fn drafted_files_are_packed(
    draft: DraftView,
    downloads: Seq<Download>,
    mtime: u64,
    tarball: NpmTarball,
    path: Seq<char>,
    content: Seq<u8>,
)
    requires
        finished(draft, downloads, mtime, Ok(tarball)),
        draft.files.files.contains((path, content)),
        forall|j: int| 0 <= j < downloads.len() ==> (#[trigger] downloads[j]).path@ != path,
        ordinary(path),
    ensures
        unpacks(tarball, path, content, mtime),
        tarball.bin@ == draft.bin,
{
    let files = choose|files: Seq<(Seq<char>, Seq<u8>)>| #[trigger]
        fetched(downloads, files) && packed(
            with_all(draft.files, files).files,
            draft.bin,
            mtime,
            tarball,
        );
    assert(!has_key(files, path)) by {
        if has_key(files, path) {
            let j = choose|j: int| 0 <= j < files.len() && (#[trigger] files[j]).0 == path;
            assert(fetched_as(downloads[j], files[j]));
        }
    }
    fetched_files_leave_the_rest(draft.files, files, (path, content));
    packed_files_unpack(
        with_all(draft.files, files).files,
        draft.bin,
        mtime,
        tarball,
        path,
        content,
    );
}

/// Finishing fails with the first file that is not there or was not fetched, whatever comes after.
pub proof fn first_lost_file_is_told(
    draft: DraftView,
    downloads: Seq<Download>,
    mtime: u64,
    r: Result<NpmTarball, NpmTarballError>,
    i: int,
)
    requires
        finished(draft, downloads, mtime, r),
        0 <= i < downloads.len(),
        forall|j: int|
            0 <= j < i ==> match (#[trigger] downloads[j]).outcome {
                Ok(Some(_)) => true,
                _ => false,
            },
    ensures
        match downloads[i].outcome {
            Ok(Some(_)) => true,
            Ok(None) => r is Err && r->Err_0@ == (ErrorView::MissingFile {
                path: downloads[i].path@,
            }),
            Err(cause) => r is Err && r->Err_0@ == (ErrorView::Download {
                path: downloads[i].path@,
                cause: cause@,
            }),
        },
{
    if !(downloads[i].outcome is Ok && downloads[i].outcome->Ok_0 is Some) {
        assert forall|files: Seq<(Seq<char>, Seq<u8>)>| !#[trigger] fetched(downloads, files) by {
            if fetched(downloads, files) {
                assert(fetched_as(downloads[i], files[i]));
            }
        }
        let failed = choose|failed: int| #[trigger]
            first_lost(downloads, failed) && lost(downloads[failed]) == Some(r->Err_0@);
        if failed < i {
            assert(downloads[failed].outcome is Ok);
        } else if i < failed {
            assert(lost(downloads[i]) is None);
        }
    }
}

/// Packing is refused for a path of one of the files, which is told with its length in bytes. If it
/// is made of names, it is too long. The files that come before it, in the order of paths, were not
/// refused.
pub proof fn long_paths_are_refused(
    files: Seq<(Seq<char>, Seq<u8>)>,
    mtime: u64,
    error: ErrorView,
) -> (file: (Seq<char>, Seq<u8>))
    requires
        unpacked(files, mtime, error),
    ensures
        files.contains(file),
        error == (ErrorView::InvalidPath { path: file.0, len: encode_utf8(file.0).len() as int }),
        ordinary(file.0) ==> encode_utf8("./package"@ + file.0).len() > 100,
        forall|other: (Seq<char>, Seq<u8>)| #[trigger]
            files.contains(other) && precedes(other.0, file.0) ==> ustar_header(
                "./package"@ + other.0,
                other.1.len() as u64,
                0o777,
                mtime,
            ) is Some,
{
    let (sorted, failed) = choose|sorted: Seq<(Seq<char>, Seq<u8>)>, failed: int|
        {
            &&& arranged(files, sorted)
            &&& #[trigger] first_unstored(sorted, mtime, failed)
            &&& unstorable(sorted[failed].0)
            &&& error == unstored_error(sorted[failed].0)
        };
    let file = sorted[failed];
    to_multiset_contains(sorted, file);
    to_multiset_contains(files, file);
    ordinary_paths_are_rooted(file.0);
    assert forall|other: (Seq<char>, Seq<u8>)| #[trigger]
        files.contains(other) && precedes(other.0, file.0) implies ustar_header(
        "./package"@ + other.0,
        other.1.len() as u64,
        0o777,
        mtime,
    ) is Some by {
        to_multiset_contains(files, other);
        to_multiset_contains(sorted, other);
        let j = choose|j: int| 0 <= j < sorted.len() && sorted[j] == other;
        order_is_strict(other.0, file.0);
        if j > failed {
            assert(precedes(sorted[failed].0, sorted[j].0));
        }
        assert(sorted.take(failed)[j] == other);
    }
    file
}

/// Files whose paths are made of names and short enough are not refused.
pub proof fn short_paths_are_packed(
    files: Seq<(Seq<char>, Seq<u8>)>,
    mtime: u64,
    error: ErrorView,
)
    requires
        forall|file: (Seq<char>, Seq<u8>)| #[trigger]
            files.contains(file) ==> ordinary(file.0) && encode_utf8("./package"@ + file.0).len()
                <= 100,
    ensures
        !unpacked(files, mtime, error),
{
    if unpacked(files, mtime, error) {
        let file = long_paths_are_refused(files, mtime, error);
        assert(files.contains(file));
    }
}

/// The files of a tarball are in the order of their paths.
pub proof fn files_are_packed_in_order(
    files: Seq<(Seq<char>, Seq<u8>)>,
    bin: Seq<(Seq<char>, Seq<char>)>,
    mtime: u64,
    tarball: NpmTarball,
    a: int,
    b: int,
) -> (r: ((Seq<char>, Seq<u8>), (Seq<char>, Seq<u8>)))
    requires
        packed(files, bin, mtime, tarball),
        0 <= a < b < tar_entries(gunzipped(tarball.tarball@)->0).len(),
    ensures
        files.contains(r.0),
        files.contains(r.1),
        precedes((r.0).0, (r.1).0),
        ({
            let entries = tar_entries(gunzipped(tarball.tarball@)->0);
            &&& entries[a].content == (r.0).1
            &&& entries[b].content == (r.1).1
            &&& ordinary((r.0).0) ==> entries[a].path == encode_utf8("package"@ + (r.0).0)
            &&& ordinary((r.1).0) ==> entries[b].path == encode_utf8("package"@ + (r.1).0)
        }),
{
    let sorted = choose|sorted: Seq<(Seq<char>, Seq<u8>)>| #[trigger]
        arranged(files, sorted) && tarball_of(sorted, bin, mtime, tarball);
    let (x, y) = (sorted[a], sorted[b]);
    let entries = tar_entries(tar_file(sorted, mtime));
    assert(reads_as(entries[a], sorted[a], mtime));
    assert(reads_as(entries[b], sorted[b], mtime));
    to_multiset_contains(sorted, x);
    to_multiset_contains(files, x);
    to_multiset_contains(sorted, y);
    to_multiset_contains(files, y);
    ordinary_paths_are_rooted(x.0);
    ordinary_paths_are_rooted(y.0);
    assert(precedes(sorted[a].0, sorted[b].0));
    (x, y)
}

/// The checksums of a tarball are those of its bytes: SHA-1 in upper-case hexadecimal, and SHA-512 in
/// base64.
pub proof fn checksums_are_of_the_tarball(
    files: Seq<(Seq<char>, Seq<u8>)>,
    bin: Seq<(Seq<char>, Seq<char>)>,
    mtime: u64,
    tarball: NpmTarball,
    i: int,
)
    requires
        packed(files, bin, mtime, tarball),
        0 <= i < 20,
    ensures
        sha1_hash(tarball.tarball@).len() == 20,
        tarball.sha1@.len() == 40,
        tarball.sha1@[2 * i] == "0123456789ABCDEF"@[sha1_hash(tarball.tarball@)[i] as int / 16],
        tarball.sha1@[2 * i + 1] == "0123456789ABCDEF"@[sha1_hash(tarball.tarball@)[i] as int % 16],
        tarball.sha512@ == base64_text(sha512_hash(tarball.tarball@)),
{
    let sorted = choose|sorted: Seq<(Seq<char>, Seq<u8>)>| #[trigger]
        arranged(files, sorted) && tarball_of(sorted, bin, mtime, tarball);
    hex_is_hexadecimal(sha1_hash(tarball.tarball@), i);
}

/// Where the page of a package has no address on the registry, there is no tarball, and this is
/// told.
pub proof fn packages_without_a_page_fail<
    R: Fn(&str) -> Option<String>,
    X: Fn(&str, Extension) -> Option<String>,
    T: Fn(&ParsedSource, &str) -> Result<String, String>,
    N: Fn(&str) -> Result<String, String>,
    J: Fn(&NpmPackageJson) -> Result<String, String>,
>(
    opts: NpmTarballOptions,
    conventions: Conventions<R, X, T, N, J>,
    mtime: u64,
    r: Result<NpmTarballStep, NpmTarballError>,
)
    requires
        created(opts, conventions, mtime, r),
        joined_url(
            opts.package.registry_url@,
            "./@"@ + opts.package.scope@ + "/"@ + opts.package.package@,
        ) is None,
    ensures
        r is Err,
        r->Err_0@ == (ErrorView::InvalidUrl {
            reference: "./@"@ + opts.package.scope@ + "/"@ + opts.package.package@,
        }),
{
    assert forall|draft: DraftView| !#[trigger] drafted(opts, conventions, draft) by {
        if drafted(opts, conventions, draft) {
            let (manifest, emissions, json) = lemma_draft(opts, conventions, draft);
        }
    }
}

/// Before a module that fails, none does: each has an address on the registry and transpiles, where
/// it is transpiled.
pub proof fn modules_before_a_failure_transpile<
    R: Fn(&str) -> Option<String>,
    X: Fn(&str, Extension) -> Option<String>,
    T: Fn(&ParsedSource, &str) -> Result<String, String>,
    N: Fn(&str) -> Result<String, String>,
    J: Fn(&NpmPackageJson) -> Result<String, String>,
>(
    opts: NpmTarballOptions,
    conventions: Conventions<R, X, T, N, J>,
    h: spec_fn(ParsedSource, Seq<char>) -> Result<Seq<char>, Seq<char>>,
    failed: int,
    error: ErrorView,
    i: int,
    n: int,
)
    requires
        transpiles_as(conventions.transpile, h),
        first_fails(
            conventions.rewrite_specifier,
            conventions.rewrite_extension,
            conventions.transpile,
            opts.package,
            opts.sources.sources@,
            opts.graph@,
            failed,
            error,
        ),
        0 <= i < failed,
        superseded(opts.graph@[i]),
        0 <= n < opts.sources.sources@.len(),
        opts.sources.sources@[n].specifier@ == opts.graph@[i].specifier@,
        forall|j: int|
            0 <= j < n ==> (#[trigger] opts.sources.sources@[j]).specifier@
                != opts.graph@[i].specifier@,
    ensures
        match joined_url(
            opts.package.registry_url@,
            "./@"@ + opts.package.scope@ + "/"@ + opts.package.package@ + "/"@
                + opts.package.version@ + opts.graph@[i].path@,
        ) {
            Some(url) => h(opts.sources.sources@[n], url) is Ok,
            None => false,
        },
{
    let emissions = choose|emissions: Seq<EmittedView>| #[trigger]
        all_emit(
            conventions.rewrite_specifier,
            conventions.rewrite_extension,
            conventions.transpile,
            opts.package,
            opts.sources.sources@,
            opts.graph@.take(failed),
            emissions,
        );
    let module = opts.graph@.take(failed)[i];
    assert(module == opts.graph@[i]);
    assert(emits(
        conventions.rewrite_specifier,
        conventions.rewrite_extension,
        conventions.transpile,
        opts.package,
        opts.sources.sources@,
        module,
        emissions[i],
    ));
    first_source_is_found(opts.sources.sources@, module.specifier@, n);
    let source = opts.sources.sources@[n];
    let url = opts.package.file_url(module.path@)->0;
    let code = choose|code: Seq<char>| #[trigger]
        transpiles(conventions.transpile, source, url, Ok(code)) && stored_as(
            conventions.rewrite_extension,
            module.path@,
            Extension::Js,
            encode_utf8(code),
            emissions[i].code->0,
        );
    lemma_transpiles_as(conventions.transpile, h, source, url, Ok(code));
}

} // verus!
