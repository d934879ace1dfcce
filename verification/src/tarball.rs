//! The tarball of an npm package.
//!
//! Packing takes two steps where files have to be fetched first: [`create_npm_tarball`] says which,
//! and [`finish_npm_tarball`] goes on once they are there.

use indexmap::IndexMap;
use vstd::prelude::*;
use vstd::utf8::encode_utf8;

use crate::archive::{
    all_storable, all_stored, first_unstored, gunzipped, gzip, gzipped, reads_back, tar_file,
    tar_files, unstorable, unstored_error,
};
use crate::bin::all_nameable;
use crate::convert::{extends_all, names_all, rewrites_all, transpiles_all, Extension};
use crate::dependencies::{DependencyKind, PackageReq};
use crate::digest::{base64_text, hex, sha1_hash, sha1_hex, sha512_base64, sha512_hash};
use crate::emit::{
    all_emit, at_hand, first_fails, gathered, is_at_hand, module_files, reached_at_hand,
    PackageVersion,
};
use crate::error::{ErrorView, NpmTarballError};
use crate::exports::ExportsMap;
use crate::files::{package_files, EmittedView, FilesView, PackageFile, PackageFiles};
use crate::graph::Module;
use crate::manifest::{
    create_package_json, described, undescribed, write_with, writes, writes_all, ManifestView,
    NpmPackageJson,
};
use crate::maps::{file_entries, sort_files, sorted_keys, text_entries};
use crate::source::{ParsedSource, ParsedSourceStore};
use crate::text::texts;

verus! {

/// The commands of a package.
pub struct NpmBinEntries {
    inner: IndexMap<String, String>,
}

impl View for NpmBinEntries {
    type V = Seq<(Seq<char>, Seq<char>)>;

    closed spec fn view(&self) -> Seq<(Seq<char>, Seq<char>)> {
        text_entries(self.inner)
    }
}

impl NpmBinEntries {
    /// The commands that a map lists.
    pub fn new(inner: IndexMap<String, String>) -> (r: NpmBinEntries)
        ensures
            r@ == text_entries(inner),
    {
        NpmBinEntries { inner }
    }

    /// The map of the commands.
    pub fn into_inner(self) -> (r: IndexMap<String, String>)
        ensures
            text_entries(r) == self@,
    {
        self.inner
    }
}

/// The tarball of a package.
pub struct NpmTarball {
    /// The gzipped tarball contents.
    pub tarball: Vec<u8>,
    /// The hex encoded sha1 hash of the gzipped tarball.
    pub sha1: String,
    /// The base64 encoded sha512 hash of the gzipped tarball.
    pub sha512: String,
    /// The commands of the package, as the manifest lists them.
    pub bin: NpmBinEntries,
}

/// The files of the package source.
pub enum NpmTarballFiles<'a> {
    /// Files with their contents, each path once.
    WithBytes(&'a Vec<PackageFile>),
    /// The paths of files that are to be fetched, each path once.
    FromBucket { files: &'a Vec<String> },
}

/// What a tarball is made from.
pub struct NpmTarballOptions<'a> {
    /// The modules of the package.
    pub graph: &'a Vec<Module>,
    /// The parsed sources of the modules.
    pub sources: &'a ParsedSourceStore,
    pub package: PackageVersion<'a>,
    pub exports: &'a ExportsMap,
    pub files: NpmTarballFiles<'a>,
    pub dependencies: &'a Vec<(DependencyKind, PackageReq)>,
    /// Which way of packing this is.
    pub revision: u32,
}

/// How the registry spells things in npm packages.
pub struct Conventions<R, X, T, N, J> {
    /// What a module specifier becomes, if it changes.
    pub rewrite_specifier: R,
    /// What a path becomes with another extension, if it can have it.
    pub rewrite_extension: X,
    /// The code that a source at an address becomes.
    pub transpile: T,
    /// The npm name of a package of the registry.
    pub npm_name: N,
    /// The text of a manifest.
    pub to_json: J,
}

/// A package whose modules are packed.
pub struct NpmTarballDraft {
    files: PackageFiles,
    bin: IndexMap<String, String>,
}

/// A package whose modules are packed: the files so far and the commands.
pub struct DraftView {
    pub files: FilesView,
    pub bin: Seq<(Seq<char>, Seq<char>)>,
}

impl View for NpmTarballDraft {
    type V = DraftView;

    closed spec fn view(&self) -> DraftView {
        DraftView { files: self.files@, bin: text_entries(self.bin) }
    }
}

/// What is to be done next.
pub enum NpmTarballStep {
    /// Nothing: the tarball is there.
    Finished(NpmTarball),
    /// The files with these paths are to be fetched.
    Download { draft: NpmTarballDraft, paths: Vec<String> },
}

/// The outcome of fetching a file: its content, or nothing where there is no such file, or why it
/// could not be fetched.
pub struct Download {
    pub path: String,
    pub outcome: Result<Option<Vec<u8>>, String>,
}

/// Whether the conventions answer every question.
pub open spec fn answers_all<
    R: Fn(&str) -> Option<String>,
    X: Fn(&str, Extension) -> Option<String>,
    T: Fn(&ParsedSource, &str) -> Result<String, String>,
    N: Fn(&str) -> Result<String, String>,
    J: Fn(&NpmPackageJson) -> Result<String, String>,
>(conventions: Conventions<R, X, T, N, J>) -> bool {
    &&& rewrites_all(conventions.rewrite_specifier)
    &&& extends_all(conventions.rewrite_extension)
    &&& transpiles_all(conventions.transpile)
    &&& names_all(conventions.npm_name)
    &&& writes_all(conventions.to_json)
}

/// Whether every module that is packed from its parsed source has one.
pub open spec fn all_at_hand(opts: NpmTarballOptions) -> bool {
    forall|i: int|
        0 <= i < opts.graph@.len() ==> at_hand(opts.sources.sources@, #[trigger] opts.graph@[i])
}

/// Whether every module that is packed from its parsed source has one. Then the package is ready,
/// whatever the conventions.
pub fn sources_at_hand(opts: &NpmTarballOptions) -> (r: bool)
    ensures
        r == all_at_hand(*opts),
{
    let mut i: usize = 0;
    while i < opts.graph.len()
        invariant
            i <= opts.graph@.len(),
            forall|j: int|
                0 <= j < i ==> at_hand(opts.sources.sources@, #[trigger] opts.graph@[j]),
        decreases opts.graph@.len() - i,
    {
        if !is_at_hand(opts.sources, &opts.graph[i]) {
            assert(!at_hand(opts.sources.sources@, opts.graph@[i as int]));
            return false;
        }
        i = i + 1;
    }
    true
}

/// The path of the manifest in the package.
pub open spec fn manifest_path() -> Seq<char> {
    "/package.json"@
}

/// Whether `draft` is what the modules and the manifest may be packed into, the manifest being
/// `manifest`, written down as `json`, and the modules adding `emissions`.
pub open spec fn drafted_from<
    R: Fn(&str) -> Option<String>,
    X: Fn(&str, Extension) -> Option<String>,
    T: Fn(&ParsedSource, &str) -> Result<String, String>,
    N: Fn(&str) -> Result<String, String>,
    J: Fn(&NpmPackageJson) -> Result<String, String>,
>(
    opts: NpmTarballOptions,
    conventions: Conventions<R, X, T, N, J>,
    manifest: ManifestView,
    emissions: Seq<EmittedView>,
    json: Seq<char>,
    draft: DraftView,
) -> bool {
    &&& manifest_is(opts, conventions, manifest)
    &&& modules_emit(opts, conventions, emissions)
    &&& writes(conventions.to_json, manifest, Ok(json))
    &&& draft.files == gathered(opts.graph@, emissions).with_file(
        manifest_path(),
        encode_utf8(json),
    )
    &&& draft.bin == manifest.bin
}

/// Whether `manifest` is what the manifest may be.
pub open spec fn manifest_is<
    R: Fn(&str) -> Option<String>,
    X: Fn(&str, Extension) -> Option<String>,
    T: Fn(&ParsedSource, &str) -> Result<String, String>,
    N: Fn(&str) -> Result<String, String>,
    J: Fn(&NpmPackageJson) -> Result<String, String>,
>(
    opts: NpmTarballOptions,
    conventions: Conventions<R, X, T, N, J>,
    manifest: ManifestView,
) -> bool {
    &&& described(
        conventions.rewrite_specifier,
        conventions.npm_name,
        opts.package,
        opts.exports@,
        opts.dependencies@,
        opts.sources.sources@,
        opts.revision,
        manifest,
    )
    &&& all_nameable(opts.package.package@, opts.exports@, opts.sources.sources@)
}

/// Whether the source of every module is at hand that is reached: there is a manifest, and all
/// modules before it may be packed.
pub open spec fn ready<
    R: Fn(&str) -> Option<String>,
    X: Fn(&str, Extension) -> Option<String>,
    T: Fn(&ParsedSource, &str) -> Result<String, String>,
    N: Fn(&str) -> Result<String, String>,
    J: Fn(&NpmPackageJson) -> Result<String, String>,
>(opts: NpmTarballOptions, conventions: Conventions<R, X, T, N, J>) -> bool {
    forall|manifest: ManifestView| #[trigger]
        manifest_is(opts, conventions, manifest) ==> reached_at_hand(
            conventions.rewrite_specifier,
            conventions.rewrite_extension,
            conventions.transpile,
            opts.package,
            opts.sources.sources@,
            opts.graph@,
        )
}

/// A package all of whose sources are at hand is ready.
pub proof fn at_hand_is_ready<
    R: Fn(&str) -> Option<String>,
    X: Fn(&str, Extension) -> Option<String>,
    T: Fn(&ParsedSource, &str) -> Result<String, String>,
    N: Fn(&str) -> Result<String, String>,
    J: Fn(&NpmPackageJson) -> Result<String, String>,
>(opts: NpmTarballOptions, conventions: Conventions<R, X, T, N, J>)
    requires
        all_at_hand(opts),
    ensures
        ready(opts, conventions),
{
}

/// Whether `emissions` is what the modules may add.
pub open spec fn modules_emit<
    R: Fn(&str) -> Option<String>,
    X: Fn(&str, Extension) -> Option<String>,
    T: Fn(&ParsedSource, &str) -> Result<String, String>,
    N: Fn(&str) -> Result<String, String>,
    J: Fn(&NpmPackageJson) -> Result<String, String>,
>(
    opts: NpmTarballOptions,
    conventions: Conventions<R, X, T, N, J>,
    emissions: Seq<EmittedView>,
) -> bool {
    all_emit(
        conventions.rewrite_specifier,
        conventions.rewrite_extension,
        conventions.transpile,
        opts.package,
        opts.sources.sources@,
        opts.graph@,
        emissions,
    )
}

/// Whether `draft` is what the modules and the manifest may be packed into.
pub open spec fn drafted<
    R: Fn(&str) -> Option<String>,
    X: Fn(&str, Extension) -> Option<String>,
    T: Fn(&ParsedSource, &str) -> Result<String, String>,
    N: Fn(&str) -> Result<String, String>,
    J: Fn(&NpmPackageJson) -> Result<String, String>,
>(
    opts: NpmTarballOptions,
    conventions: Conventions<R, X, T, N, J>,
    draft: DraftView,
) -> bool {
    exists|manifest: ManifestView, emissions: Seq<EmittedView>, json: Seq<char>| #[trigger]
        drafted_from(opts, conventions, manifest, emissions, json, draft)
}

/// Whether `to_json` may refuse a manifest for the given reason.
pub open spec fn unwritable<J: Fn(&NpmPackageJson) -> Result<String, String>>(
    to_json: J,
    manifest: ManifestView,
    cause: Seq<char>,
) -> bool {
    writes(to_json, manifest, Err(cause))
}

/// Whether the draft may fail with `error`: there is no manifest; or there is, and a module fails;
/// or none does, and the manifest cannot be written down.
pub open spec fn undrafted<
    R: Fn(&str) -> Option<String>,
    X: Fn(&str, Extension) -> Option<String>,
    T: Fn(&ParsedSource, &str) -> Result<String, String>,
    N: Fn(&str) -> Result<String, String>,
    J: Fn(&NpmPackageJson) -> Result<String, String>,
>(
    opts: NpmTarballOptions,
    conventions: Conventions<R, X, T, N, J>,
    error: ErrorView,
) -> bool {
    ||| undescribed(
        conventions.npm_name,
        opts.package,
        opts.exports@,
        opts.dependencies@,
        opts.sources.sources@,
        error,
    )
    ||| {
        &&& exists|manifest: ManifestView| #[trigger] manifest_is(opts, conventions, manifest)
        &&& exists|failed: int| #[trigger]
            first_fails(
                conventions.rewrite_specifier,
                conventions.rewrite_extension,
                conventions.transpile,
                opts.package,
                opts.sources.sources@,
                opts.graph@,
                failed,
                error,
            )
    }
    ||| {
        &&& exists|emissions: Seq<EmittedView>| #[trigger]
            modules_emit(opts, conventions, emissions)
        &&& exists|manifest: ManifestView, cause: Seq<char>|
            {
                &&& #[trigger] unwritable(conventions.to_json, manifest, cause)
                &&& manifest_is(opts, conventions, manifest)
                &&& error == (ErrorView::Manifest { cause })
            }
    }
}

/// Packs the modules of a package and its manifest.
pub fn draft_npm_tarball<
    R: Fn(&str) -> Option<String>,
    X: Fn(&str, Extension) -> Option<String>,
    T: Fn(&ParsedSource, &str) -> Result<String, String>,
    N: Fn(&str) -> Result<String, String>,
    J: Fn(&NpmPackageJson) -> Result<String, String>,
>(opts: &NpmTarballOptions, conventions: &Conventions<R, X, T, N, J>) -> (r: Result<
    NpmTarballDraft,
    NpmTarballError,
>)
    requires
        answers_all(*conventions),
        ready(*opts, *conventions),
    ensures
        match r {
            Ok(draft) => drafted(*opts, *conventions, draft@),
            Err(e) => undrafted(*opts, *conventions, e@),
        },
{
    let manifest = match create_package_json(
        &opts.package,
        opts.exports,
        opts.dependencies,
        opts.sources,
        opts.revision,
        &conventions.rewrite_specifier,
        &conventions.npm_name,
    ) {
        Ok(manifest) => manifest,
        Err(e) => {
            return Err(e);
        },
    };
    assert(manifest_is(*opts, *conventions, manifest@));
    let mut files = match module_files(
        &opts.package,
        opts.sources,
        opts.graph,
        &conventions.rewrite_specifier,
        &conventions.rewrite_extension,
        &conventions.transpile,
    ) {
        Ok(files) => files,
        Err(e) => {
            return Err(e);
        },
    };
    let ghost emissions = choose|emissions: Seq<EmittedView>|
        modules_emit(*opts, *conventions, emissions) && files@ == gathered(opts.graph@, emissions);
    assert(modules_emit(*opts, *conventions, emissions));
    let json = match write_with(&conventions.to_json, &manifest) {
        Ok(json) => json,
        Err(cause) => {
            assert(unwritable(conventions.to_json, manifest@, cause@));
            return Err(NpmTarballError::Manifest { cause });
        },
    };
    files.insert("/package.json".to_owned(), json.as_str().as_bytes_vec());
    let draft = NpmTarballDraft { files, bin: manifest.bin };
    assert(drafted_from(*opts, *conventions, manifest@, emissions, json@, draft@));
    Ok(draft)
}

/// The files with those of the list that have a place, one after the other.
pub open spec fn with_missing(files: FilesView, list: Seq<(Seq<char>, Seq<u8>)>) -> FilesView
    decreases list.len(),
{
    if list.len() == 0 {
        files
    } else {
        let before = with_missing(files, list.drop_last());
        if before.lacks(list.last().0) {
            before.with_file(list.last().0, list.last().1)
        } else {
            before
        }
    }
}

/// The files with all of the list put in, one after the other.
pub open spec fn with_all(files: FilesView, list: Seq<(Seq<char>, Seq<u8>)>) -> FilesView
    decreases list.len(),
{
    if list.len() == 0 {
        files
    } else {
        with_all(files, list.drop_last()).with_file(list.last().0, list.last().1)
    }
}

/// The paths for which there is a place.
pub open spec fn missing(files: FilesView, paths: Seq<Seq<char>>) -> Seq<Seq<char>> {
    paths.filter(|path: Seq<char>| files.lacks(path))
}

/// Whether `sorted` holds the same files, in the order of their paths.
pub open spec fn arranged(
    files: Seq<(Seq<char>, Seq<u8>)>,
    sorted: Seq<(Seq<char>, Seq<u8>)>,
) -> bool {
    sorted_keys(sorted) && sorted.to_multiset() == files.to_multiset()
}

/// Whether `tarball` is the tarball of `sorted`: unpacked, it reads back as these files.
pub open spec fn tarball_of(
    sorted: Seq<(Seq<char>, Seq<u8>)>,
    bin: Seq<(Seq<char>, Seq<char>)>,
    mtime: u64,
    tarball: NpmTarball,
) -> bool {
    &&& all_stored(sorted, mtime)
    &&& all_storable(sorted)
    &&& tarball.tarball@ == gzipped(tar_file(sorted, mtime))
    &&& gunzipped(tarball.tarball@) == Some(tar_file(sorted, mtime))
    &&& reads_back(tar_file(sorted, mtime), sorted, mtime)
    &&& tarball.sha1@ == hex(sha1_hash(tarball.tarball@))
    &&& tarball.sha1@.len() == 40
    &&& tarball.sha512@ == base64_text(sha512_hash(tarball.tarball@))
    &&& tarball.sha512@.len() == 88
    &&& tarball.bin@ == bin
}

/// Whether `tarball` is the tarball of the files, in the order of their paths.
pub open spec fn packed(
    files: Seq<(Seq<char>, Seq<u8>)>,
    bin: Seq<(Seq<char>, Seq<char>)>,
    mtime: u64,
    tarball: NpmTarball,
) -> bool {
    exists|sorted: Seq<(Seq<char>, Seq<u8>)>| #[trigger]
        arranged(files, sorted) && tarball_of(sorted, bin, mtime, tarball)
}

/// Whether packing the files fails with `error`, for the first one, in the order of paths, whose
/// path cannot be stored.
pub open spec fn unpacked(
    files: Seq<(Seq<char>, Seq<u8>)>,
    mtime: u64,
    error: ErrorView,
) -> bool {
    exists|sorted: Seq<(Seq<char>, Seq<u8>)>, failed: int|
        {
            &&& arranged(files, sorted)
            &&& #[trigger] first_unstored(sorted, mtime, failed)
            &&& unstorable(sorted[failed].0)
            &&& error == unstored_error(sorted[failed].0)
        }
}

/// Packs files into a tarball, in the order of their paths.
pub fn pack_files(
    files: IndexMap<String, Vec<u8>>,
    bin: IndexMap<String, String>,
    mtime: u64,
) -> (r: Result<NpmTarball, NpmTarballError>)
    ensures
        match r {
            Ok(tarball) => packed(file_entries(files), text_entries(bin), mtime, tarball),
            Err(e) => unpacked(file_entries(files), mtime, e@),
        },
{
    let mut files = files;
    let ghost unsorted = file_entries(files);
    sort_files(&mut files);
    assert(arranged(unsorted, file_entries(files)));
    let tar_bytes = match tar_files(&files, mtime) {
        Ok(tar_bytes) => tar_bytes,
        Err(e) => {
            return Err(e);
        },
    };
    let tarball = gzip(&tar_bytes);
    let sha1 = sha1_hex(&tarball);
    let sha512 = sha512_base64(&tarball);
    let r = NpmTarball { tarball, sha1, sha512, bin: NpmBinEntries::new(bin) };
    assert(tarball_of(file_entries(files), text_entries(bin), mtime, r));
    Ok(r)
}

/// Puts in those files of the list that have a place.
pub fn add_missing(files: &mut PackageFiles, list: &Vec<PackageFile>)
    ensures
        final(files)@ == with_missing(old(files)@, package_files(list@)),
{
    let ghost before = files@;
    let mut i: usize = 0;
    while i < list.len()
        invariant
            i <= list@.len(),
            files@ == with_missing(before, package_files(list@).take(i as int)),
        decreases list@.len() - i,
    {
        let file = &list[i];
        proof {
            assert(package_files(list@).take(i + 1).drop_last() =~= package_files(list@).take(
                i as int,
            ));
            assert(package_files(list@).take(i + 1).last() == file@);
        }
        if files.lacks_file(file.path.as_str()) {
            files.insert(file.path.clone(), copy_bytes(&file.content));
        }
        i = i + 1;
    }
    assert(package_files(list@).take(i as int) =~= package_files(list@));
}

/// A copy of some bytes.
fn copy_bytes(bytes: &Vec<u8>) -> (r: Vec<u8>)
    ensures
        r@ == bytes@,
{
    let r = bytes.clone();
    assert(r@ =~= bytes@);
    r
}

/// Puts in all files of the list.
pub fn add_all(files: &mut PackageFiles, list: Vec<PackageFile>)
    ensures
        final(files)@ == with_all(old(files)@, package_files(list@)),
{
    let ghost before = files@;
    let mut i: usize = 0;
    while i < list.len()
        invariant
            i <= list@.len(),
            files@ == with_all(before, package_files(list@).take(i as int)),
        decreases list@.len() - i,
    {
        let file = &list[i];
        proof {
            assert(package_files(list@).take(i + 1).drop_last() =~= package_files(list@).take(
                i as int,
            ));
            assert(package_files(list@).take(i + 1).last() == file@);
        }
        files.insert(file.path.clone(), copy_bytes(&file.content));
        i = i + 1;
    }
    assert(package_files(list@).take(i as int) =~= package_files(list@));
}

/// The paths for which there is a place.
pub fn paths_to_download(files: &PackageFiles, paths: &Vec<String>) -> (r: Vec<String>)
    ensures
        texts(r@) == missing(files@, texts(paths@)),
{
    let mut r: Vec<String> = Vec::new();
    let mut i: usize = 0;
    let ghost lacking = |path: Seq<char>| files@.lacks(path);
    proof {
        assert(texts(paths@).take(0).filter(lacking) =~= seq![]) by {
            assert(texts(paths@).take(0) =~= seq![]);
            reveal(Seq::filter);
        }
        assert(texts(r@) =~= seq![]);
    }
    while i < paths.len()
        invariant
            i <= paths@.len(),
            lacking == (|path: Seq<char>| files@.lacks(path)),
            texts(r@) == texts(paths@).take(i as int).filter(lacking),
        decreases paths@.len() - i,
    {
        let ghost before = r@;
        proof {
            reveal(Seq::filter);
            assert(texts(paths@).take(i + 1).drop_last() =~= texts(paths@).take(i as int));
            assert(texts(paths@).take(i + 1).last() == paths@[i as int]@);
        }
        if files.lacks_file(paths[i].as_str()) {
            r.push(paths[i].clone());
            assert(texts(r@) =~= texts(before).push(paths@[i as int]@));
        }
        i = i + 1;
    }
    assert(texts(paths@).take(i as int) =~= texts(paths@));
    r
}

/// Whether `file` is what was fetched.
pub open spec fn fetched_as(download: Download, file: (Seq<char>, Seq<u8>)) -> bool {
    &&& file.0 == download.path@
    &&& match download.outcome {
        Ok(Some(content)) => file.1 == content@,
        _ => false,
    }
}

/// Whether `files` is what was fetched, in the order of arrival.
pub open spec fn fetched(downloads: Seq<Download>, files: Seq<(Seq<char>, Seq<u8>)>) -> bool {
    &&& files.len() == downloads.len()
    &&& forall|i: int| 0 <= i < downloads.len() ==> fetched_as(#[trigger] downloads[i], files[i])
}

/// What is wrong with a file that could not be fetched or is not stored.
pub open spec fn lost(download: Download) -> Option<ErrorView> {
    match download.outcome {
        Ok(Some(_)) => None,
        Ok(None) => Some(ErrorView::MissingFile { path: download.path@ }),
        Err(cause) => Some(ErrorView::Download { path: download.path@, cause: cause@ }),
    }
}

/// Whether `failed` is the first file that was not fetched.
pub open spec fn first_lost(downloads: Seq<Download>, failed: int) -> bool {
    &&& 0 <= failed < downloads.len()
    &&& lost(downloads[failed]) is Some
    &&& forall|i: int| 0 <= i < failed ==> lost(#[trigger] downloads[i]) is None
}

/// Whether the downloads fail with `error`, for the first file that was not fetched.
pub open spec fn download_fails(downloads: Seq<Download>, error: ErrorView) -> bool {
    exists|failed: int| #[trigger]
        first_lost(downloads, failed) && lost(downloads[failed]) == Some(error)
}

/// The files that were fetched. Fails with the first that was not.
pub fn downloaded_files(downloads: &Vec<Download>) -> (r: Result<
    Vec<PackageFile>,
    NpmTarballError,
>)
    ensures
        match r {
            Ok(files) => fetched(downloads@, package_files(files@)),
            Err(e) => download_fails(downloads@, e@),
        },
{
    let mut files: Vec<PackageFile> = Vec::new();
    let mut i: usize = 0;
    while i < downloads.len()
        invariant
            i <= downloads@.len(),
            files@.len() == i,
            forall|j: int|
                0 <= j < i ==> lost(#[trigger] downloads@[j]) is None && fetched_as(
                    downloads@[j],
                    files@[j]@,
                ),
        decreases downloads@.len() - i,
    {
        let path = &downloads[i].path;
        match &downloads[i].outcome {
            Ok(Some(content)) => {
                files.push(PackageFile { path: path.clone(), content: copy_bytes(content) });
            },
            Ok(None) => {
                assert(first_lost(downloads@, i as int));
                return Err(NpmTarballError::MissingFile { path: path.clone() });
            },
            Err(cause) => {
                assert(first_lost(downloads@, i as int));
                return Err(
                    NpmTarballError::Download { path: path.clone(), cause: cause.clone() },
                );
            },
        }
        i = i + 1;
    }
    Ok(files)
}

/// Whether `tarball` is what a draft may be finished to with the files of the list that have a
/// place.
pub open spec fn finished_with(
    draft: DraftView,
    list: Seq<(Seq<char>, Seq<u8>)>,
    mtime: u64,
    tarball: NpmTarball,
) -> bool {
    packed(with_missing(draft.files, list).files, draft.bin, mtime, tarball)
}

/// Whether `r` is what making the tarball of a package may come to: the tarball, where the files are
/// handed over; what is to be fetched, where they are not; or why there is no tarball.
pub open spec fn created<
    R: Fn(&str) -> Option<String>,
    X: Fn(&str, Extension) -> Option<String>,
    T: Fn(&ParsedSource, &str) -> Result<String, String>,
    N: Fn(&str) -> Result<String, String>,
    J: Fn(&NpmPackageJson) -> Result<String, String>,
>(
    opts: NpmTarballOptions,
    conventions: Conventions<R, X, T, N, J>,
    mtime: u64,
    r: Result<NpmTarballStep, NpmTarballError>,
) -> bool {
    match r {
        Ok(NpmTarballStep::Finished(tarball)) => match opts.files {
            NpmTarballFiles::WithBytes(list) => exists|draft: DraftView| #[trigger]
                drafted(opts, conventions, draft) && finished_with(
                    draft,
                    package_files(list@),
                    mtime,
                    tarball,
                ),
            NpmTarballFiles::FromBucket { .. } => false,
        },
        Ok(NpmTarballStep::Download { draft, paths }) => match opts.files {
            NpmTarballFiles::WithBytes(_) => false,
            NpmTarballFiles::FromBucket { files } => drafted(opts, conventions, draft@) && texts(
                paths@,
            ) == missing(draft@.files, texts(files@)),
        },
        Err(e) => {
            ||| undrafted(opts, conventions, e@)
            ||| match opts.files {
                NpmTarballFiles::WithBytes(list) => exists|draft: DraftView| #[trigger]
                    drafted(opts, conventions, draft) && unpacked(
                        with_missing(draft.files, package_files(list@)).files,
                        mtime,
                        e@,
                    ),
                NpmTarballFiles::FromBucket { .. } => false,
            }
        },
    }
}

/// Makes the tarball of a package, or says which files are to be fetched first.
pub fn create_npm_tarball<
    R: Fn(&str) -> Option<String>,
    X: Fn(&str, Extension) -> Option<String>,
    T: Fn(&ParsedSource, &str) -> Result<String, String>,
    N: Fn(&str) -> Result<String, String>,
    J: Fn(&NpmPackageJson) -> Result<String, String>,
>(
    opts: &NpmTarballOptions,
    conventions: &Conventions<R, X, T, N, J>,
    mtime: u64,
) -> (r: Result<NpmTarballStep, NpmTarballError>)
    requires
        answers_all(*conventions),
        ready(*opts, *conventions),
    ensures
        created(*opts, *conventions, mtime, r),
{
    let draft = match draft_npm_tarball(opts, conventions) {
        Ok(draft) => draft,
        Err(e) => {
            return Err(e);
        },
    };
    let ghost drawn = draft@;
    match &opts.files {
        NpmTarballFiles::WithBytes(list) => {
            let mut files = draft.files;
            add_missing(&mut files, list);
            match pack_files(files.into_files(), draft.bin, mtime) {
                Ok(tarball) => {
                    assert(finished_with(drawn, package_files(list@), mtime, tarball));
                    Ok(NpmTarballStep::Finished(tarball))
                },
                Err(e) => Err(e),
            }
        },
        NpmTarballFiles::FromBucket { files } => {
            let paths = paths_to_download(&draft.files, files);
            Ok(NpmTarballStep::Download { draft, paths })
        },
    }
}

/// Whether `r` is what finishing a draft comes to with what was fetched: the tarball, or why there is
/// none.
pub open spec fn finished(
    draft: DraftView,
    downloads: Seq<Download>,
    mtime: u64,
    r: Result<NpmTarball, NpmTarballError>,
) -> bool {
    match r {
        Ok(tarball) => exists|files: Seq<(Seq<char>, Seq<u8>)>| #[trigger]
            fetched(downloads, files) && packed(
                with_all(draft.files, files).files,
                draft.bin,
                mtime,
                tarball,
            ),
        Err(e) => {
            ||| download_fails(downloads, e@)
            ||| exists|files: Seq<(Seq<char>, Seq<u8>)>| #[trigger]
                fetched(downloads, files) && unpacked(
                    with_all(draft.files, files).files,
                    mtime,
                    e@,
                )
        },
    }
}

/// Makes the tarball of a package whose remaining files were fetched, in whatever order they
/// arrived.
pub fn finish_npm_tarball(draft: NpmTarballDraft, downloads: &Vec<Download>, mtime: u64) -> (r:
    Result<NpmTarball, NpmTarballError>)
    ensures
        finished(draft@, downloads@, mtime, r),
{
    let list = match downloaded_files(downloads) {
        Ok(list) => list,
        Err(e) => {
            return Err(e);
        },
    };
    let mut files = draft.files;
    add_all(&mut files, list);
    pack_files(files.into_files(), draft.bin, mtime)
}

} // verus!
