//! Where the conventions answer one way, packages come out one way.

use vstd::prelude::*;
use vstd::seq_lib::{lemma_multiset_commutative, to_multiset_contains};

use crate::convert::{
    extends_one_way, names_one_way, rewrites_one_way, transpiles_one_way, Extension,
};
use crate::emit::{emits_one_way, emitted_or_failed, first_fails};
use crate::error::{ErrorView, NpmTarballError};
use crate::files::{package_files, EmittedView, FilesView};
use crate::laws::{
    contents_ignore_order_and_time, fetching_what_is_wanted, lemma_all_appended,
    lemma_filter_distinct, lemma_filter_member, lemma_filter_multiset, packing_ignores_order,
    packing_is_decided, paths_of, same_contents, same_tarball, source_files_fill_gaps, wanted,
};
use crate::manifest::{
    described_one_way, described_or_failed, writes, writes_one_way, ManifestView, NpmPackageJson,
};
use crate::maps::{distinct_keys, has_key, lemma_same_members};
use crate::source::ParsedSource;
use crate::tarball::{
    created, drafted, drafted_from, fetched, fetched_as, finished, finished_with, lost, manifest_is,
    missing, undrafted, unpacked, unwritable, with_all, with_missing, Conventions, Download,
    DraftView, NpmTarball, NpmTarballOptions, NpmTarballStep,
};
use crate::text::texts;

verus! {

/// Whether the conventions have one answer to each question.
pub open spec fn answers_one_way<
    R: Fn(&str) -> Option<String>,
    X: Fn(&str, Extension) -> Option<String>,
    T: Fn(&ParsedSource, &str) -> Result<String, String>,
    N: Fn(&str) -> Result<String, String>,
    J: Fn(&NpmPackageJson) -> Result<String, String>,
>(conventions: Conventions<R, X, T, N, J>) -> bool {
    &&& rewrites_one_way(conventions.rewrite_specifier)
    &&& extends_one_way(conventions.rewrite_extension)
    &&& transpiles_one_way(conventions.transpile)
    &&& names_one_way(conventions.npm_name)
    &&& writes_one_way(conventions.to_json)
}

/// Whether two packages are the same but for how their files are given.
pub open spec fn alike(a: NpmTarballOptions, b: NpmTarballOptions) -> bool {
    &&& a.graph@ == b.graph@
    &&& a.sources.sources@ == b.sources.sources@
    &&& a.package == b.package
    &&& a.exports@ == b.exports@
    &&& a.dependencies@ == b.dependencies@
    &&& a.revision == b.revision
}

/// There is one manifest.
proof fn lemma_one_manifest<
    R: Fn(&str) -> Option<String>,
    X: Fn(&str, Extension) -> Option<String>,
    T: Fn(&ParsedSource, &str) -> Result<String, String>,
    N: Fn(&str) -> Result<String, String>,
    J: Fn(&NpmPackageJson) -> Result<String, String>,
>(
    a: NpmTarballOptions,
    b: NpmTarballOptions,
    conventions: Conventions<R, X, T, N, J>,
    x: ManifestView,
    y: ManifestView,
)
    requires
        answers_one_way(conventions),
        alike(a, b),
        manifest_is(a, conventions, x),
        manifest_is(b, conventions, y),
    ensures
        x == y,
{
    described_one_way(
        conventions.rewrite_specifier,
        conventions.npm_name,
        a.package,
        a.exports@,
        a.dependencies@,
        a.sources.sources@,
        a.revision,
        x,
        y,
    );
}

/// What is drafted of a package does not depend on how its files are given.
pub proof fn draft_is_decided<
    R: Fn(&str) -> Option<String>,
    X: Fn(&str, Extension) -> Option<String>,
    T: Fn(&ParsedSource, &str) -> Result<String, String>,
    N: Fn(&str) -> Result<String, String>,
    J: Fn(&NpmPackageJson) -> Result<String, String>,
>(
    a: NpmTarballOptions,
    b: NpmTarballOptions,
    conventions: Conventions<R, X, T, N, J>,
    x: DraftView,
    y: DraftView,
)
    requires
        answers_one_way(conventions),
        alike(a, b),
        drafted(a, conventions, x),
        drafted(b, conventions, y),
    ensures
        x == y,
{
    let (m, p, s) = choose|m: ManifestView, p: Seq<EmittedView>, s: Seq<char>| #[trigger]
        drafted_from(a, conventions, m, p, s, x);
    let (n, q, t) = choose|n: ManifestView, q: Seq<EmittedView>, t: Seq<char>| #[trigger]
        drafted_from(b, conventions, n, q, t, y);
    lemma_one_manifest(a, b, conventions, m, n);
    assert forall|i: int| 0 <= i < p.len() implies p[i] == q[i] by {
        assert(a.graph@[i] == b.graph@[i]);
        emits_one_way(
            conventions.rewrite_specifier,
            conventions.rewrite_extension,
            conventions.transpile,
            a.package,
            a.sources.sources@,
            a.graph@[i],
            p[i],
            q[i],
        );
    }
    assert(p =~= q);
    let first: Result<Seq<char>, Seq<char>> = Ok(s);
    let second: Result<Seq<char>, Seq<char>> = Ok(t);
    assert(writes(conventions.to_json, m, first) && writes(conventions.to_json, m, second));
    assert(first == second);
}

/// A package that can be drafted with its files given in one way does not fail to be drafted with
/// them given in another.
pub proof fn drafted_or_failed<
    R: Fn(&str) -> Option<String>,
    X: Fn(&str, Extension) -> Option<String>,
    T: Fn(&ParsedSource, &str) -> Result<String, String>,
    N: Fn(&str) -> Result<String, String>,
    J: Fn(&NpmPackageJson) -> Result<String, String>,
>(
    a: NpmTarballOptions,
    b: NpmTarballOptions,
    conventions: Conventions<R, X, T, N, J>,
    draft: DraftView,
    error: ErrorView,
)
    requires
        answers_one_way(conventions),
        alike(a, b),
        drafted(a, conventions, draft),
    ensures
        !undrafted(b, conventions, error),
{
    let (m, p, s) = choose|m: ManifestView, p: Seq<EmittedView>, s: Seq<char>| #[trigger]
        drafted_from(a, conventions, m, p, s, draft);
    described_or_failed(
        conventions.rewrite_specifier,
        conventions.npm_name,
        a.package,
        a.exports@,
        a.dependencies@,
        a.sources.sources@,
        a.revision,
        m,
        error,
    );
    assert forall|failed: int| !#[trigger] first_fails(
        conventions.rewrite_specifier,
        conventions.rewrite_extension,
        conventions.transpile,
        b.package,
        b.sources.sources@,
        b.graph@,
        failed,
        error,
    ) by {
        if 0 <= failed < a.graph@.len() {
            emitted_or_failed(
                conventions.rewrite_specifier,
                conventions.rewrite_extension,
                conventions.transpile,
                a.package,
                a.sources.sources@,
                a.graph@[failed],
                p[failed],
                error,
            );
        }
    }
    assert forall|n: ManifestView, cause: Seq<char>| !(#[trigger] unwritable(
        conventions.to_json,
        n,
        cause,
    ) && manifest_is(b, conventions, n)) by {
        if unwritable(conventions.to_json, n, cause) && manifest_is(b, conventions, n) {
            lemma_one_manifest(a, b, conventions, m, n);
            let first: Result<Seq<char>, Seq<char>> = Ok(s);
            let second: Result<Seq<char>, Seq<char>> = Err(cause);
            assert(writes(conventions.to_json, m, first));
            assert(writes(conventions.to_json, m, second));
            assert(first == second);
        }
    }
}

/// Whether each of the paths was fetched once, with the content that the list has under it.
pub open spec fn served(
    list: Seq<(Seq<char>, Seq<u8>)>,
    paths: Seq<Seq<char>>,
    downloads: Seq<Download>,
) -> bool {
    &&& downloads.map_values(|d: Download| d.path@).to_multiset() == paths.to_multiset()
    &&& forall|i: int|
        0 <= i < downloads.len() ==> match (#[trigger] downloads[i]).outcome {
            Ok(Some(content)) => list.contains((downloads[i].path@, content@)),
            _ => false,
        }
}

/// The paths that are to be fetched, each once, are those of the list for which there is a place.
proof fn lemma_paths_to_fetch(
    files: FilesView,
    list: Seq<(Seq<char>, Seq<u8>)>,
    listed: Seq<Seq<char>>,
)
    requires
        distinct_keys(list),
        listed.to_multiset() == paths_of(list).to_multiset(),
    ensures
        missing(files, listed).to_multiset() == paths_of(wanted(files, list)).to_multiset(),
        missing(files, listed).no_duplicates(),
        forall|path: Seq<char>| #[trigger]
            missing(files, listed).contains(path) == (has_key(list, path) && files.lacks(path)),
{
    let keep = |path: Seq<char>| files.lacks(path);
    lemma_filter_multiset(listed, keep);
    lemma_filter_multiset(paths_of(list), keep);
    fetching_what_is_wanted(files, list);
    let come = wanted(files, list);
    let paths = paths_of(come);
    lemma_filter_distinct(list, |file: (Seq<char>, Seq<u8>)| files.lacks(file.0));
    assert(paths.no_duplicates()) by {
        assert forall|i: int, j: int| 0 <= i < paths.len() && 0 <= j < paths.len() && i
            != j implies paths[i] != paths[j] by {
            assert(come[i].0 == paths[i] && come[j].0 == paths[j]);
        }
    }
    paths.lemma_multiset_has_no_duplicates();
    missing(files, listed).lemma_multiset_has_no_duplicates_conv();
    assert forall|path: Seq<char>| #[trigger] missing(files, listed).contains(path) == (has_key(
        list,
        path,
    ) && files.lacks(path)) by {
        broadcast use vstd::multiset::group_multiset_axioms;

        to_multiset_contains(missing(files, listed), path);
        to_multiset_contains(listed, path);
        to_multiset_contains(paths_of(list), path);
        if has_key(list, path) {
            let i = choose|i: int| 0 <= i < list.len() && (#[trigger] list[i]).0 == path;
            assert(paths_of(list)[i] == path);
        }
        if paths_of(list).contains(path) {
            let i = choose|i: int| 0 <= i < paths_of(list).len() && paths_of(list)[i] == path;
            assert(list[i].0 == path);
        }
    }
}

/// What arrives are the files of the list for which there is a place.
proof fn lemma_arrived(
    files: FilesView,
    list: Seq<(Seq<char>, Seq<u8>)>,
    listed: Seq<Seq<char>>,
    downloads: Seq<Download>,
    arrived: Seq<(Seq<char>, Seq<u8>)>,
)
    requires
        distinct_keys(list),
        listed.to_multiset() == paths_of(list).to_multiset(),
        served(list, missing(files, listed), downloads),
        fetched(downloads, arrived),
    ensures
        arrived.to_multiset() == wanted(files, list).to_multiset(),
        distinct_keys(arrived),
        forall|i: int| 0 <= i < arrived.len() ==> files.lacks((#[trigger] arrived[i]).0),
{
    let keep = |file: (Seq<char>, Seq<u8>)| files.lacks(file.0);
    let paths = downloads.map_values(|d: Download| d.path@);
    let come = wanted(files, list);
    lemma_paths_to_fetch(files, list, listed);
    lemma_filter_distinct(list, keep);
    missing(files, listed).lemma_multiset_has_no_duplicates();
    paths.lemma_multiset_has_no_duplicates_conv();
    assert forall|i: int| 0 <= i < arrived.len() implies list.contains(#[trigger] arrived[i])
        && arrived[i].0 == paths[i] && files.lacks(arrived[i].0) by {
        assert(fetched_as(downloads[i], arrived[i]));
        to_multiset_contains(paths, paths[i]);
        to_multiset_contains(missing(files, listed), paths[i]);
        assert(missing(files, listed).contains(paths[i]));
    }
    assert forall|i: int, j: int| 0 <= i < j < arrived.len() implies (#[trigger] arrived[i]).0 != (
    #[trigger] arrived[j]).0 by {
        assert(paths[i] != paths[j]);
    }
    assert forall|e: (Seq<char>, Seq<u8>)| #[trigger] arrived.contains(e) == come.contains(e) by {
        if arrived.contains(e) {
            let i = choose|i: int| 0 <= i < arrived.len() && arrived[i] == e;
            lemma_kept(list, keep, arrived[i]);
        }
        if come.contains(e) {
            lemma_filter_member(list, keep, e);
            let k = choose|k: int| 0 <= k < list.len() && list[k] == e;
            assert(has_key(list, e.0));
            assert(missing(files, listed).contains(e.0));
            to_multiset_contains(missing(files, listed), e.0);
            to_multiset_contains(paths, e.0);
            let i = choose|i: int| 0 <= i < paths.len() && paths[i] == e.0;
            let l = choose|l: int| 0 <= l < list.len() && list[l] == arrived[i];
            assert(list.contains(arrived[i]));
            assert(list[k].0 == list[l].0);
            assert(k == l);
            assert(arrived[i] == e);
        }
    }
    lemma_same_members(arrived, come);
}

/// What is in a list and passes a filter is kept.
proof fn lemma_kept<A>(list: Seq<A>, keep: spec_fn(A) -> bool, item: A)
    requires
        list.contains(item),
        keep(item),
    ensures
        list.filter(keep).contains(item),
{
    broadcast use vstd::multiset::group_multiset_axioms;

    lemma_filter_multiset(list, keep);
    to_multiset_contains(list, item);
    to_multiset_contains(list.filter(keep), item);
}

/// Handing files over and having them fetched come to the same, where the conventions answer one
/// way: one succeeds if the other does, and then both tarballs hold the same files. What is fetched,
/// once each, are the files for whose paths nothing was made and that are not the sources of
/// transpiled modules.
pub proof fn handing_over_is_fetching<
    R: Fn(&str) -> Option<String>,
    X: Fn(&str, Extension) -> Option<String>,
    T: Fn(&ParsedSource, &str) -> Result<String, String>,
    N: Fn(&str) -> Result<String, String>,
    J: Fn(&NpmPackageJson) -> Result<String, String>,
>(
    with_bytes: NpmTarballOptions,
    from_bucket: NpmTarballOptions,
    conventions: Conventions<R, X, T, N, J>,
    mtime: u64,
    step_mtime: u64,
    last_mtime: u64,
    handed_over: Result<NpmTarballStep, NpmTarballError>,
    step: Result<NpmTarballStep, NpmTarballError>,
    downloads: Seq<Download>,
    last: Result<NpmTarball, NpmTarballError>,
)
    requires
        answers_one_way(conventions),
        alike(with_bytes, from_bucket),
        with_bytes.files is WithBytes,
        from_bucket.files is FromBucket,
        distinct_keys(package_files(with_bytes.files->WithBytes_0@)),
        texts(from_bucket.files->files@).to_multiset() == paths_of(
            package_files(with_bytes.files->WithBytes_0@),
        ).to_multiset(),
        created(with_bytes, conventions, mtime, handed_over),
        created(from_bucket, conventions, step_mtime, step),
        step matches Ok(NpmTarballStep::Download { draft, paths }) ==> served(
            package_files(with_bytes.files->WithBytes_0@),
            texts(paths@),
            downloads,
        ) && finished(draft@, downloads, last_mtime, last),
    ensures
        match (handed_over, step) {
            (
                Ok(NpmTarballStep::Finished(a)),
                Ok(NpmTarballStep::Download { draft, paths }),
            ) => {
                &&& drafted(with_bytes, conventions, draft@)
                &&& match last {
                    Ok(b) => {
                        &&& same_contents(a, b)
                        &&& a.bin@ == b.bin@
                        &&& mtime == last_mtime ==> same_tarball(a, b)
                    },
                    Err(_) => false,
                }
                &&& texts(paths@).no_duplicates()
                &&& forall|path: Seq<char>| #[trigger]
                    texts(paths@).contains(path) == (has_key(
                        package_files(with_bytes.files->WithBytes_0@),
                        path,
                    ) && draft@.files.lacks(path))
            },
            (Err(_), Ok(NpmTarballStep::Download { draft, paths })) => last is Err,
            (Err(e), Err(_)) => undrafted(with_bytes, conventions, e@),
            _ => false,
        },
{
    let list = package_files(with_bytes.files->WithBytes_0@);
    let listed = texts(from_bucket.files->files@);
    match step {
        Ok(NpmTarballStep::Download { draft, paths }) => {
            lemma_both_drafted(
                with_bytes,
                from_bucket,
                conventions,
                mtime,
                last_mtime,
                handed_over,
                draft@,
                downloads,
                last,
            );
            lemma_paths_to_fetch(draft@.files, list, listed);
        },
        Err(e) => {
            assert forall|draft: DraftView| !#[trigger] drafted(
                with_bytes,
                conventions,
                draft,
            ) by {
                if drafted(with_bytes, conventions, draft) {
                    drafted_or_failed(with_bytes, from_bucket, conventions, draft, e@);
                }
            }
        },
        _ => {},
    }
}

/// Handing files over and having them fetched come to the same once the package is drafted.
proof fn lemma_both_drafted<
    R: Fn(&str) -> Option<String>,
    X: Fn(&str, Extension) -> Option<String>,
    T: Fn(&ParsedSource, &str) -> Result<String, String>,
    N: Fn(&str) -> Result<String, String>,
    J: Fn(&NpmPackageJson) -> Result<String, String>,
>(
    with_bytes: NpmTarballOptions,
    from_bucket: NpmTarballOptions,
    conventions: Conventions<R, X, T, N, J>,
    mtime: u64,
    last_mtime: u64,
    handed_over: Result<NpmTarballStep, NpmTarballError>,
    draft: DraftView,
    downloads: Seq<Download>,
    last: Result<NpmTarball, NpmTarballError>,
)
    requires
        answers_one_way(conventions),
        alike(with_bytes, from_bucket),
        with_bytes.files is WithBytes,
        from_bucket.files is FromBucket,
        distinct_keys(package_files(with_bytes.files->WithBytes_0@)),
        texts(from_bucket.files->files@).to_multiset() == paths_of(
            package_files(with_bytes.files->WithBytes_0@),
        ).to_multiset(),
        created(with_bytes, conventions, mtime, handed_over),
        drafted(from_bucket, conventions, draft),
        served(
            package_files(with_bytes.files->WithBytes_0@),
            missing(draft.files, texts(from_bucket.files->files@)),
            downloads,
        ),
        finished(draft, downloads, last_mtime, last),
    ensures
        match handed_over {
            Ok(NpmTarballStep::Finished(a)) => {
                &&& drafted(with_bytes, conventions, draft)
                &&& match last {
                    Ok(b) => {
                        &&& same_contents(a, b)
                        &&& a.bin@ == b.bin@
                        &&& mtime == last_mtime ==> same_tarball(a, b)
                    },
                    Err(_) => false,
                }
            },
            Ok(NpmTarballStep::Download { .. }) => false,
            Err(_) => last is Err,
        },
{
    let list = package_files(with_bytes.files->WithBytes_0@);
    let listed = texts(from_bucket.files->files@);
    let files = draft.files;
    // Nothing was lost on the way.
    assert forall|i: int| 0 <= i < downloads.len() implies lost(#[trigger] downloads[i]) is None by {
    }
    let arrived = Seq::new(
        downloads.len(),
        |i: int| (downloads[i].path@, (downloads[i].outcome->Ok_0)->Some_0@),
    );
    assert forall|other: Seq<(Seq<char>, Seq<u8>)>| #[trigger]
        fetched(downloads, other) implies other == arrived by {
        assert forall|i: int| 0 <= i < other.len() implies other[i] == arrived[i] by {
            assert(fetched_as(downloads[i], other[i]));
        }
        assert(other =~= arrived);
    }
    assert(fetched(downloads, arrived)) by {
        assert forall|i: int| 0 <= i < downloads.len() implies fetched_as(
            #[trigger] downloads[i],
            arrived[i],
        ) by {
        }
    }
    lemma_arrived(files, list, listed, downloads, arrived);
    source_files_fill_gaps(files, list);
    lemma_all_appended(files, arrived);
    lemma_multiset_commutative(files.files, wanted(files, list));
    lemma_multiset_commutative(files.files, arrived);
    let over = with_missing(files, list).files;
    let through = with_all(files, arrived).files;
    assert(over.to_multiset() == through.to_multiset());
    match handed_over {
        Ok(NpmTarballStep::Finished(a)) => {
            let other = choose|other: DraftView| #[trigger]
                drafted(with_bytes, conventions, other) && finished_with(other, list, mtime, a);
            draft_is_decided(with_bytes, from_bucket, conventions, other, draft);
            packing_is_decided(over, through, draft.bin, mtime, last_mtime, a);
            if let Ok(b) = last {
                contents_ignore_order_and_time(
                    over,
                    through,
                    draft.bin,
                    mtime,
                    last_mtime,
                    a,
                    b,
                );
                if mtime == last_mtime {
                    packing_ignores_order(over, through, draft.bin, mtime, a, b);
                }
            }
        },
        Err(e) => {
            drafted_or_failed(from_bucket, with_bytes, conventions, draft, e@);
            let other = choose|other: DraftView| #[trigger]
                drafted(with_bytes, conventions, other) && unpacked(
                    with_missing(other.files, list).files,
                    mtime,
                    e@,
                );
            draft_is_decided(with_bytes, from_bucket, conventions, other, draft);
            if let Ok(b) = last {
                packing_is_decided(through, over, draft.bin, last_mtime, mtime, b);
            }
        },
        _ => {},
    }
}

} // verus!
