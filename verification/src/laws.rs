//! What holds of packages as a whole.

use vstd::prelude::*;
use vstd::seq_lib::{
    lemma_multiset_commutative, to_multiset_build, to_multiset_contains, to_multiset_len,
};
use vstd::utf8::encode_utf8;

use crate::archive::{
    first_unstored, gunzipped, reads_as, rooted, tar_entries, tar_file, unstorable, unstored_error,
    ArchiveEntry,
};
use crate::convert::Extension;
use crate::emit::gathered;
use crate::error::ErrorView;
use crate::files::{EmittedView, FilesView};
use crate::graph::Module;
use crate::manifest::{writes, ManifestView, NpmPackageJson};
use crate::maps::{
    arrangement_is_unique, distinct_keys, has_key, lemma_reordered_distinct, put_changes_one_key,
};
use crate::source::ParsedSource;
use crate::tarball::{
    arranged, drafted, drafted_from, finished_with, manifest_is, manifest_path, missing, packed,
    tarball_of, unpacked, with_all, with_missing, Conventions, DraftView, NpmTarball,
    NpmTarballOptions,
};

verus! {

/// Whether two tarballs are the same.
pub open spec fn same_tarball(a: NpmTarball, b: NpmTarball) -> bool {
    &&& a.tarball@ == b.tarball@
    &&& a.sha1@ == b.sha1@
    &&& a.sha512@ == b.sha512@
    &&& a.bin@ == b.bin@
}

/// The tarball depends on which files there are, not on the order in which they were gathered.
pub proof fn packing_ignores_order(
    files: Seq<(Seq<char>, Seq<u8>)>,
    others: Seq<(Seq<char>, Seq<u8>)>,
    bin: Seq<(Seq<char>, Seq<char>)>,
    mtime: u64,
    a: NpmTarball,
    b: NpmTarball,
)
    requires
        files.to_multiset() == others.to_multiset(),
        packed(files, bin, mtime, a),
        packed(others, bin, mtime, b),
    ensures
        same_tarball(a, b),
{
    let x = choose|x: Seq<(Seq<char>, Seq<u8>)>| #[trigger]
        arranged(files, x) && tarball_of(x, bin, mtime, a);
    let y = choose|y: Seq<(Seq<char>, Seq<u8>)>| #[trigger]
        arranged(others, y) && tarball_of(y, bin, mtime, b);
    arrangement_is_unique(x, y);
}

/// Files that can be packed in one order, at one time, are not refused in another.
pub proof fn packing_is_decided(
    files: Seq<(Seq<char>, Seq<u8>)>,
    others: Seq<(Seq<char>, Seq<u8>)>,
    bin: Seq<(Seq<char>, Seq<char>)>,
    mtime: u64,
    other_mtime: u64,
    tarball: NpmTarball,
)
    requires
        files.to_multiset() == others.to_multiset(),
        packed(files, bin, mtime, tarball),
    ensures
        forall|error: ErrorView| !unpacked(others, other_mtime, error),
{
    let x = choose|x: Seq<(Seq<char>, Seq<u8>)>| #[trigger]
        arranged(files, x) && tarball_of(x, bin, mtime, tarball);
    assert forall|error: ErrorView| !unpacked(others, other_mtime, error) by {
        if unpacked(others, other_mtime, error) {
            let (y, failed) = choose|y: Seq<(Seq<char>, Seq<u8>)>, failed: int|
                {
                    &&& arranged(others, y)
                    &&& #[trigger] first_unstored(y, other_mtime, failed)
                    &&& unstorable(y[failed].0)
                    &&& error == unstored_error(y[failed].0)
                };
            arrangement_is_unique(x, y);
            assert(reads_as(tar_entries(tar_file(x, mtime))[failed], x[failed], mtime));
        }
    }
}

/// Whether two tarballs hold the same files: the same contents under the same paths, in the same
/// order.
pub open spec fn same_contents(a: NpmTarball, b: NpmTarball) -> bool {
    match (gunzipped(a.tarball@), gunzipped(b.tarball@)) {
        (Some(x), Some(y)) => {
            &&& tar_entries(x).len() == tar_entries(y).len()
            &&& forall|i: int|
                0 <= i < tar_entries(x).len() ==> (#[trigger] tar_entries(x)[i]).path
                    == tar_entries(y)[i].path && tar_entries(x)[i].content == tar_entries(
                    y,
                )[i].content
        },
        _ => false,
    }
}

/// What the tarball holds depends neither on the order in which the files were gathered nor on the
/// time.
pub proof fn contents_ignore_order_and_time(
    files: Seq<(Seq<char>, Seq<u8>)>,
    others: Seq<(Seq<char>, Seq<u8>)>,
    bin: Seq<(Seq<char>, Seq<char>)>,
    mtime: u64,
    other_mtime: u64,
    a: NpmTarball,
    b: NpmTarball,
)
    requires
        files.to_multiset() == others.to_multiset(),
        packed(files, bin, mtime, a),
        packed(others, bin, other_mtime, b),
    ensures
        same_contents(a, b),
        a.bin@ == b.bin@,
{
    let x = choose|x: Seq<(Seq<char>, Seq<u8>)>| #[trigger]
        arranged(files, x) && tarball_of(x, bin, mtime, a);
    let y = choose|y: Seq<(Seq<char>, Seq<u8>)>| #[trigger]
        arranged(others, y) && tarball_of(y, bin, other_mtime, b);
    arrangement_is_unique(x, y);
    let p = tar_entries(tar_file(x, mtime));
    let q = tar_entries(tar_file(y, other_mtime));
    assert forall|i: int| 0 <= i < p.len() implies (#[trigger] p[i]).path == q[i].path
        && p[i].content == q[i].content by {
        assert(reads_as(p[i], x[i], mtime));
        assert(reads_as(q[i], y[i], other_mtime));
    }
}

/// What a filter keeps of a list, by how often.
pub(crate) proof fn lemma_filter_multiset<A>(list: Seq<A>, keep: spec_fn(A) -> bool)
    ensures
        list.filter(keep).to_multiset() == list.to_multiset().filter(keep),
    decreases list.len(),
{
    broadcast use vstd::multiset::group_multiset_axioms;

    reveal(Seq::filter);
    if list.len() == 0 {
        assert forall|item: A| list.to_multiset().count(item) == 0 by {
            to_multiset_contains(list, item);
        }
        assert(list.filter(keep).to_multiset() =~= list.to_multiset().filter(keep));
    } else {
        let rest = list.drop_last();
        lemma_filter_multiset(rest, keep);
        assert(list =~= rest.push(list.last()));
        to_multiset_build(rest, list.last());
        to_multiset_build(rest.filter(keep), list.last());
        assert(list.filter(keep).to_multiset() =~= list.to_multiset().filter(keep));
    }
}

/// What a filter keeps was in the list.
pub(crate) proof fn lemma_filter_member<A>(list: Seq<A>, keep: spec_fn(A) -> bool, item: A)
    requires
        list.filter(keep).contains(item),
    ensures
        list.contains(item),
        keep(item),
{
    broadcast use vstd::multiset::group_multiset_axioms;

    lemma_filter_multiset(list, keep);
    to_multiset_contains(list.filter(keep), item);
    to_multiset_contains(list, item);
}

/// A filter keeps keys distinct.
pub(crate) proof fn lemma_filter_distinct<V>(
    list: Seq<(Seq<char>, V)>,
    keep: spec_fn((Seq<char>, V)) -> bool,
)
    requires
        distinct_keys(list),
    ensures
        distinct_keys(list.filter(keep)),
    decreases list.len(),
{
    reveal(Seq::filter);
    if list.len() > 0 {
        let rest = list.drop_last();
        let kept = rest.filter(keep);
        lemma_filter_distinct(rest, keep);
        if keep(list.last()) {
            assert forall|i: int| 0 <= i < kept.len() implies (#[trigger] kept[i]).0
                != list.last().0 by {
                assert(kept.contains(kept[i]));
                lemma_filter_member(rest, keep, kept[i]);
                let j = choose|j: int| 0 <= j < rest.len() && rest[j] == kept[i];
                assert(list[j].0 != list[list.len() - 1].0);
            }
        }
    }
}

/// The files of a list for which there is a place.
pub open spec fn wanted(files: FilesView, list: Seq<(Seq<char>, Seq<u8>)>) -> Seq<
    (Seq<char>, Seq<u8>),
> {
    list.filter(|file: (Seq<char>, Seq<u8>)| files.lacks(file.0))
}

/// The files of the package source fill the gaps: what was made from the modules stays as it is,
/// and of the rest each file comes in that has neither the path of such a file nor that of a
/// source that was transpiled.
pub proof fn source_files_fill_gaps(files: FilesView, list: Seq<(Seq<char>, Seq<u8>)>)
    requires
        distinct_keys(list),
    ensures
        with_missing(files, list).files == files.files + wanted(files, list),
        with_missing(files, list).transpiled == files.transpiled,
    decreases list.len(),
{
    let keep = |file: (Seq<char>, Seq<u8>)| files.lacks(file.0);
    reveal(Seq::filter);
    if list.len() == 0 {
        assert(files.files + wanted(files, list) =~= files.files);
    } else {
        let rest = list.drop_last();
        let last = list.last();
        let before = with_missing(files, rest);
        source_files_fill_gaps(files, rest);
        let kept = rest.filter(keep);
        assert(before.files == files.files + kept);
        assert(has_key(before.files, last.0) == has_key(files.files, last.0)) by {
            if has_key(files.files, last.0) {
                let i = choose|i: int|
                    0 <= i < files.files.len() && (#[trigger] files.files[i]).0 == last.0;
                assert(before.files[i].0 == last.0);
            }
            if has_key(before.files, last.0) {
                let i = choose|i: int|
                    0 <= i < before.files.len() && (#[trigger] before.files[i]).0 == last.0;
                if i >= files.files.len() {
                    let file = kept[i - files.files.len()];
                    assert(kept.contains(file));
                    lemma_filter_member(rest, keep, file);
                    let j = choose|j: int| 0 <= j < rest.len() && rest[j] == file;
                    assert(list[j].0 != list[list.len() - 1].0);
                } else {
                    assert(files.files[i].0 == last.0);
                }
            }
        }
        assert(with_missing(files, list).files =~= files.files + wanted(files, list));
    }
}

/// Files that have a place each, under a path of their own, are put behind those that are there.
pub(crate) proof fn lemma_all_appended(files: FilesView, list: Seq<(Seq<char>, Seq<u8>)>)
    requires
        distinct_keys(list),
        forall|i: int| 0 <= i < list.len() ==> files.lacks((#[trigger] list[i]).0),
    ensures
        with_all(files, list).files == files.files + list,
    decreases list.len(),
{
    if list.len() == 0 {
        assert(files.files + list =~= files.files);
    } else {
        let rest = list.drop_last();
        let last = list.last();
        assert forall|i: int| 0 <= i < rest.len() implies files.lacks((#[trigger] rest[i]).0) by {
            assert(rest[i] == list[i]);
        }
        lemma_all_appended(files, rest);
        let before = with_all(files, rest);
        assert(!has_key(before.files, last.0)) by {
            if has_key(before.files, last.0) {
                let i = choose|i: int|
                    0 <= i < before.files.len() && (#[trigger] before.files[i]).0 == last.0;
                assert(files.lacks(list[list.len() - 1].0));
                if i >= files.files.len() {
                    let j = i - files.files.len();
                    assert(list[j].0 != list[list.len() - 1].0);
                } else {
                    assert(files.files[i].0 == last.0);
                }
            }
        }
        assert(with_all(files, list).files =~= files.files + list);
    }
}

/// The tarball does not depend on the order in which the files of the package source are listed.
pub proof fn packing_ignores_listing(
    draft: DraftView,
    list: Seq<(Seq<char>, Seq<u8>)>,
    other: Seq<(Seq<char>, Seq<u8>)>,
    mtime: u64,
    a: NpmTarball,
    b: NpmTarball,
)
    requires
        distinct_keys(list),
        list.to_multiset() == other.to_multiset(),
        finished_with(draft, list, mtime, a),
        finished_with(draft, other, mtime, b),
    ensures
        same_tarball(a, b),
{
    let files = draft.files;
    let keep = |file: (Seq<char>, Seq<u8>)| files.lacks(file.0);
    lemma_reordered_distinct(list, other);
    source_files_fill_gaps(files, list);
    source_files_fill_gaps(files, other);
    lemma_filter_multiset(list, keep);
    lemma_filter_multiset(other, keep);
    lemma_multiset_commutative(files.files, wanted(files, list));
    lemma_multiset_commutative(files.files, wanted(files, other));
    packing_ignores_order(
        with_missing(files, list).files,
        with_missing(files, other).files,
        draft.bin,
        mtime,
        a,
        b,
    );
}

/// The paths that are to be fetched are those of the files that come in.
pub proof fn fetching_what_is_wanted(files: FilesView, list: Seq<(Seq<char>, Seq<u8>)>)
    ensures
        paths_of(wanted(files, list)) == missing(files, paths_of(list)),
    decreases list.len(),
{
    reveal(Seq::filter);
    if list.len() == 0 {
        assert(paths_of(wanted(files, list)) =~= missing(files, paths_of(list)));
    } else {
        let rest = list.drop_last();
        fetching_what_is_wanted(files, rest);
        assert(paths_of(list).drop_last() =~= paths_of(rest));
        assert(paths_of(list).last() == list.last().0);
        assert(paths_of(wanted(files, list)) =~= missing(files, paths_of(list)));
    }
}

/// The paths of a list of files.
pub open spec fn paths_of(list: Seq<(Seq<char>, Seq<u8>)>) -> Seq<Seq<char>> {
    list.map_values(|file: (Seq<char>, Seq<u8>)| file.0)
}

/// Files that are fetched, in whatever order they arrive, make the same tarball as the same files
/// handed over with their contents.
pub proof fn fetched_or_handed_over(
    draft: DraftView,
    list: Seq<(Seq<char>, Seq<u8>)>,
    arrived: Seq<(Seq<char>, Seq<u8>)>,
    mtime: u64,
    a: NpmTarball,
    b: NpmTarball,
)
    requires
        distinct_keys(list),
        arrived.to_multiset() == wanted(draft.files, list).to_multiset(),
        finished_with(draft, list, mtime, a),
        packed(with_all(draft.files, arrived).files, draft.bin, mtime, b),
    ensures
        same_tarball(a, b),
{
    let files = draft.files;
    let keep = |file: (Seq<char>, Seq<u8>)| files.lacks(file.0);
    lemma_filter_distinct(list, keep);
    lemma_reordered_distinct(wanted(files, list), arrived);
    assert forall|i: int| 0 <= i < arrived.len() implies files.lacks((#[trigger] arrived[i]).0) by {
        to_multiset_contains(arrived, arrived[i]);
        to_multiset_contains(wanted(files, list), arrived[i]);
        lemma_filter_member(list, keep, arrived[i]);
    }
    source_files_fill_gaps(files, list);
    lemma_all_appended(files, arrived);
    lemma_multiset_commutative(files.files, wanted(files, list));
    lemma_multiset_commutative(files.files, arrived);
    packing_ignores_order(
        with_missing(files, list).files,
        with_all(files, arrived).files,
        draft.bin,
        mtime,
        a,
        b,
    );
}

/// No path occurs twice among the files that are made from the modules.
pub proof fn module_paths_are_distinct(modules: Seq<Module>, emissions: Seq<EmittedView>)
    ensures
        distinct_keys(gathered(modules, emissions).files),
    decreases modules.len(),
{
    if modules.len() > 0 {
        module_paths_are_distinct(modules.drop_last(), emissions.drop_last());
        let before = gathered(modules.drop_last(), emissions.drop_last());
        let emitted = emissions.last();
        let coded = match emitted.code {
            Some(f) => before.with_file(f.0, f.1),
            None => before,
        };
        if let Some(f) = emitted.code {
            put_changes_one_key(before.files, f.0, f.1);
        }
        if let Some(f) = emitted.dts {
            put_changes_one_key(coded.files, f.0, f.1);
        }
    }
}

/// What was made from the modules stays as it is, whatever the package source holds.
pub proof fn made_files_stay(
    files: FilesView,
    list: Seq<(Seq<char>, Seq<u8>)>,
    file: (Seq<char>, Seq<u8>),
)
    requires
        files.files.contains(file),
    ensures
        with_missing(files, list).files.contains(file),
    decreases list.len(),
{
    if list.len() > 0 {
        let before = with_missing(files, list.drop_last());
        made_files_stay(files, list.drop_last(), file);
        let i = choose|i: int| 0 <= i < before.files.len() && before.files[i] == file;
        put_changes_one_key(before.files, list.last().0, list.last().1);
        if before.lacks(list.last().0) {
            assert(before.files[i].0 != list.last().0);
        }
    }
}

/// Files that are fetched leave the files under other paths as they are.
pub proof fn fetched_files_leave_the_rest(
    files: FilesView,
    list: Seq<(Seq<char>, Seq<u8>)>,
    file: (Seq<char>, Seq<u8>),
)
    requires
        files.files.contains(file),
        !has_key(list, file.0),
    ensures
        with_all(files, list).files.contains(file),
    decreases list.len(),
{
    if list.len() > 0 {
        let rest = list.drop_last();
        assert(!has_key(rest, file.0)) by {
            if has_key(rest, file.0) {
                let i = choose|i: int| 0 <= i < rest.len() && (#[trigger] rest[i]).0 == file.0;
                assert(list[i].0 == file.0);
            }
        }
        assert(list[list.len() - 1].0 != file.0);
        fetched_files_leave_the_rest(files, rest, file);
        put_changes_one_key(with_all(files, rest).files, list.last().0, list.last().1);
    }
}

/// A source that was transpiled is left out, unless something else was made under its path.
pub proof fn transpiled_sources_are_left_out(
    files: FilesView,
    list: Seq<(Seq<char>, Seq<u8>)>,
    path: Seq<char>,
)
    requires
        files.transpiled.contains(path),
        !has_key(files.files, path),
    ensures
        !has_key(with_missing(files, list).files, path),
        with_missing(files, list).transpiled == files.transpiled,
    decreases list.len(),
{
    if list.len() > 0 {
        let before = with_missing(files, list.drop_last());
        let after = with_missing(files, list);
        transpiled_sources_are_left_out(files, list.drop_last(), path);
        if has_key(after.files, path) {
            let i = choose|i: int| 0 <= i < after.files.len() && (#[trigger] after.files[i]).0 == path;
            if before.lacks(list.last().0) {
                if i < before.files.len() {
                    assert(before.files[i] == after.files[i]);
                }
            }
        }
    }
}

/// The modules that are transpiled are marked, whatever comes after them.
pub proof fn transpiled_sources_are_marked(
    modules: Seq<Module>,
    emissions: Seq<EmittedView>,
    i: int,
)
    requires
        modules.len() == emissions.len(),
        0 <= i < modules.len(),
        emissions[i].transpiled,
    ensures
        gathered(modules, emissions).transpiled.contains(modules[i].path@),
    decreases modules.len(),
{
    if i < modules.len() - 1 {
        transpiled_sources_are_marked(modules.drop_last(), emissions.drop_last(), i);
    }
}

/// Whether a file is read from a tarball, under `package`.
pub open spec fn tarball_holds(
    tarball: NpmTarball,
    file: (Seq<char>, Seq<u8>),
    mtime: u64,
) -> bool {
    match gunzipped(tarball.tarball@) {
        Some(bytes) => exists|i: int|
            {
                &&& 0 <= i < tar_entries(bytes).len()
                &&& (#[trigger] tar_entries(bytes)[i]).path == encode_utf8("package"@ + file.0)
                &&& reads_as(tar_entries(bytes)[i], file, mtime)
            },
        None => false,
    }
}

/// Every file that is packed is read back from the tarball.
pub proof fn packed_files_are_read_back(
    files: Seq<(Seq<char>, Seq<u8>)>,
    bin: Seq<(Seq<char>, Seq<char>)>,
    mtime: u64,
    tarball: NpmTarball,
    file: (Seq<char>, Seq<u8>),
)
    requires
        packed(files, bin, mtime, tarball),
        files.contains(file),
        rooted(file.0),
    ensures
        tarball_holds(tarball, file, mtime),
{
    let sorted = choose|sorted: Seq<(Seq<char>, Seq<u8>)>| #[trigger]
        arranged(files, sorted) && tarball_of(sorted, bin, mtime, tarball);
    to_multiset_contains(files, file);
    to_multiset_contains(sorted, file);
    let i = choose|i: int| 0 <= i < sorted.len() && sorted[i] == file;
    let bytes = tar_file(sorted, mtime);
    assert(reads_as(tar_entries(bytes)[i], sorted[i], mtime));
}

/// Whether what is read is one of the files.
pub open spec fn reads_one_of(
    entry: ArchiveEntry,
    files: Seq<(Seq<char>, Seq<u8>)>,
    mtime: u64,
) -> bool {
    exists|file: (Seq<char>, Seq<u8>)| files.contains(file) && #[trigger] reads_as(entry, file, mtime)
}

/// Nothing is read back from the tarball but the files that were packed.
pub proof fn nothing_else_is_read_back(
    files: Seq<(Seq<char>, Seq<u8>)>,
    bin: Seq<(Seq<char>, Seq<char>)>,
    mtime: u64,
    tarball: NpmTarball,
)
    requires
        packed(files, bin, mtime, tarball),
    ensures
        match gunzipped(tarball.tarball@) {
            Some(bytes) => {
                &&& tar_entries(bytes).len() == files.len()
                &&& forall|i: int|
                    0 <= i < tar_entries(bytes).len() ==> reads_one_of(
                        #[trigger] tar_entries(bytes)[i],
                        files,
                        mtime,
                    )
            },
            None => false,
        },
{
    let sorted = choose|sorted: Seq<(Seq<char>, Seq<u8>)>| #[trigger]
        arranged(files, sorted) && tarball_of(sorted, bin, mtime, tarball);
    let bytes = tar_file(sorted, mtime);
    to_multiset_len(files);
    to_multiset_len(sorted);
    assert forall|i: int| 0 <= i < tar_entries(bytes).len() implies reads_one_of(
        #[trigger] tar_entries(bytes)[i],
        files,
        mtime,
    ) by {
        to_multiset_contains(files, sorted[i]);
        to_multiset_contains(sorted, sorted[i]);
        assert(reads_as(tar_entries(bytes)[i], sorted[i], mtime));
    }
}

/// The tarball of a package holds what was made from its modules, and every file of its source
/// that fills a gap.
pub proof fn package_holds_its_files(
    draft: DraftView,
    list: Seq<(Seq<char>, Seq<u8>)>,
    mtime: u64,
    tarball: NpmTarball,
    file: (Seq<char>, Seq<u8>),
)
    requires
        distinct_keys(list),
        finished_with(draft, list, mtime, tarball),
        draft.files.files.contains(file) || (list.contains(file) && draft.files.lacks(file.0)),
        rooted(file.0),
    ensures
        tarball_holds(tarball, file, mtime),
{
    let files = draft.files;
    if files.files.contains(file) {
        made_files_stay(files, list, file);
    } else {
        let keep = |f: (Seq<char>, Seq<u8>)| files.lacks(f.0);
        source_files_fill_gaps(files, list);
        lemma_filter_multiset(list, keep);
        to_multiset_contains(list, file);
        to_multiset_contains(wanted(files, list), file);
        broadcast use vstd::multiset::group_multiset_axioms;

        let i = choose|i: int|
            0 <= i < wanted(files, list).len() && wanted(files, list)[i] == file;
        assert(with_missing(files, list).files[files.files.len() + i] == file);
    }
    packed_files_are_read_back(
        with_missing(files, list).files,
        draft.bin,
        mtime,
        tarball,
        file,
    );
}

/// Whether the manifest `manifest`, written down as `json`, is in the tarball.
pub open spec fn holds_manifest<
    R: Fn(&str) -> Option<String>,
    X: Fn(&str, Extension) -> Option<String>,
    T: Fn(&ParsedSource, &str) -> Result<String, String>,
    N: Fn(&str) -> Result<String, String>,
    J: Fn(&NpmPackageJson) -> Result<String, String>,
>(
    opts: NpmTarballOptions,
    conventions: Conventions<R, X, T, N, J>,
    manifest: ManifestView,
    json: Seq<char>,
    mtime: u64,
    tarball: NpmTarball,
) -> bool {
    &&& manifest_is(opts, conventions, manifest)
    &&& writes(conventions.to_json, manifest, Ok(json))
    &&& tarball_holds(tarball, (manifest_path(), encode_utf8(json)), mtime)
    &&& tarball.bin@ == manifest.bin
}

/// The tarball of a package holds its manifest, whatever its modules and its source hold under
/// that path, and lists the commands of the manifest.
pub proof fn package_holds_its_manifest<
    R: Fn(&str) -> Option<String>,
    X: Fn(&str, Extension) -> Option<String>,
    T: Fn(&ParsedSource, &str) -> Result<String, String>,
    N: Fn(&str) -> Result<String, String>,
    J: Fn(&NpmPackageJson) -> Result<String, String>,
>(
    opts: NpmTarballOptions,
    conventions: Conventions<R, X, T, N, J>,
    draft: DraftView,
    list: Seq<(Seq<char>, Seq<u8>)>,
    mtime: u64,
    tarball: NpmTarball,
)
    requires
        drafted(opts, conventions, draft),
        finished_with(draft, list, mtime, tarball),
    ensures
        exists|manifest: ManifestView, json: Seq<char>| #[trigger]
            holds_manifest(opts, conventions, manifest, json, mtime, tarball),
{
    let (manifest, emissions, json) = choose|
        manifest: ManifestView,
        emissions: Seq<EmittedView>,
        json: Seq<char>,
    | #[trigger] drafted_from(opts, conventions, manifest, emissions, json, draft);
    let file = (manifest_path(), encode_utf8(json));
    put_changes_one_key(gathered(opts.graph@, emissions).files, file.0, file.1);
    made_files_stay(draft.files, list, file);
    lemma_manifest_path_rooted();
    packed_files_are_read_back(
        with_missing(draft.files, list).files,
        draft.bin,
        mtime,
        tarball,
        file,
    );
    let sorted = choose|sorted: Seq<(Seq<char>, Seq<u8>)>| #[trigger]
        arranged(with_missing(draft.files, list).files, sorted) && tarball_of(
            sorted,
            draft.bin,
            mtime,
            tarball,
        );
    assert(holds_manifest(opts, conventions, manifest, json, mtime, tarball));
}

/// The manifest is never among the files that are to be fetched, so that nothing that arrives takes
/// its place.
pub proof fn manifest_is_not_fetched<
    R: Fn(&str) -> Option<String>,
    X: Fn(&str, Extension) -> Option<String>,
    T: Fn(&ParsedSource, &str) -> Result<String, String>,
    N: Fn(&str) -> Result<String, String>,
    J: Fn(&NpmPackageJson) -> Result<String, String>,
>(
    opts: NpmTarballOptions,
    conventions: Conventions<R, X, T, N, J>,
    draft: DraftView,
    paths: Seq<Seq<char>>,
)
    requires
        drafted(opts, conventions, draft),
    ensures
        !missing(draft.files, paths).contains(manifest_path()),
{
    let (manifest, emissions, json) = choose|
        manifest: ManifestView,
        emissions: Seq<EmittedView>,
        json: Seq<char>,
    | #[trigger] drafted_from(opts, conventions, manifest, emissions, json, draft);
    let file = (manifest_path(), encode_utf8(json));
    put_changes_one_key(gathered(opts.graph@, emissions).files, file.0, file.1);
    let i = choose|i: int| 0 <= i < draft.files.files.len() && draft.files.files[i] == file;
    assert(draft.files.files[i].0 == manifest_path());
    if missing(draft.files, paths).contains(manifest_path()) {
        let keep = |path: Seq<char>| draft.files.lacks(path);
        lemma_filter_member(paths, keep, manifest_path());
    }
}

/// The tarball of a package whose files were fetched holds its manifest, and lists the commands of
/// the manifest.
pub proof fn fetched_package_holds_its_manifest<
    R: Fn(&str) -> Option<String>,
    X: Fn(&str, Extension) -> Option<String>,
    T: Fn(&ParsedSource, &str) -> Result<String, String>,
    N: Fn(&str) -> Result<String, String>,
    J: Fn(&NpmPackageJson) -> Result<String, String>,
>(
    opts: NpmTarballOptions,
    conventions: Conventions<R, X, T, N, J>,
    draft: DraftView,
    paths: Seq<Seq<char>>,
    arrived: Seq<(Seq<char>, Seq<u8>)>,
    mtime: u64,
    tarball: NpmTarball,
)
    requires
        drafted(opts, conventions, draft),
        forall|i: int|
            0 <= i < arrived.len() ==> missing(draft.files, paths).contains(
                (#[trigger] arrived[i]).0,
            ),
        packed(with_all(draft.files, arrived).files, draft.bin, mtime, tarball),
    ensures
        exists|manifest: ManifestView, json: Seq<char>| #[trigger]
            holds_manifest(opts, conventions, manifest, json, mtime, tarball),
{
    let (manifest, emissions, json) = choose|
        manifest: ManifestView,
        emissions: Seq<EmittedView>,
        json: Seq<char>,
    | #[trigger] drafted_from(opts, conventions, manifest, emissions, json, draft);
    let file = (manifest_path(), encode_utf8(json));
    put_changes_one_key(gathered(opts.graph@, emissions).files, file.0, file.1);
    manifest_is_not_fetched(opts, conventions, draft, paths);
    fetched_files_leave_the_rest(draft.files, arrived, file);
    lemma_manifest_path_rooted();
    let files = with_all(draft.files, arrived).files;
    packed_files_are_read_back(files, draft.bin, mtime, tarball, file);
    let sorted = choose|sorted: Seq<(Seq<char>, Seq<u8>)>| #[trigger]
        arranged(files, sorted) && tarball_of(sorted, draft.bin, mtime, tarball);
    assert(holds_manifest(opts, conventions, manifest, json, mtime, tarball));
}

/// The tarball of a package whose files were fetched holds what was made from its modules, and
/// everything that was fetched.
pub proof fn fetched_package_holds_its_files(
    draft: DraftView,
    arrived: Seq<(Seq<char>, Seq<u8>)>,
    mtime: u64,
    tarball: NpmTarball,
    file: (Seq<char>, Seq<u8>),
)
    requires
        distinct_keys(arrived),
        forall|i: int| 0 <= i < arrived.len() ==> draft.files.lacks((#[trigger] arrived[i]).0),
        packed(with_all(draft.files, arrived).files, draft.bin, mtime, tarball),
        draft.files.files.contains(file) || arrived.contains(file),
        rooted(file.0),
    ensures
        tarball_holds(tarball, file, mtime),
{
    let before = draft.files.files;
    let files = with_all(draft.files, arrived).files;
    lemma_all_appended(draft.files, arrived);
    if before.contains(file) {
        let i = choose|i: int| 0 <= i < before.len() && before[i] == file;
        assert(files[i] == file);
    } else {
        let i = choose|i: int| 0 <= i < arrived.len() && arrived[i] == file;
        assert(files[before.len() + i] == file);
    }
    packed_files_are_read_back(files, draft.bin, mtime, tarball, file);
}

/// The path of the manifest is one that is read back.
proof fn lemma_manifest_path_rooted()
    ensures
        rooted(manifest_path()),
{
    reveal_strlit("/package.json");
    let name = manifest_path().skip(1);
    assert(name.len() == 12);
    assert forall|i: int| 0 <= i < name.len() implies #[trigger] name[i] == manifest_path()[i + 1] by {
    }
}

} // verus!
