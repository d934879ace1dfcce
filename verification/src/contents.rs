//! What the tarball of a package holds, file by file.

use vstd::prelude::*;
use vstd::seq_lib::to_multiset_contains;
use vstd::utf8::{encode_utf8, encode_utf8_decode_utf8};

use crate::archive::{begins_name, ends_name, gunzipped, rooted, tar_entries};
use crate::emit::gathered;
use crate::files::{EmittedView, FilesView};
use crate::graph::Module;
use crate::laws::{lemma_filter_member, lemma_filter_multiset, packed_files_are_read_back};
use crate::maps::{has_key, put_changes_one_key};
use crate::tarball::{finished_with, missing, packed, with_all, with_missing, DraftView, NpmTarball};

verus! {

/// Whether a tarball, unpacked, holds `content` under `package` and the path, with everything
/// permitted, and changed at `mtime`.
pub open spec fn unpacks(
    tarball: NpmTarball,
    path: Seq<char>,
    content: Seq<u8>,
    mtime: u64,
) -> bool {
    match gunzipped(tarball.tarball@) {
        Some(bytes) => exists|i: int|
            {
                &&& 0 <= i < tar_entries(bytes).len()
                &&& (#[trigger] tar_entries(bytes)[i]).path == encode_utf8("package"@ + path)
                &&& tar_entries(bytes)[i].content == content
                &&& tar_entries(bytes)[i].mode == Some(0o777u32)
                &&& tar_entries(bytes)[i].mtime == Some(mtime)
            },
        None => false,
    }
}

/// Whether a path is made of names, each behind one slash and none of them a dot or two, without
/// zero characters and backslashes.
pub open spec fn ordinary(path: Seq<char>) -> bool {
    &&& path.len() > 1
    &&& path[0] == '/'
    &&& path[path.len() - 1] != '/'
    &&& forall|i: int| 0 <= i < path.len() ==> #[trigger] path[i] != '\0' && path[i] != '\\'
    &&& forall|i: int|
        0 <= i < path.len() && #[trigger] path[i] == '/' ==> {
            &&& path[i + 1] != '/'
            &&& path[i + 1] == '.' ==> {
                &&& i + 2 < path.len()
                &&& path[i + 2] != '/'
                &&& path[i + 2] == '.' ==> i + 3 < path.len() && path[i + 3] != '/'
            }
        }
}

/// Paths that are made of names are read back as they are.
pub proof fn ordinary_paths_are_rooted(path: Seq<char>)
    ensures
        ordinary(path) == rooted(path),
{
    let rest = path.skip(1);
    if ordinary(path) {
        assert forall|i: int| 0 <= i < rest.len() implies #[trigger] rest[i] != '\0' && rest[i]
            != '\\' by {
            assert(rest[i] == path[i + 1]);
        }
        assert forall|i: int| 0 < i < rest.len() && rest[i - 1] == '/' implies #[trigger] rest[i]
            != '/' by {
            assert(path[i] == '/');
        }
        assert(path[0] == '/');
        assert forall|i: int|
            0 <= i < rest.len() && #[trigger] rest[i] == '.' && begins_name(
                rest,
                i,
            ) implies !ends_name(rest, i + 1) && !(rest[i + 1] == '.' && ends_name(
            rest,
            i + 2,
        )) by {
            assert(path[i] == '/');
        }
        assert(rest.last() == path[path.len() - 1]);
    }
    if rooted(path) {
        assert(path[path.len() - 1] == rest.last());
        assert forall|i: int| 0 <= i < path.len() implies #[trigger] path[i] != '\0' && path[i]
            != '\\' by {
            if i > 0 {
                assert(path[i] == rest[i - 1]);
            }
        }
        assert forall|i: int| 0 <= i < path.len() && #[trigger] path[i] == '/' implies {
            &&& path[i + 1] != '/'
            &&& path[i + 1] == '.' ==> {
                &&& i + 2 < path.len()
                &&& path[i + 2] != '/'
                &&& path[i + 2] == '.' ==> i + 3 < path.len() && path[i + 3] != '/'
            }
        } by {
            assert(i + 1 < path.len());
            assert(path[i + 1] == rest[i]);
            if i > 0 {
                assert(path[i] == rest[i - 1]);
            }
            assert(begins_name(rest, i));
            if path[i + 1] == '.' {
                assert(!ends_name(rest, i + 1));
            }
        }
    }
}

/// A text is known by its bytes.
pub(crate) proof fn lemma_bytes_decide(a: Seq<char>, b: Seq<char>)
    requires
        encode_utf8(a) == encode_utf8(b),
    ensures
        a == b,
{
    encode_utf8_decode_utf8(a);
    encode_utf8_decode_utf8(b);
}

/// Every file that is packed, under a path that is made of names, is there when the tarball is
/// unpacked.
pub proof fn packed_files_unpack(
    files: Seq<(Seq<char>, Seq<u8>)>,
    bin: Seq<(Seq<char>, Seq<char>)>,
    mtime: u64,
    tarball: NpmTarball,
    path: Seq<char>,
    content: Seq<u8>,
)
    requires
        packed(files, bin, mtime, tarball),
        files.contains((path, content)),
        ordinary(path),
    ensures
        unpacks(tarball, path, content, mtime),
        tarball.bin@ == bin,
{
    ordinary_paths_are_rooted(path);
    packed_files_are_read_back(files, bin, mtime, tarball, (path, content));
}

/// The file that stands under a path after the modules are packed is that of the last module that
/// made one: its declarations, or else its code.
pub proof fn last_module_decides(
    modules: Seq<Module>,
    emissions: Seq<EmittedView>,
    i: int,
    path: Seq<char>,
    content: Seq<u8>,
)
    requires
        modules.len() == emissions.len(),
        0 <= i < modules.len(),
        emissions[i].dts == Some((path, content)) || {
            &&& emissions[i].code == Some((path, content))
            &&& emissions[i].dts matches Some(other) ==> other.0 != path
        },
        forall|j: int|
            i < j < modules.len() ==> {
                &&& (#[trigger] emissions[j]).code matches Some(other) ==> other.0 != path
                &&& emissions[j].dts matches Some(other) ==> other.0 != path
            },
    ensures
        gathered(modules, emissions).files.contains((path, content)),
    decreases modules.len(),
{
    let before = gathered(modules.drop_last(), emissions.drop_last());
    let last = emissions.last();
    let coded = match last.code {
        Some(f) => before.with_file(f.0, f.1),
        None => before,
    };
    if i < modules.len() - 1 {
        assert forall|j: int| i < j < modules.drop_last().len() implies {
            &&& (#[trigger] emissions.drop_last()[j]).code matches Some(other) ==> other.0 != path
            &&& emissions.drop_last()[j].dts matches Some(other) ==> other.0 != path
        } by {
            assert(emissions.drop_last()[j] == emissions[j]);
        }
        last_module_decides(modules.drop_last(), emissions.drop_last(), i, path, content);
        assert(last == emissions[modules.len() - 1]);
    }
    if let Some(f) = last.code {
        put_changes_one_key(before.files, f.0, f.1);
    }
    if let Some(f) = last.dts {
        put_changes_one_key(coded.files, f.0, f.1);
    }
}

/// Every file that stands there after the modules are packed was made by one of them.
pub proof fn packed_modules_make_files(
    modules: Seq<Module>,
    emissions: Seq<EmittedView>,
    file: (Seq<char>, Seq<u8>),
) -> (i: int)
    requires
        modules.len() == emissions.len(),
        gathered(modules, emissions).files.contains(file),
    ensures
        0 <= i < modules.len(),
        emissions[i].code == Some(file) || emissions[i].dts == Some(file),
    decreases modules.len(),
{
    if modules.len() == 0 {
        assert(gathered(modules, emissions).files =~= seq![]);
        0
    } else {
        let before = gathered(modules.drop_last(), emissions.drop_last());
        let last = emissions.last();
        let coded = match last.code {
            Some(f) => before.with_file(f.0, f.1),
            None => before,
        };
        if let Some(f) = last.code {
            put_changes_one_key(before.files, f.0, f.1);
        }
        if let Some(f) = last.dts {
            put_changes_one_key(coded.files, f.0, f.1);
        }
        if last.code == Some(file) || last.dts == Some(file) {
            modules.len() - 1
        } else {
            assert(before.files.contains(file)) by {
                assert(coded.files.contains(file)) by {
                    if let Some(f) = last.dts {
                        if f.0 == file.0 {
                            assert(f == file);
                        }
                    }
                }
                if let Some(f) = last.code {
                    if f.0 == file.0 {
                        assert(f == file);
                    }
                }
            }
            let i = packed_modules_make_files(modules.drop_last(), emissions.drop_last(), file);
            assert(emissions.drop_last()[i] == emissions[i]);
            i
        }
    }
}

/// Under every path that a module made a file for, there is a file after the modules are packed.
pub proof fn made_paths_are_taken(
    modules: Seq<Module>,
    emissions: Seq<EmittedView>,
    i: int,
    file: (Seq<char>, Seq<u8>),
) -> (content: Seq<u8>)
    requires
        modules.len() == emissions.len(),
        0 <= i < modules.len(),
        emissions[i].code == Some(file) || emissions[i].dts == Some(file),
    ensures
        gathered(modules, emissions).files.contains((file.0, content)),
    decreases modules.len(),
{
    let before = gathered(modules.drop_last(), emissions.drop_last());
    let last = emissions.last();
    let coded = match last.code {
        Some(f) => before.with_file(f.0, f.1),
        None => before,
    };
    if let Some(f) = last.code {
        put_changes_one_key(before.files, f.0, f.1);
    }
    if let Some(f) = last.dts {
        put_changes_one_key(coded.files, f.0, f.1);
    }
    let earlier = if i < modules.len() - 1 {
        assert(emissions.drop_last()[i] == emissions[i]);
        made_paths_are_taken(modules.drop_last(), emissions.drop_last(), i, file)
    } else {
        seq![]
    };
    if last.dts is Some && (last.dts->0).0 == file.0 {
        (last.dts->0).1
    } else if last.code is Some && (last.code->0).0 == file.0 {
        (last.code->0).1
    } else {
        earlier
    }
}

/// The paths that are marked are those of the modules that were transpiled.
pub proof fn transpiled_modules_are_marked(
    modules: Seq<Module>,
    emissions: Seq<EmittedView>,
    path: Seq<char>,
)
    requires
        modules.len() == emissions.len(),
    ensures
        gathered(modules, emissions).transpiled.contains(path) <==> exists|i: int|
            0 <= i < modules.len() && (#[trigger] modules[i]).path@ == path
                && emissions[i].transpiled,
    decreases modules.len(),
{
    if modules.len() > 0 {
        let (ms, es) = (modules.drop_last(), emissions.drop_last());
        transpiled_modules_are_marked(ms, es, path);
        if exists|i: int| 0 <= i < ms.len() && (#[trigger] ms[i]).path@ == path && es[i].transpiled {
            let i = choose|i: int|
                0 <= i < ms.len() && (#[trigger] ms[i]).path@ == path && es[i].transpiled;
            assert(modules[i].path@ == path && emissions[i].transpiled);
        }
        if exists|i: int|
            0 <= i < modules.len() && (#[trigger] modules[i]).path@ == path
                && emissions[i].transpiled {
            let i = choose|i: int|
                0 <= i < modules.len() && (#[trigger] modules[i]).path@ == path
                    && emissions[i].transpiled;
            if i < ms.len() {
                assert(ms[i].path@ == path && es[i].transpiled);
            }
        }
    }
}

/// What stands there after the files of the package source are put in stood there before, or is one
/// of them that had a place: nothing under its path, and no source that was transpiled.
pub proof fn only_source_files_come_in(
    files: FilesView,
    list: Seq<(Seq<char>, Seq<u8>)>,
    file: (Seq<char>, Seq<u8>),
)
    requires
        with_missing(files, list).files.contains(file),
    ensures
        files.files.contains(file) || {
            &&& list.contains(file)
            &&& forall|content: Seq<u8>| !#[trigger] files.files.contains((file.0, content))
            &&& !files.transpiled.contains(file.0)
        },
    decreases list.len(),
{
    if list.len() > 0 {
        let rest = list.drop_last();
        let last = list.last();
        let before = with_missing(files, rest);
        lemma_same_marks(files, rest);
        put_changes_one_key(before.files, last.0, last.1);
        if before.files.contains(file) {
            only_source_files_come_in(files, rest, file);
            if rest.contains(file) {
                let i = choose|i: int| 0 <= i < rest.len() && rest[i] == file;
                assert(list[i] == file);
            }
        } else {
            assert(file.0 == last.0 && file.1 == last.1);
            assert(list[list.len() - 1] == file);
            assert forall|content: Seq<u8>| !#[trigger] files.files.contains((file.0, content)) by {
                if files.files.contains((file.0, content)) {
                    lemma_stays(files, rest, (file.0, content));
                    lemma_taken(before.files, (file.0, content));
                }
            }
        }
    }
}

/// What has a file under its path has its path as a key.
proof fn lemma_taken(files: Seq<(Seq<char>, Seq<u8>)>, file: (Seq<char>, Seq<u8>))
    requires
        files.contains(file),
    ensures
        has_key(files, file.0),
{
    let i = choose|i: int| 0 <= i < files.len() && files[i] == file;
    assert(files[i].0 == file.0);
}

/// The files of the package source mark nothing.
proof fn lemma_same_marks(files: FilesView, list: Seq<(Seq<char>, Seq<u8>)>)
    ensures
        with_missing(files, list).transpiled == files.transpiled,
    decreases list.len(),
{
    if list.len() > 0 {
        lemma_same_marks(files, list.drop_last());
    }
}

/// What was there stays.
pub(crate) proof fn lemma_stays(
    files: FilesView,
    list: Seq<(Seq<char>, Seq<u8>)>,
    file: (Seq<char>, Seq<u8>),
)
    requires
        files.files.contains(file),
    ensures
        with_missing(files, list).files.contains(file),
    decreases list.len(),
{
    if list.len() > 0 {
        let before = with_missing(files, list.drop_last());
        lemma_stays(files, list.drop_last(), file);
        lemma_taken(before.files, file);
        put_changes_one_key(before.files, list.last().0, list.last().1);
    }
}

/// A file of the package source comes in where nothing stands under its path, it is not a source
/// that was transpiled, and none is listed before it under its path.
pub proof fn source_files_come_in(files: FilesView, list: Seq<(Seq<char>, Seq<u8>)>, i: int)
    requires
        0 <= i < list.len(),
        forall|j: int| 0 <= j < i ==> (#[trigger] list[j]).0 != list[i].0,
        forall|content: Seq<u8>| !#[trigger] files.files.contains((list[i].0, content)),
        !files.transpiled.contains(list[i].0),
    ensures
        with_missing(files, list).files.contains(list[i]),
    decreases list.len(),
{
    let rest = list.drop_last();
    let before = with_missing(files, rest);
    put_changes_one_key(before.files, list.last().0, list.last().1);
    if i < list.len() - 1 {
        assert(rest[i] == list[i]);
        assert forall|j: int| 0 <= j < i implies (#[trigger] rest[j]).0 != rest[i].0 by {
            assert(rest[j] == list[j]);
        }
        source_files_come_in(files, rest, i);
        lemma_taken(before.files, list[i]);
    } else {
        lemma_same_marks(files, rest);
        assert(!has_key(before.files, list[i].0)) by {
            if has_key(before.files, list[i].0) {
                let k = choose|k: int|
                    0 <= k < before.files.len() && (#[trigger] before.files[k]).0 == list[i].0;
                let file = before.files[k];
                assert(before.files.contains(file));
                only_source_files_come_in(files, rest, file);
                assert(file == (list[i].0, file.1));
                let j = choose|j: int| 0 <= j < rest.len() && rest[j] == file;
                assert(list[j].0 == list[i].0);
            }
        }
    }
}

/// Every file of the package source is in the tarball whose path neither a file of the draft has nor
/// a source that was transpiled.
pub proof fn source_files_are_packed(
    draft: DraftView,
    list: Seq<(Seq<char>, Seq<u8>)>,
    mtime: u64,
    tarball: NpmTarball,
    i: int,
)
    requires
        finished_with(draft, list, mtime, tarball),
        0 <= i < list.len(),
        forall|j: int| 0 <= j < i ==> (#[trigger] list[j]).0 != list[i].0,
        forall|content: Seq<u8>| !#[trigger] draft.files.files.contains((list[i].0, content)),
        !draft.files.transpiled.contains(list[i].0),
        ordinary(list[i].0),
    ensures
        unpacks(tarball, list[i].0, list[i].1, mtime),
{
    source_files_come_in(draft.files, list, i);
    packed_files_unpack(
        with_missing(draft.files, list).files,
        draft.bin,
        mtime,
        tarball,
        list[i].0,
        list[i].1,
    );
}

/// A path is to be fetched if and only if it is listed, and neither a file that is there has it nor a
/// source that was transpiled.
pub proof fn missing_paths_are_fetched(files: FilesView, paths: Seq<Seq<char>>, path: Seq<char>)
    ensures
        missing(files, paths).contains(path) <==> {
            &&& paths.contains(path)
            &&& forall|content: Seq<u8>| !#[trigger] files.files.contains((path, content))
            &&& !files.transpiled.contains(path)
        },
{
    broadcast use vstd::multiset::group_multiset_axioms;

    let keep = |p: Seq<char>| files.lacks(p);
    lemma_filter_multiset(paths, keep);
    to_multiset_contains(paths, path);
    to_multiset_contains(missing(files, paths), path);
    if has_key(files.files, path) {
        let i = choose|i: int| 0 <= i < files.files.len() && (#[trigger] files.files[i]).0 == path;
        assert(files.files.contains((path, files.files[i].1)));
    } else {
        assert forall|content: Seq<u8>| !#[trigger] files.files.contains((path, content)) by {
            if files.files.contains((path, content)) {
                lemma_taken(files.files, (path, content));
            }
        }
    }
    if missing(files, paths).contains(path) {
        lemma_filter_member(paths, keep, path);
    }
}

/// The last file that arrives under a path is the one that stands there.
pub proof fn last_arrival_decides(files: FilesView, list: Seq<(Seq<char>, Seq<u8>)>, i: int)
    requires
        0 <= i < list.len(),
        forall|j: int| i < j < list.len() ==> (#[trigger] list[j]).0 != list[i].0,
    ensures
        with_all(files, list).files.contains(list[i]),
    decreases list.len(),
{
    let rest = list.drop_last();
    put_changes_one_key(with_all(files, rest).files, list.last().0, list.last().1);
    if i < list.len() - 1 {
        assert(rest[i] == list[i]);
        assert forall|j: int| i < j < rest.len() implies (#[trigger] rest[j]).0 != rest[i].0 by {
            assert(rest[j] == list[j]);
        }
        last_arrival_decides(files, rest, i);
        assert(list[list.len() - 1].0 != list[i].0);
    }
}

/// What stands there after files arrived arrived or stood there before.
pub proof fn only_arrivals_come_in(
    files: FilesView,
    list: Seq<(Seq<char>, Seq<u8>)>,
    file: (Seq<char>, Seq<u8>),
)
    requires
        with_all(files, list).files.contains(file),
    ensures
        files.files.contains(file) || list.contains(file),
    decreases list.len(),
{
    if list.len() > 0 {
        let rest = list.drop_last();
        put_changes_one_key(with_all(files, rest).files, list.last().0, list.last().1);
        if file == list.last() {
            assert(list[list.len() - 1] == file);
        } else {
            assert(with_all(files, rest).files.contains(file));
            only_arrivals_come_in(files, rest, file);
            if rest.contains(file) {
                let i = choose|i: int| 0 <= i < rest.len() && rest[i] == file;
                assert(list[i] == file);
            }
        }
    }
}

} // verus!
