//! The archive of a package: a gzipped tar file.
//!
//! A tar file is a run of blocks. Each file has a header block and its content, filled up with
//! zeros to whole blocks; two blocks of zeros end the archive.

use std::io::Write;

use indexmap::IndexMap;
use vstd::prelude::*;
use vstd::utf8::{encode_utf8, is_ascii_chars_encode_utf8};

use crate::error::{ErrorView, NpmTarballError};
use crate::maps::{file_entries, file_pairs, file_pairs_view};
use crate::text::lemma_encode_concat;

verus! {

/// The size of a block of a tar file.
pub const BLOCK: usize = 512;

/// The permissions of every packed file.
pub const FILE_MODE: u32 = 0o777;

/// `std::io::Error`.
#[verifier::external_type_specification]
#[verifier::external_body]
pub struct ExIoError(std::io::Error);

/// The header block that `tar::Header` makes, in ustar format, for a file with the given path, size,
/// permissions and time of modification, if the path can be stored.
pub uninterp spec fn ustar_header(path: Seq<char>, size: u64, mode: u32, mtime: u64) -> Option<
    Seq<u8>,
>;

/// The path that `tar::Header::path_bytes` reads from a header block.
pub uninterp spec fn header_path(block: Seq<u8>) -> Seq<u8>;

/// The path that `tar::Header::path_bytes` reads from a header in ustar format whose path was set by
/// `tar::Header::set_path`, if that takes the path.
pub uninterp spec fn stored_path(path: Seq<char>) -> Option<Seq<u8>>;

/// The size that `tar::Header::entry_size` reads from a header block.
pub uninterp spec fn header_size(block: Seq<u8>) -> Option<u64>;

/// The permissions that `tar::Header::mode` reads from a header block.
pub uninterp spec fn header_mode(block: Seq<u8>) -> Option<u32>;

/// The time that `tar::Header::mtime` reads from a header block.
pub uninterp spec fn header_mtime(block: Seq<u8>) -> Option<u64>;

/// Whether a path is a plain relative one: names between single slashes, none of them a dot or
/// two, and neither a zero character nor a backslash, which not every system takes for a character
/// of a name.
pub open spec fn plain(path: Seq<char>) -> bool {
    &&& path.len() > 0
    &&& path[0] != '/'
    &&& path.last() != '/'
    &&& forall|i: int| 0 <= i < path.len() ==> #[trigger] path[i] != '\0' && path[i] != '\\'
    &&& forall|i: int| 0 < i < path.len() && path[i - 1] == '/' ==> #[trigger] path[i] != '/'
    &&& forall|i: int|
        0 <= i < path.len() && #[trigger] path[i] == '.' && begins_name(path, i) ==> !ends_name(
            path,
            i + 1,
        ) && !(path[i + 1] == '.' && ends_name(path, i + 2))
}

/// Whether a name of a path begins at `i`.
pub open spec fn begins_name(path: Seq<char>, i: int) -> bool {
    i == 0 || path[i - 1] == '/'
}

/// Whether a name of a path ends before `i`.
pub open spec fn ends_name(path: Seq<char>, i: int) -> bool {
    i == path.len() || path[i] == '/'
}

/// Whether a header has room for a path: all of it in the field for the name, or what follows one
/// of its slashes there and what precedes it in the field for the prefix.
pub open spec fn storable(path: Seq<u8>) -> bool {
    ||| path.len() <= 100
    ||| exists|slash: int|
        0 < slash <= 155 && slash < path.len() && #[trigger] path[slash] == 0x2f && path.len()
            - slash - 1 <= 100
}

/// Whether a path has a directory that the field for the prefix has room for, or needs none.
pub open spec fn splittable(path: Seq<u8>) -> bool {
    ||| path.len() <= 100
    ||| exists|slash: int|
        2 <= slash <= 155 && slash < path.len() && #[trigger] path[slash] == 0x2f
}

/// `tar::Header::new_ustar`, `set_path`, `set_size`, `set_mode`, `set_mtime` and `set_cksum`: the
/// header block of a file. A header reads back as it was set; a leading `./` of the path is not
/// stored. Whether a header can be made, and what its path reads back as, depends on the path alone.
/// Which other paths are refused is left to the crate.
#[verifier::external_body]
fn write_header(path: &str, size: u64, mode: u32, mtime: u64) -> (r: Result<
    Vec<u8>,
    std::io::Error,
>)
    ensures
        match r {
            Ok(block) => ustar_header(path@, size, mode, mtime) == Some(block@),
            Err(_) => ustar_header(path@, size, mode, mtime) is None,
        },
        match r {
            Ok(block) => stored_path(path@) == Some(header_path(block@)),
            Err(_) => stored_path(path@) is None,
        },
        match r {
            Ok(block) => {
                &&& block@.len() == BLOCK
                &&& block@[257] != 0
                &&& header_size(block@) == Some(size)
                &&& mode <= 0o7777777 ==> header_mode(block@) == Some(mode)
                &&& header_mtime(block@) == Some(mtime)
            },
            Err(_) => true,
        },
        path@.len() > 2 && path@[0] == '.' && path@[1] == '/' && plain(path@.skip(2)) && splittable(
            encode_utf8(path@),
        ) ==> match r {
            Ok(block) => storable(encode_utf8(path@)) && header_path(block@) == encode_utf8(
                path@.skip(2),
            ),
            Err(_) => !storable(encode_utf8(path@)),
        },
{
    let mut header = tar::Header::new_ustar();
    header.set_path(path)?;
    header.set_size(size);
    header.set_mode(mode);
    header.set_mtime(mtime);
    header.set_cksum();
    Ok(header.as_bytes().to_vec())
}

/// A tar file in the making.
#[verifier::external_body]
pub struct TarArchive {
    builder: tar::Builder<Vec<u8>>,
}

/// The bytes of a tar file so far.
pub uninterp spec fn archived(archive: TarArchive) -> Seq<u8>;

/// `n` zeros.
pub open spec fn zeros(n: int) -> Seq<u8> {
    Seq::new(n as nat, |i: int| 0u8)
}

/// How many zeros fill `n` bytes up to whole blocks.
pub open spec fn padding(n: int) -> int {
    (BLOCK - n % BLOCK as int) % BLOCK as int
}

/// `tar::Builder::new` on an empty vector: nothing is written yet.
#[verifier::external_body]
fn new_archive() -> (r: TarArchive)
    ensures
        archived(r) == Seq::<u8>::empty(),
{
    TarArchive { builder: tar::Builder::new(Vec::new()) }
}

/// `tar::Builder::append`: writes the header block and the data, filled up to whole blocks. Writing
/// to a vector does not fail.
#[verifier::external_body]
fn append_entry(archive: &mut TarArchive, header: &Vec<u8>, data: &Vec<u8>)
    requires
        header@.len() == BLOCK,
    ensures
        archived(*final(archive)) == archived(*old(archive)) + header@ + data@ + zeros(
            padding(data@.len() as int),
        ),
{
    archive.builder.append(tar::Header::from_byte_slice(header), data.as_slice()).unwrap();
}

/// `tar::Builder::into_inner`: ends the archive with two blocks of zeros and hands it out. Writing
/// to a vector does not fail.
#[verifier::external_body]
fn finish_archive(archive: TarArchive) -> (r: Vec<u8>)
    ensures
        r@ == archived(archive) + zeros(2 * BLOCK),
{
    archive.builder.into_inner().unwrap()
}

/// What `flate2::write::GzEncoder` makes of some bytes at the default level.
pub uninterp spec fn gzipped(data: Seq<u8>) -> Seq<u8>;

/// What `flate2::read::GzDecoder` reads from some bytes, if they are a gzip stream.
pub uninterp spec fn gunzipped(data: Seq<u8>) -> Option<Seq<u8>>;

/// `flate2::write::GzEncoder::new`, `write_all` and `finish`: the compressed bytes, which
/// decompress to the bytes themselves. Writing to a vector does not fail.
#[verifier::external_body]
pub(crate) fn gzip(data: &Vec<u8>) -> (r: Vec<u8>)
    ensures
        r@ == gzipped(data@),
        gunzipped(r@) == Some(data@),
{
    let mut encoder = flate2::write::GzEncoder::new(Vec::new(), flate2::Compression::default());
    encoder.write_all(data).unwrap();
    encoder.finish().unwrap()
}

/// Where a file of the package stands in the archive.
pub open spec fn entry_path(path: Seq<char>) -> Seq<char> {
    "./package"@ + path
}

/// The header block of a file of the package, if its path can be stored.
pub open spec fn entry_header(file: (Seq<char>, Seq<u8>), mtime: u64) -> Option<Seq<u8>> {
    ustar_header(entry_path(file.0), file.1.len() as u64, FILE_MODE, mtime)
}

/// A file of the package in the archive.
pub open spec fn entry_blocks(file: (Seq<char>, Seq<u8>), mtime: u64) -> Seq<u8> {
    entry_header(file, mtime)->0 + file.1 + zeros(padding(file.1.len() as int))
}

/// The files of the package in the archive, one after the other.
pub open spec fn all_blocks(files: Seq<(Seq<char>, Seq<u8>)>, mtime: u64) -> Seq<u8>
    decreases files.len(),
{
    if files.len() == 0 {
        seq![]
    } else {
        all_blocks(files.drop_last(), mtime) + entry_blocks(files.last(), mtime)
    }
}

/// The tar file that holds the files of the package.
pub open spec fn tar_file(files: Seq<(Seq<char>, Seq<u8>)>, mtime: u64) -> Seq<u8> {
    all_blocks(files, mtime) + zeros(2 * BLOCK)
}

/// Whether the paths of all files can be stored.
pub open spec fn all_stored(files: Seq<(Seq<char>, Seq<u8>)>, mtime: u64) -> bool {
    forall|i: int| 0 <= i < files.len() ==> entry_header(#[trigger] files[i], mtime) is Some
}

/// Whether `failed` is the first file whose path cannot be stored.
pub open spec fn first_unstored(
    files: Seq<(Seq<char>, Seq<u8>)>,
    mtime: u64,
    failed: int,
) -> bool {
    &&& 0 <= failed < files.len()
    &&& entry_header(files[failed], mtime) is None
    &&& all_stored(files.take(failed), mtime)
}

/// Whether the header has room for every path that is rooted.
pub open spec fn all_storable(files: Seq<(Seq<char>, Seq<u8>)>) -> bool {
    forall|i: int|
        0 <= i < files.len() && rooted((#[trigger] files[i]).0) ==> storable(
            encode_utf8(entry_path(files[i].0)),
        )
}

/// Whether a path is refused. If it is rooted, the header has no room for it.
pub open spec fn unstorable(path: Seq<char>) -> bool {
    &&& stored_path(entry_path(path)) is None
    &&& rooted(path) ==> !storable(encode_utf8(entry_path(path)))
}

/// The error for a file whose path cannot be stored.
pub open spec fn unstored_error(path: Seq<char>) -> ErrorView {
    ErrorView::InvalidPath { path, len: encode_utf8(path).len() as int }
}

/// Whether a path begins with a slash and is plain after it, as the paths in a package do.
pub open spec fn rooted(path: Seq<char>) -> bool {
    path.len() > 1 && path[0] == '/' && plain(path.skip(1))
}

/// Whether the header block of a file reads back as the file, and whether its path can be stored
/// is what its length says.
pub open spec fn header_reads(file: (Seq<char>, Seq<u8>), mtime: u64) -> bool {
    match entry_header(file, mtime) {
        Some(block) => {
            &&& block.len() == BLOCK
            &&& block[257] != 0
            &&& header_size(block) matches Some(size) && size == file.1.len()
            &&& header_mode(block) == Some(FILE_MODE)
            &&& header_mtime(block) == Some(mtime)
            &&& stored_path(entry_path(file.0)) == Some(header_path(block))
            &&& rooted(file.0) ==> header_path(block) == encode_utf8("package"@ + file.0)
                && storable(encode_utf8(entry_path(file.0)))
        },
        None => rooted(file.0) ==> !storable(encode_utf8(entry_path(file.0))),
    }
}

/// A file as it is read from a tar file.
pub struct ArchiveEntry {
    pub path: Seq<u8>,
    pub mode: Option<u32>,
    pub mtime: Option<u64>,
    pub content: Seq<u8>,
}

/// The files that are read from a tar file: header by header, up to a block of zeros.
pub open spec fn tar_entries(bytes: Seq<u8>) -> Seq<ArchiveEntry>
    decreases bytes.len(),
{
    let block = bytes.take(BLOCK as int);
    if bytes.len() < BLOCK || block == zeros(BLOCK as int) {
        seq![]
    } else {
        match header_size(block) {
            Some(size) => {
                let next = BLOCK + size + padding(size as int);
                if next <= bytes.len() {
                    seq![
                        ArchiveEntry {
                            path: header_path(block),
                            mode: header_mode(block),
                            mtime: header_mtime(block),
                            content: bytes.subrange(BLOCK as int, BLOCK + size),
                        },
                    ] + tar_entries(bytes.skip(next))
                } else {
                    seq![]
                }
            },
            None => seq![],
        }
    }
}

/// Whether what is read is a file of the package: under `package`, with everything permitted. The
/// path is what `stored_path` says, which for rooted paths is spelled out.
pub open spec fn reads_as(entry: ArchiveEntry, file: (Seq<char>, Seq<u8>), mtime: u64) -> bool {
    &&& entry.content == file.1
    &&& entry.mode == Some(FILE_MODE)
    &&& entry.mtime == Some(mtime)
    &&& stored_path(entry_path(file.0)) == Some(entry.path)
    &&& rooted(file.0) ==> entry.path == encode_utf8("package"@ + file.0)
}

/// Whether the files that are read from a tar file are the files of the package, in order.
pub open spec fn reads_back(
    bytes: Seq<u8>,
    files: Seq<(Seq<char>, Seq<u8>)>,
    mtime: u64,
) -> bool {
    &&& tar_entries(bytes).len() == files.len()
    &&& forall|i: int|
        0 <= i < files.len() ==> reads_as(tar_entries(bytes)[i], #[trigger] files[i], mtime)
}

/// The tar file that holds the files of the package, in order. Fails with the first file whose
/// path cannot be stored.
pub fn tar_files(files: &IndexMap<String, Vec<u8>>, mtime: u64) -> (r: Result<
    Vec<u8>,
    NpmTarballError,
>)
    ensures
        match r {
            Ok(bytes) => {
                &&& all_stored(file_entries(*files), mtime)
                &&& bytes@ == tar_file(file_entries(*files), mtime)
                &&& reads_back(bytes@, file_entries(*files), mtime)
                &&& all_storable(file_entries(*files))
            },
            Err(e) => exists|failed: int|
                {
                    &&& #[trigger] first_unstored(file_entries(*files), mtime, failed)
                    &&& unstorable(file_entries(*files)[failed].0)
                    &&& e@ == unstored_error(file_entries(*files)[failed].0)
                },
        },
{
    let pairs = file_pairs(files);
    let ghost entries = file_entries(*files);
    let mut archive = new_archive();
    let mut i: usize = 0;
    while i < pairs.len()
        invariant
            i <= pairs@.len() == entries.len(),
            entries == file_entries(*files),
            file_pairs_view(pairs@) == entries,
            all_stored(entries.take(i as int), mtime),
            forall|j: int| 0 <= j < i ==> header_reads(#[trigger] entries[j], mtime),
            archived(archive) == all_blocks(entries.take(i as int), mtime),
        decreases pairs@.len() - i,
    {
        let (path, content) = pairs[i];
        assert(entries[i as int] == (path@, content@)) by {
            assert(file_pairs_view(pairs@)[i as int] == (path@, content@));
        }
        let mut name = "./package".to_owned();
        name.append(path.as_str());
        proof {
            if rooted(path@) {
                lemma_rooted_entry(path@);
            }
        }
        let header = match write_header(name.as_str(), content.len() as u64, FILE_MODE, mtime) {
            Ok(header) => header,
            Err(_) => {
                assert(first_unstored(entries, mtime, i as int));
                assert(unstorable(entries[i as int].0));
                return Err(
                    NpmTarballError::InvalidPath { path: path.clone(), len: path.as_str().as_bytes().len() },
                );
            },
        };
        append_entry(&mut archive, &header, content);
        proof {
            assert(entries.take(i + 1).drop_last() =~= entries.take(i as int));
            assert(archived(archive) =~= all_blocks(entries.take(i + 1), mtime));
            assert forall|j: int| 0 <= j < i + 1 implies entry_header(
                #[trigger] entries.take(i + 1)[j],
                mtime,
            ) is Some by {
                if j < i {
                    assert(entries.take(i as int)[j] == entries[j]);
                }
            }
        }
        i = i + 1;
    }
    assert(entries.take(i as int) =~= entries);
    proof {
        lemma_reads_back(entries, mtime);
        assert forall|j: int| 0 <= j < entries.len() && rooted(
            (#[trigger] entries[j]).0,
        ) implies storable(encode_utf8(entry_path(entries[j].0))) by {
            assert(header_reads(entries[j], mtime));
            assert(entry_header(entries[j], mtime) is Some);
        }
    }
    Ok(finish_archive(archive))
}

/// Where a rooted path stands in the archive is plain, and has a directory that fits.
proof fn lemma_rooted_entry(path: Seq<char>)
    requires
        rooted(path),
    ensures
        ({
            let entry = entry_path(path);
            &&& entry.len() > 2
            &&& entry[0] == '.'
            &&& entry[1] == '/'
            &&& entry.skip(2) == "package"@ + path
            &&& plain(entry.skip(2))
            &&& splittable(encode_utf8(entry))
        }),
{
    reveal_strlit("./package");
    reveal_strlit("package");
    let entry = entry_path(path);
    let inner = "package"@ + path;
    let rest = path.skip(1);
    assert(entry.skip(2) =~= inner);
    assert forall|i: int| 0 <= i < inner.len() implies #[trigger] inner[i] != '\0' && inner[i]
        != '\\' by {
        if i >= 8 {
            assert(inner[i] == rest[i - 8]);
        }
    }
    assert forall|i: int| 0 < i < inner.len() && inner[i - 1] == '/' implies #[trigger] inner[i]
        != '/' by {
        if i >= 8 {
            assert(inner[i] == rest[i - 8]);
            if i > 8 {
                assert(inner[i - 1] == rest[i - 9]);
            }
        }
    }
    assert forall|i: int|
        0 <= i < inner.len() && #[trigger] inner[i] == '.' && begins_name(
            inner,
            i,
        ) implies !ends_name(inner, i + 1) && !(inner[i + 1] == '.' && ends_name(
        inner,
        i + 2,
    )) by {
        assert(i >= 8);
        assert(inner[i] == rest[i - 8]);
        assert(begins_name(rest, i - 8));
        assert(!ends_name(rest, i - 7));
        assert(inner[i + 1] == rest[i - 7]);
    }
    assert(inner.last() == rest.last());
    assert(plain(inner));
    let head = entry.take(10);
    let tail = entry.skip(10);
    assert(entry =~= head + tail);
    lemma_encode_concat(head, tail);
    assert(head[9] == '/');
    is_ascii_chars_encode_utf8(head);
    assert(encode_utf8(entry)[9] == 0x2f);
}

/// The blocks of several files begin with those of the first.
proof fn lemma_first_blocks(files: Seq<(Seq<char>, Seq<u8>)>, mtime: u64)
    requires
        files.len() > 0,
    ensures
        all_blocks(files, mtime) == entry_blocks(files[0], mtime) + all_blocks(
            files.drop_first(),
            mtime,
        ),
    decreases files.len(),
{
    if files.len() == 1 {
        assert(files.drop_last() =~= seq![]);
        assert(files.drop_first() =~= seq![]);
        assert(all_blocks(files, mtime) =~= entry_blocks(files[0], mtime) + all_blocks(
            files.drop_first(),
            mtime,
        ));
    } else {
        lemma_first_blocks(files.drop_last(), mtime);
        assert(files.drop_last().drop_first() =~= files.drop_first().drop_last());
        assert(all_blocks(files, mtime) =~= entry_blocks(files[0], mtime) + all_blocks(
            files.drop_first(),
            mtime,
        ));
    }
}

/// A tar file reads back as the files that it was made from.
proof fn lemma_reads_back(files: Seq<(Seq<char>, Seq<u8>)>, mtime: u64)
    requires
        all_stored(files, mtime),
        forall|i: int| 0 <= i < files.len() ==> header_reads(#[trigger] files[i], mtime),
    ensures
        reads_back(tar_file(files, mtime), files, mtime),
    decreases files.len(),
{
    let bytes = tar_file(files, mtime);
    if files.len() == 0 {
        assert(bytes =~= zeros(2 * BLOCK));
        assert(bytes.take(BLOCK as int) =~= zeros(BLOCK as int));
    } else {
        let rest = files.drop_first();
        let first = files[0];
        let block = entry_header(first, mtime)->0;
        lemma_first_blocks(files, mtime);
        assert(header_reads(first, mtime));
        assert forall|i: int| 0 <= i < rest.len() implies header_reads(
            #[trigger] rest[i],
            mtime,
        ) by {
            assert(rest[i] == files[i + 1]);
        }
        assert forall|i: int| 0 <= i < rest.len() implies entry_header(
            #[trigger] rest[i],
            mtime,
        ) is Some by {
            assert(rest[i] == files[i + 1]);
        }
        lemma_reads_back(rest, mtime);
        let next = BLOCK + first.1.len() + padding(first.1.len() as int);
        assert(bytes =~= entry_blocks(first, mtime) + tar_file(rest, mtime));
        assert(bytes.take(BLOCK as int) =~= block);
        assert(zeros(BLOCK as int)[257] == 0);
        assert(block != zeros(BLOCK as int));
        assert(bytes.subrange(BLOCK as int, BLOCK + first.1.len()) =~= first.1);
        assert(bytes.skip(next) =~= tar_file(rest, mtime));
        let entries = tar_entries(bytes);
        assert forall|i: int| 0 <= i < files.len() implies reads_as(
            entries[i],
            #[trigger] files[i],
            mtime,
        ) by {
            if i > 0 {
                assert(files[i] == rest[i - 1]);
                assert(entries[i] == tar_entries(tar_file(rest, mtime))[i - 1]);
            }
        }
    }
}

} // verus!
