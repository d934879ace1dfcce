//! The tarball: its files, their order, and what cannot be packed.

use std::io::Read;

use indexmap::IndexMap;
use npm_tarball::archive::tar_files;
use npm_tarball::convert::Extension;
use npm_tarball::dependencies::{DependencyKind, PackageReq};
use npm_tarball::digest::{sha1_hex, sha512_base64, to_hex};
use npm_tarball::emit::PackageVersion;
use npm_tarball::error::NpmTarballError;
use npm_tarball::exports::ExportsMap;
use npm_tarball::files::{Emitted, PackageFile, PackageFiles};
use npm_tarball::graph::{MediaType, Module, ModuleKind};
use npm_tarball::manifest::NpmPackageJson;
use npm_tarball::source::{
    DependencyDescriptor, ParsedSource, ParsedSourceStore, Position, PositionRange,
};
use npm_tarball::tarball::{
    add_all, add_missing, create_npm_tarball, downloaded_files, finish_npm_tarball, pack_files,
    paths_to_download, sources_at_hand, Conventions, Download, NpmTarball, NpmTarballFiles,
    NpmTarballOptions, NpmTarballStep,
};

fn file(path: &str, content: &str) -> PackageFile {
    PackageFile { path: path.to_string(), content: content.as_bytes().to_vec() }
}

fn source(specifier: &str, text: &str) -> ParsedSource {
    ParsedSource {
        specifier: specifier.to_string(),
        text: text.to_string(),
        has_shebang: false,
        leading_comments: vec![],
        dependencies: vec![],
    }
}

fn module(path: &str, media_type: MediaType, text: &str, dts: Option<&str>) -> Module {
    Module {
        specifier: format!("file://{path}"),
        scheme: "file".to_string(),
        path: path.to_string(),
        kind: ModuleKind::Js {
            media_type,
            source: text.to_string(),
            dts: dts.map(|d| d.to_string()),
        },
    }
}

fn unpack(tarball: &NpmTarball) -> Vec<(String, Vec<u8>, u32, u64)> {
    let mut raw = vec![];
    flate2::read::GzDecoder::new(&tarball.tarball[..]).read_to_end(&mut raw).unwrap();
    read_tar(&raw)
}

fn read_tar(raw: &[u8]) -> Vec<(String, Vec<u8>, u32, u64)> {
    let mut r = vec![];
    for entry in tar::Archive::new(raw).entries().unwrap() {
        let mut entry = entry.unwrap();
        let path = String::from_utf8(entry.path_bytes().to_vec()).unwrap();
        let mode = entry.header().mode().unwrap();
        let mtime = entry.header().mtime().unwrap();
        let mut content = vec![];
        entry.read_to_end(&mut content).unwrap();
        r.push((path, content, mode, mtime));
    }
    r
}

fn paths(tarball: &NpmTarball) -> Vec<String> {
    unpack(tarball).into_iter().map(|e| e.0).collect()
}

fn rewrite_specifier(specifier: &str) -> Option<String> {
    specifier.strip_suffix(".ts").map(|stem| format!("{stem}.js"))
}

fn rewrite_extension(path: &str, extension: Extension) -> Option<String> {
    let stem = path.strip_suffix(".ts")?;
    Some(match extension {
        Extension::Js => format!("{stem}.js"),
        Extension::Dts => format!("{stem}.d.ts"),
    })
}

fn transpile(source: &ParsedSource, url: &str) -> Result<String, String> {
    if source.text == "?" {
        return Err("unexpected token".to_string());
    }
    Ok(format!("// {url}\n{}", source.text))
}

fn npm_name(name: &str) -> Result<String, String> {
    match name.strip_prefix('@').and_then(|n| n.split_once('/')) {
        Some((scope, package)) => Ok(format!("@jsr/{scope}__{package}")),
        None => Err("no scope".to_string()),
    }
}

fn to_json(manifest: &NpmPackageJson) -> Result<String, String> {
    if manifest.revision == 0 {
        return Err("no revision".to_string());
    }
    Ok(format!("{}@{}", manifest.name.package, manifest.version))
}

struct Input {
    graph: Vec<Module>,
    sources: Vec<ParsedSource>,
    exports: Vec<(&'static str, &'static str)>,
    dependencies: Vec<(DependencyKind, PackageReq)>,
    registry_url: &'static str,
    revision: u32,
}

fn input() -> Input {
    Input {
        graph: vec![],
        sources: vec![],
        exports: vec![],
        dependencies: vec![],
        registry_url: "https://jsr.test",
        revision: 1,
    }
}

fn create(input: Input, files: NpmTarballFiles) -> Result<NpmTarballStep, NpmTarballError> {
    let exports = ExportsMap::new(
        input.exports.iter().map(|e| (e.0.to_string(), e.1.to_string())).collect(),
    );
    create_npm_tarball(
        &NpmTarballOptions {
            graph: &input.graph,
            sources: &ParsedSourceStore { sources: input.sources },
            package: PackageVersion {
                registry_url: input.registry_url,
                scope: "s",
                package: "p",
                version: "1.2.3",
            },
            exports: &exports,
            files,
            dependencies: &input.dependencies,
            revision: input.revision,
        },
        &Conventions { rewrite_specifier, rewrite_extension, transpile, npm_name, to_json },
        1700000000,
    )
}

fn finished(step: NpmTarballStep) -> NpmTarball {
    match step {
        NpmTarballStep::Finished(tarball) => tarball,
        NpmTarballStep::Download { .. } => panic!("nothing is to be fetched"),
    }
}

fn to_fetch(step: NpmTarballStep) -> (npm_tarball::tarball::NpmTarballDraft, Vec<String>) {
    match step {
        NpmTarballStep::Finished(_) => panic!("files are to be fetched"),
        NpmTarballStep::Download { draft, paths } => (draft, paths),
    }
}

fn map(files: &[(&str, &str)]) -> IndexMap<String, Vec<u8>> {
    files.iter().map(|(p, c)| (p.to_string(), c.as_bytes().to_vec())).collect()
}

#[test]
fn hashes_have_known_values() {
    assert_eq!(sha1_hex(&vec![]), "DA39A3EE5E6B4B0D3255BFEF95601890AFD80709");
    assert_eq!(sha1_hex(&b"abc".to_vec()), "A9993E364706816ABA3E25717850C26C9CD0D89D");
    assert_eq!(
        sha512_base64(&vec![]),
        "z4PhNX7vuL3xVChQ1m2AB9Yg5AULVxXcg/SpIdNs6c5H0NE8XYXysP+DGNKHfuwvY7kxvUdBeoGlODJ6+SfaPg=="
    );
    assert_eq!(
        sha512_base64(&b"abc".to_vec()),
        "3a81oZNherrMQXNJriBBMRLm+k6JqX6iCp7u5ktV05ohkpkqJ0/BqDa6PCOj/uu9RU1EI2Q86A4qmslPpUyknw=="
    );
    assert_eq!(to_hex(&vec![0, 9, 10, 0xff, 0xa5]), "00090AFFA5");
}

#[test]
fn tar_file_has_header_content_and_end() {
    let bytes = tar_files(&map(&[("/a.txt", "abc")]), 1700000000).unwrap();
    assert_eq!(bytes.len(), 4 * 512);
    assert_eq!(&bytes[..14], b"package/a.txt\0");
    assert_eq!(&bytes[100..108], b"0000777\0");
    assert_eq!(&bytes[124..136], b"00000000003\0");
    assert_eq!(&bytes[136..148], b"14524770400\0");
    assert_eq!(&bytes[257..263], b"ustar\0");
    assert_eq!(&bytes[512..515], b"abc");
    assert!(bytes[515..].iter().all(|b| *b == 0));
}

#[test]
fn contents_are_filled_up_to_blocks() {
    let full = "x".repeat(512);
    let more = "y".repeat(513);
    let bytes = tar_files(&map(&[("/a", ""), ("/b", &full), ("/c", &more)]), 0).unwrap();
    assert_eq!(bytes.len(), (1 + 2 + 3 + 2) * 512);
    let entries = read_tar(&bytes);
    assert_eq!(entries[0], ("package/a".to_string(), vec![], 0o777, 0));
    assert_eq!(entries[1], ("package/b".to_string(), full.into_bytes(), 0o777, 0));
    assert_eq!(entries[2], ("package/c".to_string(), more.into_bytes(), 0o777, 0));
}

#[test]
fn times_and_sizes_read_back() {
    for mtime in [0, 1, 0o77777777777, 0o100000000000, u64::MAX] {
        let bytes = tar_files(&map(&[("/a", "abc")]), mtime).unwrap();
        assert_eq!(read_tar(&bytes), vec![(
            "package/a".to_string(),
            b"abc".to_vec(),
            0o777,
            mtime
        )]);
    }
}

#[test]
fn packed_files_read_back_in_order() {
    let files = map(&[("/b.js", "b"), ("/a/z.js", "z"), ("/a.js", "a"), ("/ä.js", "ä"), ("/B", "")]);
    let tarball = pack_files(files, IndexMap::new(), 12).unwrap();
    let expected: Vec<(String, Vec<u8>, u32, u64)> = [
        ("package/B", ""),
        ("package/a.js", "a"),
        ("package/a/z.js", "z"),
        ("package/b.js", "b"),
        ("package/ä.js", "ä"),
    ]
    .iter()
    .map(|(p, c)| (p.to_string(), c.as_bytes().to_vec(), 0o777, 12))
    .collect();
    assert_eq!(unpack(&tarball), expected);
    assert_eq!(tarball.sha1.len(), 40);
    assert_eq!(tarball.sha512.len(), 88);
    assert_eq!(tarball.sha1, sha1_hex(&tarball.tarball));
    assert_eq!(tarball.sha512, sha512_base64(&tarball.tarball));
    assert_ne!(tarball.tarball[..2], b"package"[..2]);
    assert_eq!(tarball.tarball[..2], [0x1f, 0x8b]);
}

#[test]
fn order_of_gathering_does_not_matter() {
    let one = pack_files(map(&[("/a", "1"), ("/b", "2"), ("/c", "3")]), IndexMap::new(), 5);
    let two = pack_files(map(&[("/c", "3"), ("/a", "1"), ("/b", "2")]), IndexMap::new(), 5);
    let (one, two) = (one.unwrap(), two.unwrap());
    assert_eq!(one.tarball, two.tarball);
    assert_eq!(one.sha1, two.sha1);
    assert_eq!(one.sha512, two.sha512);
}

#[test]
fn time_changes_no_contents() {
    let files = || map(&[("/b", "2"), ("/a", "1")]);
    let contents = |mtime: u64| {
        let tarball = pack_files(files(), IndexMap::new(), mtime).unwrap();
        unpack(&tarball).into_iter().map(|e| (e.0, e.1)).collect::<Vec<_>>()
    };
    assert_eq!(contents(1), contents(2));
    let long = format!("/{}", "x".repeat(101));
    for mtime in [1, 2] {
        assert!(pack_files(map(&[(&long, "")]), IndexMap::new(), mtime).is_err());
    }
}

#[test]
fn commands_are_handed_on() {
    let bin: IndexMap<String, String> =
        [("z".to_string(), "./z.js".to_string()), ("a".to_string(), "./a.js".to_string())].into();
    let tarball = pack_files(IndexMap::new(), bin.clone(), 5).unwrap();
    assert_eq!(
        tarball.bin.into_inner().into_iter().collect::<Vec<_>>(),
        bin.into_iter().collect::<Vec<_>>()
    );
}

#[test]
fn longest_paths_are_stored() {
    // The name without the directory, and the directory, at the limits of their fields.
    let name = "n".repeat(100);
    let dir = "d".repeat(155 - "./package/".len());
    for path in [format!("/{name}"), format!("/{dir}/{name}")] {
        let tarball = pack_files(map(&[(&path, "x")]), IndexMap::new(), 0).unwrap();
        assert_eq!(paths(&tarball), vec![format!("package{path}")]);
    }
    for path in [format!("/{name}n"), format!("/{dir}d/{name}"), format!("/{dir}/{name}n")] {
        match pack_files(map(&[("/a", ""), (&path, "x")]), IndexMap::new(), 0) {
            Err(NpmTarballError::InvalidPath { path: p, len }) => {
                assert_eq!(p, path);
                assert_eq!(len, path.len());
            }
            _ => panic!("the path is too long"),
        }
    }
}

#[test]
fn the_first_long_path_is_reported() {
    let a = format!("/a{}", "ä".repeat(100));
    let b = format!("/b{}", "x".repeat(200));
    for files in [[(&b[..], ""), (&a[..], "")], [(&a[..], ""), (&b[..], "")]] {
        match pack_files(map(&files), IndexMap::new(), 0) {
            Err(NpmTarballError::InvalidPath { path, len }) => {
                assert_eq!(path, a);
                assert_eq!(len, 202);
            }
            _ => panic!("the paths are too long"),
        }
    }
}

#[test]
fn upper_directories_are_refused() {
    assert!(matches!(
        pack_files(map(&[("/../a", "")]), IndexMap::new(), 0),
        Err(NpmTarballError::InvalidPath { .. })
    ));
}

#[test]
fn modules_become_files() {
    let mut i = input();
    i.graph = vec![
        module("/mod.ts", MediaType::TypeScript, "ts", Some("dts")),
        module("/lib.js", MediaType::JavaScript, "js", None),
        module("/types.d.ts", MediaType::Dts, "declared", None),
        module("/view.jsx", MediaType::Jsx, "jsx", None),
        module("/old.cjs", MediaType::Cjs, "cjs", None),
        Module {
            specifier: "file:///data.json".to_string(),
            scheme: "file".to_string(),
            path: "/data.json".to_string(),
            kind: ModuleKind::Json { source: "{}".to_string() },
        },
        Module {
            specifier: "https://x.test/remote.js".to_string(),
            scheme: "https".to_string(),
            path: "/remote.js".to_string(),
            kind: ModuleKind::Js {
                media_type: MediaType::JavaScript,
                source: "remote".to_string(),
                dts: None,
            },
        },
        Module {
            specifier: "npm:lit".to_string(),
            scheme: "npm".to_string(),
            path: "lit".to_string(),
            kind: ModuleKind::Other,
        },
    ];
    i.sources = vec![
        source("file:///mod.ts", "ts"),
        source("file:///lib.js", "js"),
        source("file:///view.jsx", "jsx"),
    ];
    let tarball = finished(create(i, NpmTarballFiles::WithBytes(&vec![])).unwrap());
    let files: Vec<(String, String)> = unpack(&tarball)
        .into_iter()
        .map(|e| (e.0, String::from_utf8(e.1).unwrap()))
        .collect();
    let expected: Vec<(String, String)> = [
        ("package/data.json", "{}"),
        ("package/lib.js", "js"),
        ("package/mod.d.ts", "dts"),
        ("package/mod.js", "// https://jsr.test/@s/p/1.2.3/mod.ts\nts"),
        ("package/package.json", "p@1.2.3"),
        ("package/types.d.ts", "declared"),
        ("package/view.jsx", "// https://jsr.test/@s/p/1.2.3/view.jsx\njsx"),
    ]
    .iter()
    .map(|(p, c)| (p.to_string(), c.to_string()))
    .collect();
    assert_eq!(files, expected);
}

#[test]
fn made_files_win_over_source_files() {
    let mut i = input();
    i.graph = vec![module("/mod.ts", MediaType::TypeScript, "ts", Some("dts"))];
    i.sources = vec![source("file:///mod.ts", "ts")];
    let list = vec![
        file("/mod.ts", "the source"),
        file("/mod.d.ts", "unrelated"),
        file("/package.json", "{}"),
        file("/README.md", "read me"),
    ];
    let tarball = finished(create(i, NpmTarballFiles::WithBytes(&list)).unwrap());
    let files: Vec<(String, String)> = unpack(&tarball)
        .into_iter()
        .map(|e| (e.0, String::from_utf8(e.1).unwrap()))
        .collect();
    assert_eq!(files.len(), 4);
    assert_eq!(files[0], ("package/README.md".to_string(), "read me".to_string()));
    assert_eq!(files[1], ("package/mod.d.ts".to_string(), "dts".to_string()));
    assert_eq!(files[2].0, "package/mod.js");
    assert_eq!(files[3], ("package/package.json".to_string(), "p@1.2.3".to_string()));
}

#[test]
fn a_module_at_the_path_of_the_manifest_gives_way() {
    let mut i = input();
    i.graph = vec![Module {
        specifier: "file:///package.json".to_string(),
        scheme: "file".to_string(),
        path: "/package.json".to_string(),
        kind: ModuleKind::Json { source: "{}".to_string() },
    }];
    let tarball = finished(create(i, NpmTarballFiles::WithBytes(&vec![])).unwrap());
    assert_eq!(unpack(&tarball), vec![(
        "package/package.json".to_string(),
        b"p@1.2.3".to_vec(),
        0o777,
        1700000000
    )]);
}

#[test]
fn fetched_files_make_the_same_tarball() {
    let list = vec![
        file("/mod.ts", "the source"),
        file("/a.txt", "a"),
        file("/package.json", "{}"),
        file("/b.txt", "b"),
    ];
    let with_modules = || {
        let mut i = input();
        i.graph = vec![module("/mod.ts", MediaType::TypeScript, "ts", None)];
        i.sources = vec![source("file:///mod.ts", "ts")];
        i
    };
    let handed_over =
        finished(create(with_modules(), NpmTarballFiles::WithBytes(&list)).unwrap());

    let listed: Vec<String> = list.iter().map(|f| f.path.clone()).collect();
    let (draft, wanted) =
        to_fetch(create(with_modules(), NpmTarballFiles::FromBucket { files: &listed }).unwrap());
    assert_eq!(wanted, vec!["/a.txt".to_string(), "/b.txt".to_string()]);
    let downloads = vec![
        Download { path: "/b.txt".to_string(), outcome: Ok(Some(b"b".to_vec())) },
        Download { path: "/a.txt".to_string(), outcome: Ok(Some(b"a".to_vec())) },
    ];
    let fetched = finish_npm_tarball(draft, &downloads, 1700000000).unwrap();
    assert!(paths(&fetched).contains(&"package/package.json".to_string()));
    assert!(paths(&fetched).contains(&"package/mod.js".to_string()));
    assert_eq!(fetched.tarball, handed_over.tarball);
    assert_eq!(fetched.sha1, handed_over.sha1);
    assert_eq!(fetched.sha512, handed_over.sha512);
}

#[test]
fn the_manifest_is_not_fetched() {
    let listed = vec!["/package.json".to_string()];
    let (draft, wanted) =
        to_fetch(create(input(), NpmTarballFiles::FromBucket { files: &listed }).unwrap());
    assert!(wanted.is_empty());
    let tarball = finish_npm_tarball(draft, &vec![], 1).unwrap();
    assert_eq!(unpack(&tarball), vec![(
        "package/package.json".to_string(),
        b"p@1.2.3".to_vec(),
        0o777,
        1
    )]);
}

#[test]
fn listing_order_does_not_matter() {
    let one = vec![file("/a", "1"), file("/b", "2")];
    let two = vec![file("/b", "2"), file("/a", "1")];
    let one = finished(create(input(), NpmTarballFiles::WithBytes(&one)).unwrap());
    let two = finished(create(input(), NpmTarballFiles::WithBytes(&two)).unwrap());
    assert_eq!(one.tarball, two.tarball);
}

#[test]
fn the_first_file_that_is_not_fetched_is_reported() {
    let found = || Download { path: "/a".to_string(), outcome: Ok(Some(vec![1])) };
    let lost = || Download { path: "/b".to_string(), outcome: Ok(None) };
    let broken = || Download { path: "/c".to_string(), outcome: Err("reset".to_string()) };
    match downloaded_files(&vec![found(), lost(), broken()]) {
        Err(NpmTarballError::MissingFile { path }) => assert_eq!(path, "/b"),
        _ => panic!("a file is missing"),
    }
    match downloaded_files(&vec![found(), broken(), lost()]) {
        Err(NpmTarballError::Download { path, cause }) => {
            assert_eq!(path, "/c");
            assert_eq!(cause, "reset");
        }
        _ => panic!("a file was not fetched"),
    }
    let files = downloaded_files(&vec![found()]).unwrap();
    assert_eq!(files.len(), 1);
    assert_eq!(files[0].path, "/a");
    assert_eq!(files[0].content, vec![1]);

    let listed = vec!["/b".to_string()];
    let (draft, _) =
        to_fetch(create(input(), NpmTarballFiles::FromBucket { files: &listed }).unwrap());
    assert!(matches!(
        finish_npm_tarball(draft, &vec![lost()], 0),
        Err(NpmTarballError::MissingFile { .. })
    ));
}

#[test]
fn fetched_paths_can_be_too_long() {
    let path = format!("/{}", "x".repeat(101));
    let listed = vec![path.clone()];
    let (draft, _) =
        to_fetch(create(input(), NpmTarballFiles::FromBucket { files: &listed }).unwrap());
    let downloads = vec![Download { path, outcome: Ok(Some(vec![])) }];
    assert!(matches!(
        finish_npm_tarball(draft, &downloads, 0),
        Err(NpmTarballError::InvalidPath { .. })
    ));
}

#[test]
fn sources_that_do_not_transpile_are_reported() {
    let mut i = input();
    i.graph = vec![
        module("/a.ts", MediaType::TypeScript, "fine", None),
        module("/b.ts", MediaType::TypeScript, "?", None),
    ];
    i.sources = vec![source("file:///a.ts", "fine"), source("file:///b.ts", "?")];
    match create(i, NpmTarballFiles::WithBytes(&vec![])) {
        Err(NpmTarballError::Transpile { path, cause }) => {
            assert_eq!(path, "/b.ts");
            assert_eq!(cause, "unexpected token");
        }
        _ => panic!("a source does not transpile"),
    }
}

#[test]
fn sources_are_needed_only_where_they_are_reached() {
    // A name that is not valid ends it before any source is looked for.
    let mut i = input();
    i.graph = vec![module("/a.ts", MediaType::TypeScript, "x", None)];
    i.dependencies = vec![(
        DependencyKind::Jsr,
        PackageReq { name: "nope".to_string(), version_req: "1".to_string() },
    )];
    assert!(matches!(
        create(i, NpmTarballFiles::WithBytes(&vec![])),
        Err(NpmTarballError::InvalidName { .. })
    ));
    // A module that does not transpile ends it before the source of the next is looked for.
    let mut i = input();
    i.graph = vec![
        module("/a.ts", MediaType::TypeScript, "?", None),
        module("/b.ts", MediaType::TypeScript, "x", None),
    ];
    i.sources = vec![source("file:///a.ts", "?")];
    assert!(matches!(
        create(i, NpmTarballFiles::WithBytes(&vec![])),
        Err(NpmTarballError::Transpile { .. })
    ));
}

#[test]
fn manifests_that_cannot_be_written_are_reported() {
    let mut i = input();
    i.revision = 0;
    match create(i, NpmTarballFiles::WithBytes(&vec![])) {
        Err(NpmTarballError::Manifest { cause }) => assert_eq!(cause, "no revision"),
        _ => panic!("the manifest cannot be written"),
    }
}

#[test]
fn registry_addresses_that_are_no_base_are_reported() {
    let mut i = input();
    i.registry_url = "data:text/plain,x";
    match create(i, NpmTarballFiles::WithBytes(&vec![])) {
        Err(NpmTarballError::InvalidUrl { reference }) => assert_eq!(reference, "./@s/p"),
        _ => panic!("the address is no base"),
    }
}

#[test]
fn invalid_dependencies_come_before_short_exports() {
    let mut i = input();
    i.exports = vec![("x", "")];
    i.dependencies = vec![(
        DependencyKind::Jsr,
        PackageReq { name: "nope".to_string(), version_req: "1".to_string() },
    )];
    match create(i, NpmTarballFiles::WithBytes(&vec![])) {
        Err(NpmTarballError::InvalidName { name, cause }) => {
            assert_eq!(name, "nope");
            assert_eq!(cause, "no scope");
        }
        _ => panic!("a dependency is not valid"),
    }
    let mut i = input();
    i.exports = vec![("x", "")];
    match create(i, NpmTarballFiles::WithBytes(&vec![])) {
        Err(NpmTarballError::InvalidExport { key }) => assert_eq!(key, "x"),
        _ => panic!("an export is too short"),
    }
}

#[test]
fn sources_are_at_hand_or_not() {
    let at_hand = |graph: Vec<Module>, sources: Vec<ParsedSource>| {
        sources_at_hand(&NpmTarballOptions {
            graph: &graph,
            sources: &ParsedSourceStore { sources },
            package: PackageVersion {
                registry_url: "https://jsr.test",
                scope: "s",
                package: "p",
                version: "1.2.3",
            },
            exports: &ExportsMap::new(IndexMap::new()),
            files: NpmTarballFiles::WithBytes(&vec![]),
            dependencies: &vec![],
            revision: 1,
        })
    };
    // A specifier on a line that the text does not have.
    let misplaced = |specifier: &str| {
        let mut s = source(specifier, "x");
        let nowhere = Position { line: 1, character: 0 };
        s.dependencies = vec![DependencyDescriptor::Static {
            specifier: "y".to_string(),
            specifier_range: PositionRange { start: nowhere, end: nowhere },
        }];
        s
    };
    let js = || module("/a.js", MediaType::JavaScript, "x", None);
    let ts = || module("/a.ts", MediaType::TypeScript, "x", None);
    assert!(at_hand(vec![], vec![]));
    assert!(at_hand(vec![js()], vec![source("file:///a.js", "x")]));
    assert!(!at_hand(vec![js()], vec![source("file:///b.js", "x")]));
    assert!(!at_hand(vec![js()], vec![misplaced("file:///a.js")]));
    assert!(at_hand(vec![ts()], vec![misplaced("file:///a.ts")]));
    assert!(!at_hand(vec![ts()], vec![]));
    assert!(at_hand(vec![module("/a.d.ts", MediaType::Dts, "x", None)], vec![]));
}

#[test]
fn source_files_fill_the_gaps() {
    let mut files = PackageFiles::new();
    files.insert_module(
        &"/m.ts".to_string(),
        Emitted {
            code: Some(file("/m.js", "code")),
            transpiled: true,
            dts: Some(file("/m.d.ts", "types")),
        },
    );
    assert!(!files.lacks_file("/m.ts"));
    assert!(!files.lacks_file("/m.js"));
    assert!(files.lacks_file("/x"));
    let list: Vec<String> =
        ["/m.ts", "/x", "/m.d.ts", "/y"].iter().map(|p| p.to_string()).collect();
    assert_eq!(paths_to_download(&files, &list), vec!["/x".to_string(), "/y".to_string()]);
    add_missing(
        &mut files,
        &vec![file("/m.ts", "no"), file("/x", "1"), file("/m.js", "no"), file("/x", "2")],
    );
    let gathered: Vec<(String, Vec<u8>)> = files.into_files().into_iter().collect();
    assert_eq!(gathered, vec![
        ("/m.js".to_string(), b"code".to_vec()),
        ("/m.d.ts".to_string(), b"types".to_vec()),
        ("/x".to_string(), b"1".to_vec()),
    ]);
}

#[test]
fn later_files_replace_earlier_ones_in_place() {
    let mut files = PackageFiles::new();
    files.insert("/a".to_string(), vec![1]);
    files.insert("/b".to_string(), vec![2]);
    add_all(&mut files, vec![
        PackageFile { path: "/a".to_string(), content: vec![3] },
        PackageFile { path: "/c".to_string(), content: vec![4] },
    ]);
    let gathered: Vec<(String, Vec<u8>)> = files.into_files().into_iter().collect();
    assert_eq!(gathered, vec![
        ("/a".to_string(), vec![3]),
        ("/b".to_string(), vec![2]),
        ("/c".to_string(), vec![4]),
    ]);
}
