//! The manifest: exports, dependencies and commands.

use indexmap::IndexMap;
use npm_tarball::address::{on_registry, package_file, package_page};
use npm_tarball::bin::{
    check_commands, create_npm_bin, derive_name, find_command, name_command, name_in_comments,
};
use npm_tarball::dependencies::{create_npm_dependencies, DependencyKind, PackageReq};
use npm_tarball::emit::PackageVersion;
use npm_tarball::error::NpmTarballError;
use npm_tarball::exports::{create_npm_exports, ExportsMap};
use npm_tarball::manifest::create_package_json;
use npm_tarball::source::{ParsedSource, ParsedSourceStore};
use npm_tarball::text::{
    hyphenated, is_white_space, same_text, skip_bytes, strip_prefix, trimmed,
};

fn rewrite(specifier: &str) -> Option<String> {
    specifier.strip_suffix(".ts").map(|stem| format!("{stem}.js"))
}

fn npm_name(name: &str) -> Result<String, String> {
    match name.strip_prefix('@').and_then(|n| n.split_once('/')) {
        Some((scope, package)) => Ok(format!("@jsr/{scope}__{package}")),
        None => Err("no scope".to_string()),
    }
}

fn exports(list: &[(&str, &str)]) -> ExportsMap {
    ExportsMap::new(list.iter().map(|e| (e.0.to_string(), e.1.to_string())).collect())
}

fn pairs(map: IndexMap<String, String>) -> Vec<(String, String)> {
    map.into_iter().collect()
}

fn texts(list: &[(&str, &str)]) -> Vec<(String, String)> {
    list.iter().map(|e| (e.0.to_string(), e.1.to_string())).collect()
}

fn command(specifier: &str, comments: &[&[&str]]) -> ParsedSource {
    ParsedSource {
        specifier: specifier.to_string(),
        text: "#!/usr/bin/env node\n".to_string(),
        has_shebang: true,
        leading_comments: comments
            .iter()
            .map(|group| group.iter().map(|c| c.to_string()).collect())
            .collect(),
        dependencies: vec![],
    }
}

fn requirement(kind: DependencyKind, name: &str, version: &str) -> (DependencyKind, PackageReq) {
    (kind, PackageReq { name: name.to_string(), version_req: version.to_string() })
}

#[test]
fn white_space_is_that_of_the_standard_library() {
    for c in '\0'..=char::MAX {
        assert_eq!(is_white_space(c), c.is_whitespace());
    }
}

#[test]
fn trimming_is_that_of_the_standard_library() {
    for s in ["", " ", " a ", "a b", "\u{2003}\ta\r\n\u{85}", "\u{3000}", "ä ", " \u{feff}x"] {
        assert_eq!(trimmed(s), s.trim());
    }
}

#[test]
fn prefixes_are_those_of_the_standard_library() {
    for s in ["", "@", "@jsrBin=", "@jsrBin=ä", "jsrBin=x", "@jsrBinx", "ä@jsrBin="] {
        assert_eq!(strip_prefix(s, "@jsrBin="), s.strip_prefix("@jsrBin="));
        assert_eq!(strip_prefix(s, ""), Some(s));
    }
}

#[test]
fn skipping_bytes_is_slicing() {
    for s in ["", "a", "ab", "abc", "äb", "aä", "a\u{20ac}", "\u{1f980}x"] {
        for n in 0..6 {
            assert_eq!(skip_bytes(s, n), s.get(n..));
        }
    }
}

#[test]
fn hyphens_replace_slashes() {
    for s in ["", "a", "/", "a/b/c", "ä//b", "-/-"] {
        assert_eq!(hyphenated(s), s.replace('/', "-"));
    }
}

#[test]
fn texts_are_the_same_or_not() {
    assert!(same_text("", ""));
    assert!(same_text("äb", "äb"));
    assert!(!same_text("a", "b"));
    assert!(!same_text("a", "ab"));
    assert!(!same_text("ab", "a"));
}

#[test]
fn exports_keep_names_and_order() {
    let npm = create_npm_exports(
        &exports(&[("./z", "./z.ts"), (".", "./mod.js"), ("./a", "./a.ts")]),
        &rewrite,
    );
    assert_eq!(
        pairs(npm),
        texts(&[("./z", "./z.js"), (".", "./mod.js"), ("./a", "./a.js")])
    );
}

#[test]
fn dependencies_are_mapped_and_sorted() {
    let npm = create_npm_dependencies(
        &vec![
            requirement(DependencyKind::Npm, "lit", "^2.2.7"),
            requirement(DependencyKind::Jsr, "@std/path", "^1"),
            requirement(DependencyKind::Npm, "chalk", "5"),
            requirement(DependencyKind::Npm, "Zod", "3"),
        ],
        &npm_name,
    );
    assert_eq!(
        pairs(npm.unwrap()),
        texts(&[("@jsr/std__path", "^1"), ("Zod", "3"), ("chalk", "5"), ("lit", "^2.2.7")])
    );
}

#[test]
fn exports_in_a_row_become_npm_exports_in_a_row() {
    let first = [("./z", "./z.ts"), (".", "./mod.js")];
    let second = [("./a", "./a.ts")];
    let npm = |list: &[(&str, &str)]| pairs(create_npm_exports(&exports(list), &rewrite));
    let both = [npm(&first), npm(&second)].concat();
    assert_eq!(npm(&[&first[..], &second[..]].concat()), both);
}

#[test]
fn npm_dependencies_ignore_the_order() {
    let npm = |order: &[usize], bad: bool| {
        let list = [
            requirement(DependencyKind::Npm, "lit", "^2.2.7"),
            requirement(DependencyKind::Jsr, if bad { "bad" } else { "@std/path" }, "^1"),
            requirement(DependencyKind::Npm, "chalk", "5"),
        ];
        let mut list: Vec<_> = list.into_iter().map(Some).collect();
        let list = order.iter().map(|i| list[*i].take().unwrap()).collect();
        create_npm_dependencies(&list, &npm_name).ok().map(pairs)
    };
    let sorted = texts(&[("@jsr/std__path", "^1"), ("chalk", "5"), ("lit", "^2.2.7")]);
    for order in [[0, 1, 2], [2, 1, 0], [1, 0, 2]] {
        assert_eq!(npm(&order, false), Some(sorted.clone()));
        assert_eq!(npm(&order, true), None);
    }
}

#[test]
fn dependencies_in_a_row_override_each_other() {
    let first = || {
        vec![
            requirement(DependencyKind::Npm, "b", "1"),
            requirement(DependencyKind::Npm, "a", "1"),
        ]
    };
    let second = || {
        vec![
            requirement(DependencyKind::Npm, "b", "2"),
            requirement(DependencyKind::Npm, "c", "2"),
        ]
    };
    let npm = |list| create_npm_dependencies(&list, &npm_name).ok().map(pairs);
    let both = || first().into_iter().chain(second()).collect::<Vec<_>>();
    let twice = || first().into_iter().chain(first()).collect::<Vec<_>>();
    assert_eq!(npm(both()), Some(texts(&[("a", "1"), ("b", "2"), ("c", "2")])));
    assert_eq!(npm(twice()), npm(first()));

    let bad = |name: &str| vec![requirement(DependencyKind::Jsr, name, "1")];
    let fails = |list| match create_npm_dependencies(&list, &npm_name) {
        Err(NpmTarballError::InvalidName { name, .. }) => Some(name),
        _ => None,
    };
    assert_eq!(fails(first().into_iter().chain(bad("x")).collect()), Some("x".to_string()));
    assert_eq!(fails(bad("x").into_iter().chain(bad("y")).collect()), Some("x".to_string()));
}

#[test]
fn commands_are_among_the_exports() {
    let sources = ParsedSourceStore {
        sources: vec![
            command("file:///a.ts", &[&["@jsrBin=x"]]),
            command("file:///b.ts", &[]),
            command("file:///c.ts", &[&["@jsrBin=x"]]),
        ],
    };
    let list = exports(&[("./a", "./a.ts"), ("./b", "./b.ts"), ("./c", "./c.ts"), (".", "./d.ts")]);
    let npm = create_npm_exports(&list, &rewrite);
    let bin = create_npm_bin("pkg", &list, &sources, &rewrite);
    assert!(bin.len() <= npm.len());
    assert!(bin.values().all(|path| npm.values().any(|p| p == path)));
    assert!(!bin.values().any(|path| path == "./d.js"));
}

#[test]
fn the_last_requirement_stays() {
    let npm = create_npm_dependencies(
        &vec![
            requirement(DependencyKind::Npm, "@jsr/std__path", "1"),
            requirement(DependencyKind::Npm, "a", "1"),
            requirement(DependencyKind::Jsr, "@std/path", "2"),
            requirement(DependencyKind::Npm, "a", "3"),
        ],
        &npm_name,
    );
    assert_eq!(pairs(npm.unwrap()), texts(&[("@jsr/std__path", "2"), ("a", "3")]));
}

#[test]
fn the_first_invalid_name_is_reported() {
    let r = create_npm_dependencies(
        &vec![
            requirement(DependencyKind::Npm, "fine", "1"),
            requirement(DependencyKind::Jsr, "bad", "1"),
            requirement(DependencyKind::Jsr, "worse", "1"),
        ],
        &npm_name,
    );
    match r {
        Err(NpmTarballError::InvalidName { name, cause }) => {
            assert_eq!(name, "bad");
            assert_eq!(cause, "no scope");
        }
        _ => panic!("a name is not valid"),
    }
}

#[test]
fn comments_name_commands() {
    let name = |comments: &[&[&str]]| name_in_comments(&command("file:///a.ts", comments));
    assert_eq!(name(&[]), None);
    assert_eq!(name(&[&["text", " @jsrBin=first "], &["@jsrBin=second"]]), Some("first".into()));
    assert_eq!(name(&[&[], &["* @jsrBin=no", "@jsrBin=a b\n"]]), Some("a b".into()));
    assert_eq!(name(&[&["@jsrBin="]]), Some("".into()));
    assert_eq!(name(&[&["@jsrBin"]]), None);
}

#[test]
fn exports_name_commands() {
    assert_eq!(derive_name("pkg", "."), Some("pkg".into()));
    assert_eq!(derive_name("pkg", "./cli"), Some("pkg-cli".into()));
    assert_eq!(derive_name("pkg", "./a/b/c"), Some("pkg-a-b-c".into()));
    assert_eq!(derive_name("pkg", "./"), Some("pkg-".into()));
    assert_eq!(derive_name("pkg", "x"), None);
    assert_eq!(derive_name("pkg", "xä"), None);
    let named = command("file:///a.ts", &[&["@jsrBin=cli"]]);
    assert_eq!(name_command("pkg", "x", &named), Some("cli".into()));
}

#[test]
fn commands_are_exports_with_an_interpreter_line() {
    let mut plain = command("file:///plain.ts", &[]);
    plain.has_shebang = false;
    let sources = ParsedSourceStore {
        sources: vec![
            command("file:///cli.ts", &[]),
            command("file:///named.js", &[&["@jsrBin=name"]]),
            command("file:///sp%20ace.ts", &[]),
            plain,
        ],
    };
    assert!(find_command(&sources, "./cli.ts").is_some());
    assert!(find_command(&sources, "./plain.ts").is_none());
    assert!(find_command(&sources, "./other.ts").is_none());
    let list = exports(&[
        (".", "./cli.ts"),
        ("./plain", "./plain.ts"),
        ("./named", "./named.js"),
        ("./missing", "./missing.ts"),
        ("./sub/space", "./sp ace.ts"),
    ]);
    assert!(check_commands("pkg", &list, &sources).is_ok());
    let bin = create_npm_bin("pkg", &list, &sources, &rewrite);
    assert_eq!(
        pairs(bin),
        texts(&[("pkg", "./cli.js"), ("name", "./named.js"), ("pkg-sub-space", "./sp ace.js")])
    );
}

#[test]
fn the_last_command_with_a_name_is_offered() {
    let sources = ParsedSourceStore {
        sources: vec![
            command("file:///a.ts", &[&["@jsrBin=x"]]),
            command("file:///b.ts", &[]),
            command("file:///c.ts", &[&["@jsrBin=x"]]),
        ],
    };
    let list = exports(&[("./a", "./a.ts"), ("./b", "./b.ts"), ("./c", "./c.ts")]);
    let bin = create_npm_bin("pkg", &list, &sources, &rewrite);
    assert_eq!(pairs(bin), texts(&[("x", "./c.js"), ("pkg-b", "./b.js")]));
}

#[test]
fn short_exports_are_reported() {
    let sources = ParsedSourceStore { sources: vec![command("file:///a.ts", &[])] };
    let fails = |list: &[(&str, &str)]| match check_commands("pkg", &exports(list), &sources) {
        Err(NpmTarballError::InvalidExport { key }) => Some(key),
        _ => None,
    };
    assert_eq!(fails(&[("./a", "./a.ts"), ("x", "./a.ts")]), Some("x".into()));
    assert_eq!(fails(&[("./a", "")]), Some("./a".into()));
    assert_eq!(fails(&[("./a", "ä.ts")]), Some("./a".into()));
    assert_eq!(fails(&[("x", "./none.ts")]), None);
}

#[test]
fn references_resolve_on_the_registry() {
    assert_eq!(package_page("s", "p"), "./@s/p");
    assert_eq!(package_file("s", "p", "1.0.0", "/m.ts"), "./@s/p/1.0.0/m.ts");
    assert_eq!(on_registry("http://jsr.test", "./@s/p"), Some("http://jsr.test/@s/p".into()));
    assert_eq!(on_registry("http://jsr.test/x/", "./@s/p"), Some("http://jsr.test/x/@s/p".into()));
    assert_eq!(on_registry("mailto:x", "./@s/p"), None);
    assert_eq!(on_registry("no address", "./@s/p"), None);
}

#[test]
fn manifests_describe_packages() {
    let package = PackageVersion {
        registry_url: "https://jsr.test/",
        scope: "scope",
        package: "pkg",
        version: "1.0.0",
    };
    let sources = ParsedSourceStore { sources: vec![command("file:///cli.ts", &[])] };
    let manifest = create_package_json(
        &package,
        &exports(&[(".", "./cli.ts")]),
        &vec![requirement(DependencyKind::Jsr, "@std/path", "1")],
        &sources,
        7,
        &rewrite,
        &npm_name,
    )
    .unwrap();
    assert_eq!(manifest.name.scope, "scope");
    assert_eq!(manifest.name.package, "pkg");
    assert_eq!(manifest.version, "1.0.0");
    assert_eq!(manifest.homepage, "https://jsr.test/@scope/pkg");
    assert_eq!(manifest.module_type, "module");
    assert_eq!(pairs(manifest.exports), texts(&[(".", "./cli.js")]));
    assert_eq!(pairs(manifest.dependencies), texts(&[("@jsr/std__path", "1")]));
    assert_eq!(pairs(manifest.bin), texts(&[("pkg", "./cli.js")]));
    assert_eq!(manifest.revision, 7);
}
