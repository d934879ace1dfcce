//! Packages, from the module graph to the files that a tarball holds.

use std::collections::HashMap;
use std::io::Read;

use deno_ast::ModuleSpecifier;
use deno_graph::source::{MemoryLoader, NullFileSystem, Source};
use deno_graph::{
    BuildFastCheckTypeGraphOptions, BuildOptions, CapturingModuleAnalyzer, DefaultModuleAnalyzer,
    GraphKind, ModuleGraph, ParsedSourceStore as _, WorkspaceFastCheckOption, WorkspaceMember,
};
use deno_semver::package::PackageNv;
use indexmap::IndexMap;
use npm_tarball::convert::Extension;
use npm_tarball::emit::PackageVersion;
use npm_tarball::exports::ExportsMap;
use npm_tarball::files::PackageFile;
use npm_tarball::graph::{MediaType, Module, ModuleKind};
use npm_tarball::manifest::NpmPackageJson;
use npm_tarball::source::{
    DependencyDescriptor, DynamicArgument, ParsedSource, ParsedSourceStore, Position, PositionRange,
};
use npm_tarball::tarball::{
    create_npm_tarball, Conventions, NpmTarballFiles, NpmTarballOptions, NpmTarballStep,
};
use url::Url;

fn rewrite_specifier(specifier: &str) -> Option<String> {
    let reference = deno_semver::npm::NpmPackageReqReference::from_str(specifier).ok()?;
    Some(reference.req().name.clone())
}

fn rewrite_extension(path: &str, extension: Extension) -> Option<String> {
    let stem = path.strip_suffix(".ts")?;
    Some(match extension {
        Extension::Js => format!("{stem}.js"),
        Extension::Dts => format!("{stem}.d.ts"),
    })
}

fn transpile(source: &ParsedSource, url: &str) -> Result<String, String> {
    let parsed = deno_ast::parse_module(deno_ast::ParseParams {
        specifier: Url::parse(url).map_err(|e| e.to_string())?,
        text_info: deno_ast::SourceTextInfo::from_string(source.text.clone()),
        media_type: deno_ast::MediaType::TypeScript,
        capture_tokens: false,
        scope_analysis: false,
        maybe_syntax: None,
    })
    .map_err(|e| e.to_string())?;
    let transpiled = parsed.transpile(&deno_ast::EmitOptions::default());
    Ok(transpiled.map_err(|e| e.to_string())?.text)
}

fn npm_name(name: &str) -> Result<String, String> {
    Err(format!("invalid package name: {name}"))
}

fn to_json(manifest: &NpmPackageJson) -> Result<String, String> {
    let mut json = serde_json::Map::new();
    json.insert("version".to_string(), serde_json::Value::from(manifest.version.clone()));
    serde_json::to_string_pretty(&json).map_err(|e| e.to_string())
}

fn position(p: &deno_graph::Position) -> Position {
    Position { line: p.line, character: p.character }
}

fn range(r: &deno_graph::PositionRange) -> PositionRange {
    PositionRange { start: position(&r.start), end: position(&r.end) }
}

fn library_source(parsed: &deno_ast::ParsedSource) -> ParsedSource {
    let info = DefaultModuleAnalyzer::module_info(parsed);
    let dependencies = info.dependencies.iter().map(|d| match d {
        deno_graph::DependencyDescriptor::Static(d) => DependencyDescriptor::Static {
            specifier: d.specifier.clone(),
            specifier_range: range(&d.specifier_range),
        },
        deno_graph::DependencyDescriptor::Dynamic(d) => DependencyDescriptor::Dynamic {
            argument: match &d.argument {
                deno_graph::DynamicArgument::String(s) => DynamicArgument::String(s.clone()),
                deno_graph::DynamicArgument::Template(_) => DynamicArgument::Template,
                deno_graph::DynamicArgument::Expr => DynamicArgument::Expr,
            },
            argument_range: range(&d.argument_range),
        },
    });
    let comments = parsed.comments().leading_map().values();
    ParsedSource {
        specifier: parsed.specifier().to_string(),
        text: parsed.text_info().text_str().to_string(),
        has_shebang: parsed.module().shebang.is_some(),
        leading_comments: comments
            .map(|group| group.iter().map(|c| c.text.to_string()).collect())
            .collect(),
        dependencies: dependencies.collect(),
    }
}

fn library_module(module: &deno_graph::Module) -> Module {
    let kind = if let Some(json) = module.json() {
        ModuleKind::Json { source: json.source.to_string() }
    } else if let Some(js) = module.js() {
        let dts = js.fast_check_module().and_then(|m| m.dts.as_ref()).map(|d| d.text.clone());
        let media_type = match js.media_type {
            deno_ast::MediaType::JavaScript => MediaType::JavaScript,
            deno_ast::MediaType::Mjs => MediaType::Mjs,
            deno_ast::MediaType::TypeScript => MediaType::TypeScript,
            _ => MediaType::Unknown,
        };
        ModuleKind::Js { media_type, source: js.source.to_string(), dts }
    } else {
        ModuleKind::Other
    };
    Module {
        specifier: module.specifier().to_string(),
        scheme: module.specifier().scheme().to_string(),
        path: module.specifier().path().to_string(),
        kind,
    }
}

fn test_npm_tarball(
    exports: IndexMap<String, String>,
    files: Vec<(&str, &str)>,
) -> HashMap<String, Vec<u8>> {
    let mut memory_files = vec![];
    for file in &files {
        let specifier = format!("file://{}", file.0);
        memory_files.push((
            specifier.clone(),
            Source::Module { specifier, maybe_headers: None, content: file.1.to_string() },
        ));
    }
    memory_files
        .push(("npm:lit@^2.2.7".to_owned(), Source::External("npm:lit@^2.2.7".to_owned())));

    let mut loader = MemoryLoader::new(memory_files, vec![]);
    let mut graph = ModuleGraph::new(GraphKind::All);
    let workspace_members = vec![WorkspaceMember {
        base: Url::parse("file:///").unwrap(),
        exports: exports.clone(),
        nv: PackageNv {
            name: "@deno-test/foo".to_string(),
            version: deno_semver::Version::parse_standard("1.0.0").unwrap(),
        },
    }];

    let mut roots: Vec<ModuleSpecifier> = vec![];
    for ex in exports.iter() {
        roots.push(Url::parse(&format!("file://{}", ex.1)).unwrap());
    }

    let module_analyzer = CapturingModuleAnalyzer::default();
    futures::executor::block_on(graph.build(
        roots,
        &mut loader,
        BuildOptions {
            is_dynamic: false,
            module_analyzer: Some(&module_analyzer),
            module_parser: Some(&module_analyzer),
            workspace_members: &workspace_members,
            file_system: Some(&NullFileSystem),
            resolver: None,
            npm_resolver: None,
            reporter: None,
            ..Default::default()
        },
    ));
    graph.valid().unwrap();
    graph.build_fast_check_type_graph(BuildFastCheckTypeGraphOptions {
        fast_check_cache: Default::default(),
        fast_check_dts: true,
        jsr_url_provider: None,
        module_parser: Some(&module_analyzer),
        resolver: None,
        npm_resolver: None,
        workspace_fast_check: WorkspaceFastCheckOption::Enabled(&workspace_members),
    });

    let modules: Vec<Module> = graph.modules().map(library_module).collect();
    let parsed = graph.modules().filter_map(|m| module_analyzer.get_parsed_source(m.specifier()));
    let sources = ParsedSourceStore { sources: parsed.map(|p| library_source(&p)).collect() };
    let list: Vec<PackageFile> = files
        .iter()
        .map(|(path, content)| PackageFile {
            path: path.to_string(),
            content: content.as_bytes().to_vec(),
        })
        .collect();
    let exports = ExportsMap::new(exports);
    let dependencies = vec![];
    let step = create_npm_tarball(
        &NpmTarballOptions {
            graph: &modules,
            sources: &sources,
            package: PackageVersion {
                registry_url: "http://jsr.test",
                scope: "deno-test",
                package: "foo",
                version: "1.0.0",
            },
            exports: &exports,
            files: NpmTarballFiles::WithBytes(&list),
            dependencies: &dependencies,
            revision: 1,
        },
        &Conventions { rewrite_specifier, rewrite_extension, transpile, npm_name, to_json },
        0,
    )
    .unwrap();
    let npm_tarball = match step {
        NpmTarballStep::Finished(tarball) => tarball,
        NpmTarballStep::Download { .. } => panic!("nothing is to be fetched"),
    };

    let mut transpiled_files: HashMap<String, Vec<u8>> = HashMap::new();

    let mut gz_decoder = flate2::bufread::GzDecoder::new(&npm_tarball.tarball[..]);
    let mut raw = vec![];
    gz_decoder.read_to_end(&mut raw).unwrap();
    let mut archive = tar::Archive::new(&raw[..]);
    for entry in archive.entries().unwrap() {
        let mut entry = entry.unwrap();

        let path = entry.path().unwrap().display().to_string();
        // For our tests we don't care about the package parent folder
        let len = "package".to_string().len();
        let formatted_path = path[len..].to_string();

        let mut buf = vec![];
        entry.read_to_end(&mut buf).unwrap();
        transpiled_files.insert(formatted_path, buf);
    }

    transpiled_files
}

#[test]
fn import_sources_test() {
    let source = r#"import { html } from "npm:lit@^2.2.7";
await import("npm:lit@^2.2.7");"#;
    let files = vec![("/package.json", ""), ("/foo.js", source), ("/bar.mjs", source)];
    let exports = IndexMap::from([
        (".".to_string(), "/foo.js".to_string()),
        ("./bar".to_string(), "/bar.mjs".to_string()),
    ]);
    let tarball_files = test_npm_tarball(exports, files);

    let expected = r#"import { html } from "lit";
await import("lit");"#
        .to_string();

    let foo_js = String::from_utf8_lossy(tarball_files.get("/foo.js").unwrap());
    let bar_mjs = String::from_utf8_lossy(tarball_files.get("/bar.mjs").unwrap());
    assert_eq!(foo_js, expected);
    assert_eq!(bar_mjs, expected);
}

#[test]
fn extra_files_test() {
    let files = vec![
        ("/package.json", ""),
        ("/foo.ts", "export const foo: string = 'bar';"),
        ("/bar.json", "console.log('foo');"),
        ("/foo.d.ts", "// unrelated content"),
        ("/data.txt", "this is data"),
    ];
    let exports = IndexMap::from([
        ("./foo".to_string(), "/foo.ts".to_string()),
        ("./bar".to_string(), "/bar.json".to_string()),
    ]);
    let tarball_files = test_npm_tarball(exports, files);

    tarball_files.get("/foo.js").unwrap();
    let dts = tarball_files.get("/foo.d.ts").unwrap();
    println!("{}", String::from_utf8_lossy(dts));
    assert_eq!(dts, b"export declare const foo: string;\n");
    tarball_files.get("/bar.json").unwrap();
    tarball_files.get("/data.txt").unwrap();
}
