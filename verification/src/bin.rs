//! The commands that a package offers.
//!
//! An exported source that begins with an interpreter line is a command. A comment in the source
//! may name it; otherwise the name comes from the package and the export.

use indexmap::IndexMap;
use vstd::prelude::*;
use vstd::utf8::{encode_scalar, encode_utf8, is_ascii_chars_encode_utf8};

use crate::address::{parse_url, parsed_url};
use crate::convert::{rewrite_with, rewrites, rewrites_all, rewrites_as, rewrites_one_way};
use crate::error::{ErrorView, NpmTarballError};
use crate::exports::{exported_as, exports_become, ExportsMap};
use crate::maps::{
    distinct_keys, has_key, insert_text, new_text_map, put, put_changes_one_key, text_entries,
    text_pairs_view,
};
use crate::source::{
    find_source, first_source_is_found, found_source_is_first, ParsedSource, ParsedSourceStore,
};
use crate::text::{
    after_bytes, blank, hyphenate, hyphenated, opt_text, or_text, rest_stands_behind, same_text,
    skip_bytes, skipped_bytes_are_characters, slashes_become_hyphens, strip_prefix, text_or, trim,
    trimmed, trimmed_stands_between, trimming_takes_white_space, white_space, without_prefix,
};

verus! {

/// The command name that a comment gives.
pub open spec fn comment_name(comment: Seq<char>) -> Option<Seq<char>> {
    without_prefix(trim(comment), "@jsrBin="@)
}

/// The command name that the first naming comment of a group gives.
pub open spec fn group_name(comments: Seq<String>) -> Option<Seq<char>>
    decreases comments.len(),
{
    if comments.len() == 0 {
        None
    } else if comment_name(comments[0]@) is Some {
        comment_name(comments[0]@)
    } else {
        group_name(comments.drop_first())
    }
}

/// The command name that the first naming comment of several groups gives.
pub open spec fn groups_name(groups: Seq<Vec<String>>) -> Option<Seq<char>>
    decreases groups.len(),
{
    if groups.len() == 0 {
        None
    } else if group_name(groups[0]@) is Some {
        group_name(groups[0]@)
    } else {
        groups_name(groups.drop_first())
    }
}

/// The command name that the first naming comment of a group gives.
fn name_in_group(comments: &Vec<String>) -> (r: Option<String>)
    ensures
        opt_text(r) == group_name(comments@),
{
    let mut i: usize = 0;
    assert(comments@.skip(0) =~= comments@);
    while i < comments.len()
        invariant
            i <= comments@.len(),
            group_name(comments@) == group_name(comments@.skip(i as int)),
        decreases comments@.len() - i,
    {
        if let Some(name) = strip_prefix(trimmed(comments[i].as_str()), "@jsrBin=") {
            return Some(name.to_owned());
        }
        assert(comments@.skip(i as int).drop_first() =~= comments@.skip(i + 1));
        i = i + 1;
    }
    None
}

/// The command name that the comments of a source give.
pub fn name_in_comments(source: &ParsedSource) -> (r: Option<String>)
    ensures
        opt_text(r) == groups_name(source.leading_comments@),
{
    let groups = &source.leading_comments;
    let mut i: usize = 0;
    assert(groups@.skip(0) =~= groups@);
    while i < groups.len()
        invariant
            i <= groups@.len(),
            groups@ == source.leading_comments@,
            groups_name(groups@) == groups_name(groups@.skip(i as int)),
        decreases groups@.len() - i,
    {
        let name = name_in_group(&groups[i]);
        if name.is_some() {
            return name;
        }
        assert(groups@.skip(i as int).drop_first() =~= groups@.skip(i + 1));
        i = i + 1;
    }
    None
}

/// The command name that comes from the package and the export.
pub open spec fn derived_name(package: Seq<char>, key: Seq<char>) -> Option<Seq<char>> {
    if key == "."@ {
        Some(package)
    } else {
        match after_bytes(key, 2) {
            Some(rest) => Some(package + "-"@ + hyphenate(rest)),
            None => None,
        }
    }
}

/// The command name that comes from the package and the export. There is none for an export
/// whose name is too short.
pub fn derive_name(package: &str, key: &str) -> (r: Option<String>)
    ensures
        opt_text(r) == derived_name(package@, key@),
{
    if same_text(key, ".") {
        return Some(package.to_owned());
    }
    match skip_bytes(key, 2) {
        Some(rest) => {
            let mut name = package.to_owned();
            name.append("-");
            name.append(hyphenated(rest).as_str());
            Some(name)
        },
        None => None,
    }
}

/// The name of the command that a source is, exported under `key`.
pub open spec fn command_name(package: Seq<char>, key: Seq<char>, source: ParsedSource) -> Option<
    Seq<char>,
> {
    match groups_name(source.leading_comments@) {
        Some(name) => Some(name),
        None => derived_name(package, key),
    }
}

/// The name of the command that a source is, exported under `key`.
pub fn name_command(package: &str, key: &str, source: &ParsedSource) -> (r: Option<String>)
    ensures
        opt_text(r) == command_name(package@, key@, *source),
{
    let name = name_in_comments(source);
    if name.is_some() {
        return name;
    }
    derive_name(package, key)
}

/// The address of the source that an export refers to, if it has one.
pub open spec fn export_url(path: Seq<char>) -> Option<Seq<char>> {
    match after_bytes(path, 1) {
        Some(rest) => parsed_url("file://"@ + rest),
        None => None,
    }
}

/// The source that an exported file is, if it is a command.
pub open spec fn command_source(sources: Seq<ParsedSource>, path: Seq<char>) -> Option<
    ParsedSource,
> {
    match export_url(path) {
        Some(url) => match find_source(sources, url) {
            Some(source) if source.has_shebang => Some(source),
            _ => None,
        },
        None => None,
    }
}

/// The source that an exported file is, if it is a command.
pub fn find_command<'a>(sources: &'a ParsedSourceStore, path: &str) -> (r: Option<
    &'a ParsedSource,
>)
    requires
        after_bytes(path@, 1) is Some,
    ensures
        match r {
            Some(source) => command_source(sources.sources@, path@) == Some(*source),
            None => command_source(sources.sources@, path@) is None,
        },
{
    let rest = match skip_bytes(path, 1) {
        Some(rest) => rest,
        None => {
            return None;
        },
    };
    let mut address = "file://".to_owned();
    address.append(rest);
    let url = match parse_url(address.as_str()) {
        Some(url) => url,
        None => {
            return None;
        },
    };
    match sources.get_parsed_source(url.as_str()) {
        Some(source) => if source.has_shebang {
            Some(source)
        } else {
            None
        },
        None => None,
    }
}

/// Whether it can be told of an export which command it is, if it is one.
pub open spec fn nameable(
    package: Seq<char>,
    sources: Seq<ParsedSource>,
    export: (Seq<char>, Seq<char>),
) -> bool {
    &&& after_bytes(export.1, 1) is Some
    &&& match command_source(sources, export.1) {
        Some(source) => command_name(package, export.0, source) is Some,
        None => true,
    }
}

/// Whether it can be told of every export which command it is, if it is one.
pub open spec fn all_nameable(
    package: Seq<char>,
    exports: Seq<(Seq<char>, Seq<char>)>,
    sources: Seq<ParsedSource>,
) -> bool {
    forall|i: int| 0 <= i < exports.len() ==> nameable(package, sources, #[trigger] exports[i])
}

/// The commands of the exports: under the name of each, its file as the answer has it, or as it
/// is where there is none. Of two with the same name the later file stays, in the earlier place.
pub open spec fn commands(
    package: Seq<char>,
    exports: Seq<(Seq<char>, Seq<char>)>,
    sources: Seq<ParsedSource>,
    answers: Seq<Option<Seq<char>>>,
) -> Seq<(Seq<char>, Seq<char>)>
    decreases exports.len(),
{
    if exports.len() == 0 {
        seq![]
    } else {
        let before = commands(package, exports.drop_last(), sources, answers.drop_last());
        let (key, path) = exports.last();
        match command_source(sources, path) {
            Some(source) => match command_name(package, key, source) {
                Some(name) => put(before, name, or_text(answers.last(), path)),
                None => before,
            },
            None => before,
        }
    }
}

/// Whether `answers` holds what `rewrite` may answer about the file of each command.
pub open spec fn command_answers<R: Fn(&str) -> Option<String>>(
    rewrite: R,
    exports: Seq<(Seq<char>, Seq<char>)>,
    sources: Seq<ParsedSource>,
    answers: Seq<Option<Seq<char>>>,
) -> bool {
    &&& answers.len() == exports.len()
    &&& forall|i: int|
        0 <= i < exports.len() && command_source(sources, (#[trigger] exports[i]).1) is Some
            ==> rewrites(rewrite, exports[i].1, answers[i])
}

/// Whether `entries` is what the npm commands hold: the rewritten file under each command name, in
/// the order of the exports.
pub open spec fn commands_become<R: Fn(&str) -> Option<String>>(
    rewrite: R,
    package: Seq<char>,
    exports: Seq<(Seq<char>, Seq<char>)>,
    sources: Seq<ParsedSource>,
    entries: Seq<(Seq<char>, Seq<char>)>,
) -> bool {
    exists|answers: Seq<Option<Seq<char>>>| #[trigger]
        command_answers(rewrite, exports, sources, answers) && entries == commands(
            package,
            exports,
            sources,
            answers,
        )
}

/// The commands of a package: the rewritten file under each command name, in the order of the
/// exports.
pub fn create_npm_bin<R: Fn(&str) -> Option<String>>(
    package_name: &str,
    exports: &ExportsMap,
    sources: &ParsedSourceStore,
    rewrite: &R,
) -> (r: IndexMap<String, String>)
    requires
        rewrites_all(*rewrite),
        all_nameable(package_name@, exports@, sources.sources@),
    ensures
        commands_become(
            *rewrite,
            package_name@,
            exports@,
            sources.sources@,
            text_entries(r),
        ),
{
    let list = exports.iter();
    let mut npm_bin = new_text_map();
    let ghost mut answers: Seq<Option<Seq<char>>> = Seq::empty();
    let mut i: usize = 0;
    while i < list.len()
        invariant
            i <= list@.len() == exports@.len(),
            text_pairs_view(list@) == exports@,
            rewrites_all(*rewrite),
            forall|j: int|
                0 <= j < exports@.len() ==> nameable(
                    package_name@,
                    sources.sources@,
                    #[trigger] exports@[j],
                ),
            command_answers(*rewrite, exports@.take(i as int), sources.sources@, answers),
            text_entries(npm_bin) == commands(
                package_name@,
                exports@.take(i as int),
                sources.sources@,
                answers,
            ),
        decreases list@.len() - i,
    {
        let (key, path) = list[i];
        let ghost before = answers;
        let ghost mut answer: Option<Seq<char>> = None;
        assert(exports@[i as int] == (key@, path@)) by {
            assert(text_pairs_view(list@)[i as int] == (key@, path@));
        }
        assert(nameable(package_name@, sources.sources@, exports@[i as int]));
        assert(exports@.take(i + 1).drop_last() =~= exports@.take(i as int));
        if let Some(source) = find_command(sources, path.as_str()) {
            if let Some(name) = name_command(package_name, key.as_str(), source) {
                let rewritten = rewrite_with(rewrite, path.as_str());
                proof {
                    answer = opt_text(rewritten);
                }
                insert_text(&mut npm_bin, name, text_or(rewritten, path));
            }
        }
        proof {
            answers = answers.push(answer);
            assert(answers.drop_last() =~= before);
            assert forall|j: int|
                0 <= j < i + 1 && command_source(
                    sources.sources@,
                    (#[trigger] exports@.take(i + 1)[j]).1,
                ) is Some implies rewrites(
                *rewrite,
                exports@.take(i + 1)[j].1,
                answers[j],
            ) by {
                if j < i {
                    assert(exports@.take(i as int)[j] == exports@[j]);
                }
            }
        }
        i = i + 1;
    }
    assert(exports@.take(i as int) =~= exports@);
    assert(command_answers(*rewrite, exports@, sources.sources@, answers));
    npm_bin
}

/// Whether `failed` is the first export of which no command name can be told.
pub open spec fn unnameable(
    package: Seq<char>,
    exports: Seq<(Seq<char>, Seq<char>)>,
    sources: Seq<ParsedSource>,
    failed: int,
) -> bool {
    &&& 0 <= failed < exports.len()
    &&& !nameable(package, sources, exports[failed])
    &&& forall|j: int| 0 <= j < failed ==> nameable(package, sources, #[trigger] exports[j])
}

/// Whether the commands fail with `error`, for the first export of which no command name can be
/// told.
pub open spec fn command_fails(
    package: Seq<char>,
    exports: Seq<(Seq<char>, Seq<char>)>,
    sources: Seq<ParsedSource>,
    error: ErrorView,
) -> bool {
    exists|failed: int| #[trigger]
        unnameable(package, exports, sources, failed) && error == (ErrorView::InvalidExport {
            key: exports[failed].0,
        })
}

/// Checks that it can be told of every export which command it is, if it is one. Fails with the
/// first of which it cannot.
pub fn check_commands(package_name: &str, exports: &ExportsMap, sources: &ParsedSourceStore) -> (r:
    Result<(), NpmTarballError>)
    ensures
        match r {
            Ok(_) => all_nameable(package_name@, exports@, sources.sources@),
            Err(e) => command_fails(package_name@, exports@, sources.sources@, e@),
        },
{
    let list = exports.iter();
    let mut i: usize = 0;
    while i < list.len()
        invariant
            i <= list@.len() == exports@.len(),
            text_pairs_view(list@) == exports@,
            forall|j: int|
                0 <= j < i ==> nameable(package_name@, sources.sources@, #[trigger] exports@[j]),
        decreases list@.len() - i,
    {
        let (key, path) = list[i];
        assert(exports@[i as int] == (key@, path@)) by {
            assert(text_pairs_view(list@)[i as int] == (key@, path@));
        }
        let known = if skip_bytes(path.as_str(), 1).is_none() {
            false
        } else {
            match find_command(sources, path.as_str()) {
                Some(source) => name_command(package_name, key.as_str(), source).is_some(),
                None => true,
            }
        };
        if !known {
            assert(unnameable(package_name@, exports@, sources.sources@, i as int));
            return Err(NpmTarballError::InvalidExport { key: key.clone() });
        }
        i = i + 1;
    }
    Ok(())
}

/// The command that an export is, if it is one: its name, and its file as the answer has it, or as
/// it is where there is none.
pub open spec fn command(
    package: Seq<char>,
    sources: Seq<ParsedSource>,
    export: (Seq<char>, Seq<char>),
    answer: Option<Seq<char>>,
) -> Option<(Seq<char>, Seq<char>)> {
    match command_source(sources, export.1) {
        Some(source) => match command_name(package, export.0, source) {
            Some(name) => Some((name, or_text(answer, export.1))),
            None => None,
        },
        None => None,
    }
}

/// Whether an export is a command, and no later export is a command with the same name.
pub open spec fn offers(
    package: Seq<char>,
    exports: Seq<(Seq<char>, Seq<char>)>,
    sources: Seq<ParsedSource>,
    answers: Seq<Option<Seq<char>>>,
    i: int,
) -> bool {
    &&& 0 <= i < exports.len()
    &&& command(package, sources, exports[i], answers[i]) is Some
    &&& forall|j: int|
        i < j < exports.len() ==> match command(
            package,
            sources,
            #[trigger] exports[j],
            answers[j],
        ) {
            Some(later) => later.0 != (command(package, sources, exports[i], answers[i])->0).0,
            None => true,
        }
}

/// Whether `entry` is the last command with its name.
pub open spec fn offered(
    package: Seq<char>,
    exports: Seq<(Seq<char>, Seq<char>)>,
    sources: Seq<ParsedSource>,
    answers: Seq<Option<Seq<char>>>,
    entry: (Seq<char>, Seq<char>),
) -> bool {
    exists|i: int| #[trigger]
        offers(package, exports, sources, answers, i) && command(
            package,
            sources,
            exports[i],
            answers[i],
        ) == Some(entry)
}

/// The commands of a package are those that its exports are, each name once: of all with a name
/// the last one.
pub proof fn last_command_is_offered(
    package: Seq<char>,
    exports: Seq<(Seq<char>, Seq<char>)>,
    sources: Seq<ParsedSource>,
    answers: Seq<Option<Seq<char>>>,
    entry: (Seq<char>, Seq<char>),
)
    requires
        answers.len() == exports.len(),
    ensures
        commands(package, exports, sources, answers).contains(entry) == offered(
            package,
            exports,
            sources,
            answers,
            entry,
        ),
        distinct_keys(commands(package, exports, sources, answers)),
    decreases exports.len(),
{
    if exports.len() > 0 {
        let rest = exports.drop_last();
        let rest_answers = answers.drop_last();
        let n = exports.len() - 1;
        let last = command(package, sources, exports[n], answers[n]);
        last_command_is_offered(package, rest, sources, rest_answers, entry);
        let before = commands(package, rest, sources, rest_answers);
        if let Some(c) = last {
            put_changes_one_key(before, c.0, c.1);
            assert(offers(package, exports, sources, answers, n));
        }
        if last is None || (last->0).0 != entry.0 {
            if offered(package, rest, sources, rest_answers, entry) {
                let i = choose|i: int| #[trigger]
                    offers(package, rest, sources, rest_answers, i) && command(
                        package,
                        sources,
                        rest[i],
                        rest_answers[i],
                    ) == Some(entry);
                assert forall|j: int| i < j < exports.len() implies match command(
                    package,
                    sources,
                    #[trigger] exports[j],
                    answers[j],
                ) {
                    Some(later) => later.0 != entry.0,
                    None => true,
                } by {
                    if j < n {
                        assert(rest[j] == exports[j]);
                    }
                }
                assert(offers(package, exports, sources, answers, i));
            }
            if offered(package, exports, sources, answers, entry) {
                let i = choose|i: int| #[trigger]
                    offers(package, exports, sources, answers, i) && command(
                        package,
                        sources,
                        exports[i],
                        answers[i],
                    ) == Some(entry);
                assert(i < n);
                assert forall|j: int| i < j < rest.len() implies match command(
                    package,
                    sources,
                    #[trigger] rest[j],
                    rest_answers[j],
                ) {
                    Some(later) => later.0 != entry.0,
                    None => true,
                } by {
                    assert(rest[j] == exports[j]);
                }
                assert(offers(package, rest, sources, rest_answers, i));
            }
        } else if offered(package, exports, sources, answers, entry) {
            let i = choose|i: int| #[trigger]
                offers(package, exports, sources, answers, i) && command(
                    package,
                    sources,
                    exports[i],
                    answers[i],
                ) == Some(entry);
            assert(i == n) by {
                if i < n {
                    assert(exports[n] == exports.last());
                }
            }
        }
    }
}

/// Where `rewrite` has one answer about each file, the exports have one way to become commands.
pub proof fn commands_become_one_way<R: Fn(&str) -> Option<String>>(
    rewrite: R,
    package: Seq<char>,
    exports: Seq<(Seq<char>, Seq<char>)>,
    sources: Seq<ParsedSource>,
    a: Seq<(Seq<char>, Seq<char>)>,
    b: Seq<(Seq<char>, Seq<char>)>,
)
    requires
        rewrites_one_way(rewrite),
        commands_become(rewrite, package, exports, sources, a),
        commands_become(rewrite, package, exports, sources, b),
    ensures
        a == b,
{
    let x = choose|x: Seq<Option<Seq<char>>>| #[trigger]
        command_answers(rewrite, exports, sources, x) && a == commands(
            package,
            exports,
            sources,
            x,
        );
    let y = choose|y: Seq<Option<Seq<char>>>| #[trigger]
        command_answers(rewrite, exports, sources, y) && b == commands(
            package,
            exports,
            sources,
            y,
        );
    lemma_same_commands(rewrite, package, exports, sources, x, y);
}

/// The same answers make the same commands.
proof fn lemma_same_commands<R: Fn(&str) -> Option<String>>(
    rewrite: R,
    package: Seq<char>,
    exports: Seq<(Seq<char>, Seq<char>)>,
    sources: Seq<ParsedSource>,
    x: Seq<Option<Seq<char>>>,
    y: Seq<Option<Seq<char>>>,
)
    requires
        rewrites_one_way(rewrite),
        command_answers(rewrite, exports, sources, x),
        command_answers(rewrite, exports, sources, y),
    ensures
        commands(package, exports, sources, x) == commands(package, exports, sources, y),
    decreases exports.len(),
{
    if exports.len() > 0 {
        lemma_earlier_answers(rewrite, exports, sources, x);
        lemma_earlier_answers(rewrite, exports, sources, y);
        lemma_same_commands(
            rewrite,
            package,
            exports.drop_last(),
            sources,
            x.drop_last(),
            y.drop_last(),
        );
        assert(exports[exports.len() - 1] == exports.last());
    }
}

/// Answers about all exports are answers about all but the last.
proof fn lemma_earlier_answers<R: Fn(&str) -> Option<String>>(
    rewrite: R,
    exports: Seq<(Seq<char>, Seq<char>)>,
    sources: Seq<ParsedSource>,
    answers: Seq<Option<Seq<char>>>,
)
    requires
        exports.len() > 0,
        command_answers(rewrite, exports, sources, answers),
    ensures
        command_answers(rewrite, exports.drop_last(), sources, answers.drop_last()),
{
    let rest = exports.drop_last();
    assert forall|i: int|
        0 <= i < rest.len() && command_source(sources, (#[trigger] rest[i]).1) is Some implies
        rewrites(rewrite, rest[i].1, answers.drop_last()[i]) by {
        assert(rest[i] == exports[i]);
    }
}

/// Whether a command is an export: its name is that of the command which the export is, and its file
/// the one that the npm exports hold for it.
pub open spec fn is_export(
    package: Seq<char>,
    exports: Seq<(Seq<char>, Seq<char>)>,
    sources: Seq<ParsedSource>,
    npm_exports: Seq<(Seq<char>, Seq<char>)>,
    entry: (Seq<char>, Seq<char>),
    i: int,
) -> bool {
    &&& 0 <= i < exports.len()
    &&& match command_source(sources, exports[i].1) {
        Some(source) => source.has_shebang && command_name(package, exports[i].0, source) == Some(
            entry.0,
        ),
        None => false,
    }
    &&& npm_exports[i] == (exports[i].0, entry.1)
}

/// Every command is an export, with the file that the npm exports hold for it, and there are no more
/// commands than exports.
pub proof fn commands_are_exports<R: Fn(&str) -> Option<String>>(
    rewrite: R,
    package: Seq<char>,
    exports: Seq<(Seq<char>, Seq<char>)>,
    sources: Seq<ParsedSource>,
    npm_exports: Seq<(Seq<char>, Seq<char>)>,
    entries: Seq<(Seq<char>, Seq<char>)>,
)
    requires
        rewrites_one_way(rewrite),
        exports_become(rewrite, exports, npm_exports),
        commands_become(rewrite, package, exports, sources, entries),
    ensures
        forall|entry: (Seq<char>, Seq<char>)| #[trigger]
            entries.contains(entry) ==> exists|i: int| #[trigger]
                is_export(package, exports, sources, npm_exports, entry, i),
        entries.len() <= npm_exports.len(),
{
    let answers = choose|answers: Seq<Option<Seq<char>>>| #[trigger]
        command_answers(rewrite, exports, sources, answers) && entries == commands(
            package,
            exports,
            sources,
            answers,
        );
    assert forall|entry: (Seq<char>, Seq<char>)| #[trigger] entries.contains(entry) implies exists|
        i: int,
    | #[trigger] is_export(package, exports, sources, npm_exports, entry, i) by {
        last_command_is_offered(package, exports, sources, answers, entry);
        let i = choose|i: int| #[trigger]
            offers(package, exports, sources, answers, i) && command(
                package,
                sources,
                exports[i],
                answers[i],
            ) == Some(entry);
        assert(rewrites(rewrite, exports[i].1, answers[i]));
        assert(exported_as(rewrite, exports[i], npm_exports[i]));
        assert(is_export(package, exports, sources, npm_exports, entry, i));
    }
    lemma_commands_len(package, exports, sources, answers);
}

/// There are no more commands than exports.
proof fn lemma_commands_len(
    package: Seq<char>,
    exports: Seq<(Seq<char>, Seq<char>)>,
    sources: Seq<ParsedSource>,
    answers: Seq<Option<Seq<char>>>,
)
    ensures
        commands(package, exports, sources, answers).len() <= exports.len(),
    decreases exports.len(),
{
    if exports.len() > 0 {
        lemma_commands_len(package, exports.drop_last(), sources, answers.drop_last());
    }
}

/// Whether a comment, once the white space before it is gone, does not begin with `@jsrBin=`.
pub open spec fn nameless(comment: Seq<char>) -> bool {
    forall|before: Seq<char>, rest: Seq<char>|
        blank(before) ==> comment != #[trigger] (before + "@jsrBin="@ + rest)
}

/// A nameless comment gives no name.
proof fn lemma_nameless(comment: Seq<char>)
    requires
        nameless(comment),
    ensures
        comment_name(comment) is None,
{
    if comment_name(comment) is Some {
        let tag = "@jsrBin="@;
        let (before, after) = trimmed_stands_between(comment);
        let name = trim(comment).skip(tag.len() as int);
        assert(trim(comment) =~= tag + name) by {
            assert forall|i: int| 0 <= i < tag.len() implies trim(comment)[i] == tag[i] by {
                assert(tag =~= trim(comment).subrange(0, tag.len() as int));
            }
        }
        assert(comment =~= before + tag + (name + after));
    }
}

/// A comment that begins and ends with white space at most gives what follows `@jsrBin=`.
proof fn lemma_naming(
    comment: Seq<char>,
    before: Seq<char>,
    name: Seq<char>,
    after: Seq<char>,
)
    requires
        comment == before + "@jsrBin="@ + name + after,
        blank(before),
        blank(after),
        name.len() == 0 || !white_space(name.last()),
    ensures
        comment_name(comment) == Some(name),
{
    reveal_strlit("@jsrBin=");
    let tag = "@jsrBin="@;
    let inner = tag + name;
    assert(comment =~= before + inner + after);
    assert(inner[0] == '@');
    assert(inner.last() == (if name.len() == 0 {
        '='
    } else {
        name.last()
    }));
    trimming_takes_white_space(before, inner, after);
    assert(tag =~= inner.subrange(0, tag.len() as int));
    assert(inner.skip(tag.len() as int) =~= name);
}

/// The first naming comment of a group gives its name.
proof fn lemma_group_name(comments: Seq<String>, c: int)
    requires
        0 <= c < comments.len(),
        comment_name(comments[c]@) is Some,
        forall|q: int| 0 <= q < c ==> comment_name((#[trigger] comments[q])@) is None,
    ensures
        group_name(comments) == comment_name(comments[c]@),
    decreases c,
{
    if c > 0 {
        let rest = comments.drop_first();
        assert(comment_name(comments[0]@) is None);
        assert forall|q: int| 0 <= q < c - 1 implies comment_name(
            (#[trigger] rest[q])@,
        ) is None by {
            assert(rest[q] == comments[q + 1]);
        }
        lemma_group_name(rest, c - 1);
    }
}

/// A group without a naming comment gives no name.
proof fn lemma_no_group_name(comments: Seq<String>)
    requires
        forall|q: int|
            0 <= q < comments.len() ==> comment_name((#[trigger] comments[q])@) is None,
    ensures
        group_name(comments) is None,
    decreases comments.len(),
{
    if comments.len() > 0 {
        let rest = comments.drop_first();
        assert(comment_name(comments[0]@) is None);
        assert forall|q: int| 0 <= q < rest.len() implies comment_name(
            (#[trigger] rest[q])@,
        ) is None by {
            assert(rest[q] == comments[q + 1]);
        }
        lemma_no_group_name(rest);
    }
}

/// The first group with a naming comment gives its name.
proof fn lemma_groups_name(groups: Seq<Vec<String>>, g: int)
    requires
        0 <= g < groups.len(),
        group_name(groups[g]@) is Some,
        forall|p: int| 0 <= p < g ==> group_name((#[trigger] groups[p])@) is None,
    ensures
        groups_name(groups) == group_name(groups[g]@),
    decreases g,
{
    if g > 0 {
        let rest = groups.drop_first();
        assert(group_name(groups[0]@) is None);
        assert forall|p: int| 0 <= p < g - 1 implies group_name((#[trigger] rest[p])@) is None by {
            assert(rest[p] == groups[p + 1]);
        }
        lemma_groups_name(rest, g - 1);
    }
}

/// Groups without a naming comment give no name.
proof fn lemma_no_groups_name(groups: Seq<Vec<String>>)
    requires
        forall|p: int| 0 <= p < groups.len() ==> group_name((#[trigger] groups[p])@) is None,
    ensures
        groups_name(groups) is None,
    decreases groups.len(),
{
    if groups.len() > 0 {
        let rest = groups.drop_first();
        assert(group_name(groups[0]@) is None);
        assert forall|p: int| 0 <= p < rest.len() implies group_name(
            (#[trigger] rest[p])@,
        ) is None by {
            assert(rest[p] == groups[p + 1]);
        }
        lemma_no_groups_name(rest);
    }
}

/// Whether the comment `c` of the group `g` of a source is the first that begins, behind white space,
/// with `@jsrBin=`, and `name` is what follows up to the white space at its end.
pub open spec fn first_naming(
    source: ParsedSource,
    g: int,
    c: int,
    before: Seq<char>,
    name: Seq<char>,
    after: Seq<char>,
) -> bool {
    let groups = source.leading_comments@;
    &&& 0 <= g < groups.len()
    &&& 0 <= c < groups[g]@.len()
    &&& groups[g]@[c]@ == before + "@jsrBin="@ + name + after
    &&& blank(before)
    &&& blank(after)
    &&& name.len() == 0 || !white_space(name.last())
    &&& forall|q: int| 0 <= q < c ==> nameless((#[trigger] groups[g]@[q])@)
    &&& forall|p: int, q: int|
        0 <= p < g && 0 <= q < groups[p]@.len() ==> nameless((#[trigger] groups[p]@[q])@)
}

/// Whether no comment of a source begins, behind white space, with `@jsrBin=`.
pub open spec fn none_naming(source: ParsedSource) -> bool {
    let groups = source.leading_comments@;
    forall|p: int, q: int|
        0 <= p < groups.len() && 0 <= q < groups[p]@.len() ==> nameless(
            (#[trigger] groups[p]@[q])@,
        )
}

/// The first naming comment names the command, whatever it is exported under.
pub proof fn comments_come_first(
    package: Seq<char>,
    key: Seq<char>,
    source: ParsedSource,
    g: int,
    c: int,
    before: Seq<char>,
    name: Seq<char>,
    after: Seq<char>,
)
    requires
        first_naming(source, g, c, before, name, after),
    ensures
        command_name(package, key, source) == Some(name),
{
    let groups = source.leading_comments@;
    lemma_naming(groups[g]@[c]@, before, name, after);
    assert forall|q: int| 0 <= q < c implies comment_name((#[trigger] groups[g]@[q])@) is None by {
        lemma_nameless(groups[g]@[q]@);
    }
    lemma_group_name(groups[g]@, c);
    assert forall|p: int| 0 <= p < g implies group_name((#[trigger] groups[p])@) is None by {
        assert forall|q: int| 0 <= q < groups[p]@.len() implies comment_name(
            (#[trigger] groups[p]@[q])@,
        ) is None by {
            lemma_nameless(groups[p]@[q]@);
        }
        lemma_no_group_name(groups[p]@);
    }
    lemma_groups_name(groups, g);
}

/// Without a naming comment the main export is named after the package.
pub proof fn main_command_is_the_package(package: Seq<char>, source: ParsedSource)
    requires
        none_naming(source),
    ensures
        command_name(package, "."@, source) == Some(package),
{
    lemma_none_naming(source);
}

/// Without a naming comment any other export is named after the package and what follows the first
/// two bytes of its own name, with hyphens for slashes.
pub proof fn other_commands_are_hyphenated(
    package: Seq<char>,
    head: Seq<char>,
    rest: Seq<char>,
    slug: Seq<char>,
    source: ParsedSource,
)
    requires
        none_naming(source),
        head + rest != "."@,
        encode_utf8(head).len() == 2,
        slug.len() == rest.len(),
        forall|i: int|
            0 <= i < rest.len() ==> #[trigger] slug[i] == (if rest[i] == '/' {
                '-'
            } else {
                rest[i]
            }),
    ensures
        command_name(package, head + rest, source) == Some(package + "-"@ + slug),
{
    lemma_none_naming(source);
    skipped_bytes_are_characters(head, rest);
    slashes_become_hyphens(rest);
    assert(hyphenate(rest) =~= slug);
}

/// Comments that do not name give no name.
proof fn lemma_none_naming(source: ParsedSource)
    requires
        none_naming(source),
    ensures
        groups_name(source.leading_comments@) is None,
{
    let groups = source.leading_comments@;
    assert forall|p: int| 0 <= p < groups.len() implies group_name(
        (#[trigger] groups[p])@,
    ) is None by {
        assert forall|q: int| 0 <= q < groups[p]@.len() implies comment_name(
            (#[trigger] groups[p]@[q])@,
        ) is None by {
            lemma_nameless(groups[p]@[q]@);
        }
        lemma_no_group_name(groups[p]@);
    }
    lemma_no_groups_name(groups);
}

/// Whether the export `path` is a command: behind its first byte, which is a character of its own,
/// it is the path of a `file` address, and `sources[k]` is the first source with that address and
/// begins with an interpreter line.
pub open spec fn runs(
    sources: Seq<ParsedSource>,
    path: Seq<char>,
    first: char,
    rest: Seq<char>,
    k: int,
) -> bool {
    &&& path == seq![first] + rest
    &&& (first as u32) < 0x80
    &&& 0 <= k < sources.len()
    &&& parsed_url("file://"@ + rest) == Some(sources[k].specifier@)
    &&& sources[k].has_shebang
    &&& forall|j: int|
        0 <= j < k ==> (#[trigger] sources[j]).specifier@ != sources[k].specifier@
}

/// A path behind a character of one byte.
proof fn lemma_behind_first(first: char, rest: Seq<char>)
    requires
        (first as u32) < 0x80,
    ensures
        after_bytes(seq![first] + rest, 1) == Some(rest),
{
    let head = seq![first];
    is_ascii_chars_encode_utf8(head);
    skipped_bytes_are_characters(head, rest);
}

/// An export that runs is a command.
proof fn lemma_runs(
    sources: Seq<ParsedSource>,
    path: Seq<char>,
    first: char,
    rest: Seq<char>,
    k: int,
)
    requires
        runs(sources, path, first, rest, k),
    ensures
        command_source(sources, path) == Some(sources[k]),
{
    lemma_behind_first(first, rest);
    first_source_is_found(sources, sources[k].specifier@, k);
}

/// A command is offered under its name, with the file that `f` gives for it, or its own where `f`
/// gives nothing, or with that of a later export.
pub proof fn commands_are_offered<R: Fn(&str) -> Option<String>>(
    rewrite: R,
    f: spec_fn(Seq<char>) -> Option<Seq<char>>,
    package: Seq<char>,
    exports: Seq<(Seq<char>, Seq<char>)>,
    sources: Seq<ParsedSource>,
    entries: Seq<(Seq<char>, Seq<char>)>,
    i: int,
    first: char,
    rest: Seq<char>,
    k: int,
    name: Seq<char>,
) -> (j: int)
    requires
        rewrites_as(rewrite, f),
        commands_become(rewrite, package, exports, sources, entries),
        0 <= i < exports.len(),
        runs(sources, exports[i].1, first, rest, k),
        command_name(package, exports[i].0, sources[k]) == Some(name),
    ensures
        i <= j < exports.len(),
        entries.contains(
            (
                name,
                match f(exports[j].1) {
                    Some(file) => file,
                    None => exports[j].1,
                },
            ),
        ),
{
    let answers = choose|answers: Seq<Option<Seq<char>>>| #[trigger]
        command_answers(rewrite, exports, sources, answers) && entries == commands(
            package,
            exports,
            sources,
            answers,
        );
    lemma_runs(sources, exports[i].1, first, rest, k);
    lemma_offered(rewrite, f, package, exports, sources, answers, i, sources[k], name)
}

/// A command is offered, unless a later one takes its place.
proof fn lemma_offered<R: Fn(&str) -> Option<String>>(
    rewrite: R,
    f: spec_fn(Seq<char>) -> Option<Seq<char>>,
    package: Seq<char>,
    exports: Seq<(Seq<char>, Seq<char>)>,
    sources: Seq<ParsedSource>,
    answers: Seq<Option<Seq<char>>>,
    i: int,
    source: ParsedSource,
    name: Seq<char>,
) -> (j: int)
    requires
        rewrites_as(rewrite, f),
        command_answers(rewrite, exports, sources, answers),
        0 <= i < exports.len(),
        command_source(sources, exports[i].1) == Some(source),
        command_name(package, exports[i].0, source) == Some(name),
    ensures
        i <= j < exports.len(),
        commands(package, exports, sources, answers).contains(
            (
                name,
                match f(exports[j].1) {
                    Some(file) => file,
                    None => exports[j].1,
                },
            ),
        ),
    decreases exports.len(),
{
    let n = exports.len() - 1;
    let before = commands(package, exports.drop_last(), sources, answers.drop_last());
    let last = exports[n];
    if command_source(sources, last.1) is Some {
        assert(rewrites(rewrite, last.1, answers[n]));
        assert(answers[n] == f(last.1));
    }
    if i == n {
        put_changes_one_key(before, name, or_text(answers[n], last.1));
        n
    } else {
        lemma_earlier_answers(rewrite, exports, sources, answers);
        let j = lemma_offered(
            rewrite,
            f,
            package,
            exports.drop_last(),
            sources,
            answers.drop_last(),
            i,
            source,
            name,
        );
        assert(exports.drop_last()[j] == exports[j]);
        match command_source(sources, last.1) {
            Some(other) => match command_name(package, last.0, other) {
                Some(taken) => {
                    put_changes_one_key(before, taken, or_text(answers[n], last.1));
                    if taken == name {
                        n
                    } else {
                        j
                    }
                },
                None => j,
            },
            None => j,
        }
    }
}

/// A command that a comment names is offered under that name, whatever it is exported under.
pub proof fn commented_commands_are_offered<R: Fn(&str) -> Option<String>>(
    rewrite: R,
    f: spec_fn(Seq<char>) -> Option<Seq<char>>,
    package: Seq<char>,
    exports: Seq<(Seq<char>, Seq<char>)>,
    sources: Seq<ParsedSource>,
    entries: Seq<(Seq<char>, Seq<char>)>,
    i: int,
    first: char,
    rest: Seq<char>,
    k: int,
    g: int,
    c: int,
    before: Seq<char>,
    name: Seq<char>,
    after: Seq<char>,
) -> (j: int)
    requires
        rewrites_as(rewrite, f),
        commands_become(rewrite, package, exports, sources, entries),
        0 <= i < exports.len(),
        runs(sources, exports[i].1, first, rest, k),
        first_naming(sources[k], g, c, before, name, after),
    ensures
        i <= j < exports.len(),
        entries.contains(
            (
                name,
                match f(exports[j].1) {
                    Some(file) => file,
                    None => exports[j].1,
                },
            ),
        ),
{
    comments_come_first(package, exports[i].0, sources[k], g, c, before, name, after);
    commands_are_offered(
        rewrite,
        f,
        package,
        exports,
        sources,
        entries,
        i,
        first,
        rest,
        k,
        name,
    )
}

/// A command that no comment names is offered under the name of the package, if it is the main
/// export, and else under the name of the package and what follows the first two bytes of the name
/// it is exported under, with hyphens for slashes.
pub proof fn uncommented_commands_are_offered<R: Fn(&str) -> Option<String>>(
    rewrite: R,
    f: spec_fn(Seq<char>) -> Option<Seq<char>>,
    package: Seq<char>,
    exports: Seq<(Seq<char>, Seq<char>)>,
    sources: Seq<ParsedSource>,
    entries: Seq<(Seq<char>, Seq<char>)>,
    i: int,
    first: char,
    rest: Seq<char>,
    k: int,
    head: Seq<char>,
    tail: Seq<char>,
    slug: Seq<char>,
    name: Seq<char>,
) -> (j: int)
    requires
        rewrites_as(rewrite, f),
        commands_become(rewrite, package, exports, sources, entries),
        0 <= i < exports.len(),
        runs(sources, exports[i].1, first, rest, k),
        none_naming(sources[k]),
        if exports[i].0 == "."@ {
            name == package
        } else {
            &&& exports[i].0 == head + tail
            &&& encode_utf8(head).len() == 2
            &&& slug.len() == tail.len()
            &&& forall|x: int|
                0 <= x < tail.len() ==> #[trigger] slug[x] == (if tail[x] == '/' {
                    '-'
                } else {
                    tail[x]
                })
            &&& name == package + "-"@ + slug
        },
    ensures
        i <= j < exports.len(),
        entries.contains(
            (
                name,
                match f(exports[j].1) {
                    Some(file) => file,
                    None => exports[j].1,
                },
            ),
        ),
{
    if exports[i].0 == "."@ {
        main_command_is_the_package(package, sources[k]);
    } else {
        other_commands_are_hyphenated(package, head, tail, slug, sources[k]);
    }
    commands_are_offered(
        rewrite,
        f,
        package,
        exports,
        sources,
        entries,
        i,
        first,
        rest,
        k,
        name,
    )
}

/// Whatever is offered is an export that runs, under its name, with the file that `f` gives for it,
/// or its own where `f` gives nothing.
pub proof fn only_commands_are_offered<R: Fn(&str) -> Option<String>>(
    rewrite: R,
    f: spec_fn(Seq<char>) -> Option<Seq<char>>,
    package: Seq<char>,
    exports: Seq<(Seq<char>, Seq<char>)>,
    sources: Seq<ParsedSource>,
    entries: Seq<(Seq<char>, Seq<char>)>,
    entry: (Seq<char>, Seq<char>),
) -> (r: (int, char, Seq<char>, int))
    requires
        rewrites_as(rewrite, f),
        commands_become(rewrite, package, exports, sources, entries),
        entries.contains(entry),
    ensures
        0 <= r.0 < exports.len(),
        runs(sources, exports[r.0].1, r.1, r.2, r.3),
        command_name(package, exports[r.0].0, sources[r.3]) == Some(entry.0),
        entry.1 == match f(exports[r.0].1) {
            Some(file) => file,
            None => exports[r.0].1,
        },
{
    let answers = choose|answers: Seq<Option<Seq<char>>>| #[trigger]
        command_answers(rewrite, exports, sources, answers) && entries == commands(
            package,
            exports,
            sources,
            answers,
        );
    last_command_is_offered(package, exports, sources, answers, entry);
    let i = choose|i: int| #[trigger]
        offers(package, exports, sources, answers, i) && command(
            package,
            sources,
            exports[i],
            answers[i],
        ) == Some(entry);
    let path = exports[i].1;
    assert(rewrites(rewrite, path, answers[i]));
    let rest = after_bytes(path, 1)->0;
    let head = rest_stands_behind(path, 1);
    lemma_one_byte(head);
    let url = parsed_url("file://"@ + rest)->0;
    found_source_is_first(sources, url);
    let source = find_source(sources, url)->0;
    let k = choose|k: int|
        {
            &&& 0 <= k < sources.len()
            &&& #[trigger] sources[k] == source
            &&& source.specifier@ == url
            &&& forall|j: int| 0 <= j < k ==> (#[trigger] sources[j]).specifier@ != url
        };
    assert(path =~= seq![head[0]] + rest);
    (i, head[0], rest, k)
}

/// One byte is one character of seven bits.
proof fn lemma_one_byte(head: Seq<char>)
    requires
        encode_utf8(head).len() == 1,
    ensures
        head.len() == 1,
        (head[0] as u32) < 0x80,
{
    let rest = head.drop_first();
    assert(encode_utf8(head).len() == encode_scalar(head[0] as u32).len() + encode_utf8(
        rest,
    ).len());
    if rest.len() > 0 {
        assert(encode_scalar(rest[0] as u32).len() >= 1);
    }
}

/// It can be told of an export which command it is if its first byte is a character of its own and,
/// where it runs, it has a name.
pub proof fn exports_can_be_told(
    package: Seq<char>,
    sources: Seq<ParsedSource>,
    export: (Seq<char>, Seq<char>),
    first: char,
    rest: Seq<char>,
)
    requires
        export.1 == seq![first] + rest,
        (first as u32) < 0x80,
        forall|k: int| #[trigger]
            runs(sources, export.1, first, rest, k) ==> command_name(
                package,
                export.0,
                sources[k],
            ) is Some,
    ensures
        nameable(package, sources, export),
{
    lemma_behind_first(first, rest);
    if command_source(sources, export.1) is Some {
        let url = parsed_url("file://"@ + rest)->0;
        found_source_is_first(sources, url);
        let source = find_source(sources, url)->0;
        let k = choose|k: int|
            {
                &&& 0 <= k < sources.len()
                &&& #[trigger] sources[k] == source
                &&& source.specifier@ == url
                &&& forall|j: int| 0 <= j < k ==> (#[trigger] sources[j]).specifier@ != url
            };
        assert(runs(sources, export.1, first, rest, k));
    }
}

/// Without a naming comment an export whose name does not begin with characters of two bytes has no
/// command name, but for the main one.
pub proof fn short_exports_have_no_name(package: Seq<char>, key: Seq<char>, source: ParsedSource)
    requires
        none_naming(source),
        key != "."@,
        forall|head: Seq<char>, rest: Seq<char>|
            encode_utf8(head).len() == 2 ==> key != #[trigger] (head + rest),
    ensures
        command_name(package, key, source) is None,
{
    lemma_none_naming(source);
    if after_bytes(key, 2) is Some {
        let head = rest_stands_behind(key, 2);
        assert(key == head + after_bytes(key, 2)->0);
    }
}

/// What can be told of an export begins with a character of one byte and, where it runs, has a
/// command name.
pub proof fn told_exports(
    package: Seq<char>,
    sources: Seq<ParsedSource>,
    export: (Seq<char>, Seq<char>),
)
    requires
        nameable(package, sources, export),
    ensures
        export.1.len() > 0,
        (export.1[0] as u32) < 0x80,
        forall|first: char, rest: Seq<char>, k: int| #[trigger]
            runs(sources, export.1, first, rest, k) ==> command_name(
                package,
                export.0,
                sources[k],
            ) is Some,
{
    let head = rest_stands_behind(export.1, 1);
    lemma_one_byte(head);
    assert(export.1[0] == head[0]);
    assert forall|first: char, rest: Seq<char>, k: int| #[trigger]
        runs(sources, export.1, first, rest, k) implies command_name(
        package,
        export.0,
        sources[k],
    ) is Some by {
        lemma_runs(sources, export.1, first, rest, k);
    }
}

/// The commands fail with the name of the first export of which nothing can be told.
pub proof fn first_untold_export_fails(
    package: Seq<char>,
    exports: Seq<(Seq<char>, Seq<char>)>,
    sources: Seq<ParsedSource>,
    error: ErrorView,
    i: int,
)
    requires
        command_fails(package, exports, sources, error),
        0 <= i < exports.len(),
        !nameable(package, sources, exports[i]),
        forall|j: int| 0 <= j < i ==> nameable(package, sources, #[trigger] exports[j]),
    ensures
        error == (ErrorView::InvalidExport { key: exports[i].0 }),
{
    let failed = choose|failed: int| #[trigger]
        unnameable(package, exports, sources, failed) && error == (ErrorView::InvalidExport {
            key: exports[failed].0,
        });
    if i < failed {
        assert(nameable(package, sources, exports[i]));
    }
}

/// A command keeps its file where no later export is a command of the same name.
pub proof fn last_commands_keep_their_files<R: Fn(&str) -> Option<String>>(
    rewrite: R,
    f: spec_fn(Seq<char>) -> Option<Seq<char>>,
    package: Seq<char>,
    exports: Seq<(Seq<char>, Seq<char>)>,
    sources: Seq<ParsedSource>,
    entries: Seq<(Seq<char>, Seq<char>)>,
    i: int,
    first: char,
    rest: Seq<char>,
    k: int,
    name: Seq<char>,
)
    requires
        rewrites_as(rewrite, f),
        commands_become(rewrite, package, exports, sources, entries),
        0 <= i < exports.len(),
        runs(sources, exports[i].1, first, rest, k),
        command_name(package, exports[i].0, sources[k]) == Some(name),
        forall|j: int, c: char, r: Seq<char>, l: int|
            i < j < exports.len() && #[trigger] runs(sources, exports[j].1, c, r, l)
                ==> command_name(package, exports[j].0, sources[l]) != Some(name),
    ensures
        entries.contains(
            (
                name,
                match f(exports[i].1) {
                    Some(file) => file,
                    None => exports[i].1,
                },
            ),
        ),
{
    let answers = choose|answers: Seq<Option<Seq<char>>>| #[trigger]
        command_answers(rewrite, exports, sources, answers) && entries == commands(
            package,
            exports,
            sources,
            answers,
        );
    lemma_runs(sources, exports[i].1, first, rest, k);
    assert(rewrites(rewrite, exports[i].1, answers[i]));
    let entry = (name, or_text(answers[i], exports[i].1));
    assert forall|j: int| i < j < exports.len() implies match command(
        package,
        sources,
        #[trigger] exports[j],
        answers[j],
    ) {
        Some(later) => later.0 != name,
        None => true,
    } by {
        if command_source(sources, exports[j].1) is Some {
            let (c, r, l) = lemma_runs_back(sources, exports[j].1);
            assert(runs(sources, exports[j].1, c, r, l));
        }
    }
    assert(offers(package, exports, sources, answers, i));
    last_command_is_offered(package, exports, sources, answers, entry);
}

/// A command is an export that runs.
proof fn lemma_runs_back(sources: Seq<ParsedSource>, path: Seq<char>) -> (r: (
    char,
    Seq<char>,
    int,
))
    requires
        command_source(sources, path) is Some,
    ensures
        runs(sources, path, r.0, r.1, r.2),
        command_source(sources, path) == Some(sources[r.2]),
{
    let rest = after_bytes(path, 1)->0;
    let head = rest_stands_behind(path, 1);
    lemma_one_byte(head);
    let url = parsed_url("file://"@ + rest)->0;
    found_source_is_first(sources, url);
    let source = find_source(sources, url)->0;
    let k = choose|k: int|
        {
            &&& 0 <= k < sources.len()
            &&& #[trigger] sources[k] == source
            &&& source.specifier@ == url
            &&& forall|j: int| 0 <= j < k ==> (#[trigger] sources[j]).specifier@ != url
        };
    assert(path =~= seq![head[0]] + rest);
    (head[0], rest, k)
}

/// Further exports leave the commands of those before them in their order.
pub proof fn commands_come_in_order<R: Fn(&str) -> Option<String>>(
    rewrite: R,
    package: Seq<char>,
    exports: Seq<(Seq<char>, Seq<char>)>,
    sources: Seq<ParsedSource>,
    n: int,
    earlier: Seq<(Seq<char>, Seq<char>)>,
    entries: Seq<(Seq<char>, Seq<char>)>,
)
    requires
        0 <= n <= exports.len(),
        commands_become(rewrite, package, exports.take(n), sources, earlier),
        commands_become(rewrite, package, exports, sources, entries),
    ensures
        earlier.len() <= entries.len(),
        forall|i: int| 0 <= i < earlier.len() ==> (#[trigger] entries[i]).0 == earlier[i].0,
{
    let x = choose|x: Seq<Option<Seq<char>>>| #[trigger]
        command_answers(rewrite, exports.take(n), sources, x) && earlier == commands(
            package,
            exports.take(n),
            sources,
            x,
        );
    let y = choose|y: Seq<Option<Seq<char>>>| #[trigger]
        command_answers(rewrite, exports, sources, y) && entries == commands(
            package,
            exports,
            sources,
            y,
        );
    lemma_keys_stay(package, exports, sources, n, x, y);
}

/// The names of commands do not depend on the answers.
proof fn lemma_same_keys(
    package: Seq<char>,
    exports: Seq<(Seq<char>, Seq<char>)>,
    sources: Seq<ParsedSource>,
    x: Seq<Option<Seq<char>>>,
    y: Seq<Option<Seq<char>>>,
)
    requires
        x.len() == exports.len(),
        y.len() == exports.len(),
    ensures
        ({
            let a = commands(package, exports, sources, x);
            let b = commands(package, exports, sources, y);
            a.len() == b.len() && forall|i: int|
                0 <= i < a.len() ==> (#[trigger] a[i]).0 == b[i].0
        }),
    decreases exports.len(),
{
    if exports.len() > 0 {
        lemma_same_keys(package, exports.drop_last(), sources, x.drop_last(), y.drop_last());
        let a = commands(package, exports.drop_last(), sources, x.drop_last());
        let b = commands(package, exports.drop_last(), sources, y.drop_last());
        let (key, path) = exports.last();
        if let Some(source) = command_source(sources, path) {
            if let Some(name) = command_name(package, key, source) {
                if has_key(a, name) {
                    let i = choose|i: int| 0 <= i < a.len() && (#[trigger] a[i]).0 == name;
                    assert(b[i].0 == name);
                }
                if has_key(b, name) {
                    let i = choose|i: int| 0 <= i < b.len() && (#[trigger] b[i]).0 == name;
                    assert(a[i].0 == name);
                }
            }
        }
    }
}

/// The names of the commands of the first exports stay where they are.
proof fn lemma_keys_stay(
    package: Seq<char>,
    exports: Seq<(Seq<char>, Seq<char>)>,
    sources: Seq<ParsedSource>,
    n: int,
    x: Seq<Option<Seq<char>>>,
    y: Seq<Option<Seq<char>>>,
)
    requires
        0 <= n <= exports.len(),
        x.len() == n,
        y.len() == exports.len(),
    ensures
        ({
            let a = commands(package, exports.take(n), sources, x);
            let b = commands(package, exports, sources, y);
            a.len() <= b.len() && forall|i: int|
                0 <= i < a.len() ==> (#[trigger] b[i]).0 == a[i].0
        }),
    decreases exports.len(),
{
    if n == exports.len() {
        assert(exports.take(n) =~= exports);
        lemma_same_keys(package, exports, sources, x, y);
    } else {
        assert(exports.drop_last().take(n) =~= exports.take(n));
        lemma_keys_stay(package, exports.drop_last(), sources, n, x, y.drop_last());
    }
}

} // verus!
