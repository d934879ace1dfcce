//! Positions in a text, and the specifiers that are rewritten there.

use npm_tarball::emit::rewrite_script;
use npm_tarball::rewrite::rewrite_source;
use npm_tarball::source::{
    characters, find_range, is_countable, is_located, to_range, DependencyDescriptor, DynamicArgument,
    ParsedSource, Position, PositionRange,
};

fn range(start: (usize, usize), end: (usize, usize)) -> PositionRange {
    PositionRange {
        start: Position { line: start.0, character: start.1 },
        end: Position { line: end.0, character: end.1 },
    }
}

fn imported(specifier: &str, range: PositionRange) -> DependencyDescriptor {
    DependencyDescriptor::Static { specifier: specifier.to_string(), specifier_range: range }
}

fn loaded(argument: DynamicArgument, range: PositionRange) -> DependencyDescriptor {
    DependencyDescriptor::Dynamic { argument, argument_range: range }
}

fn source(text: &str, dependencies: Vec<DependencyDescriptor>) -> ParsedSource {
    ParsedSource {
        specifier: "file:///a.js".to_string(),
        text: text.to_string(),
        has_shebang: false,
        leading_comments: vec![],
        dependencies,
    }
}

fn rewrite(specifier: &str) -> Option<String> {
    specifier.strip_prefix("npm:").map(|name| name.to_string())
}

#[test]
fn quotation_marks_are_left_out() {
    let text = "import \"a\"; import 'bc'; import(x);";
    assert_eq!(to_range(text, &range((0, 7), (0, 10))), 8..9);
    assert_eq!(to_range(text, &range((0, 19), (0, 23))), 20..22);
    assert_eq!(to_range(text, &range((0, 32), (0, 33))), 32..33);
    assert_eq!(to_range(text, &range((0, 7), (0, 9))), 8..9);
    assert_eq!(to_range(text, &range((0, 8), (0, 10))), 8..9);
    assert_eq!(to_range(text, &range((0, 8), (0, 8))), 8..8);
    assert_eq!(to_range("\"\"", &range((0, 0), (0, 2))), 1..1);
}

#[test]
fn positions_count_characters() {
    let text = "ä\u{20ac}\u{1f980}b\r\nx'ä'\n\ny";
    assert_eq!(to_range(text, &range((0, 0), (0, 1))), 0..2);
    assert_eq!(to_range(text, &range((0, 1), (0, 2))), 2..5);
    assert_eq!(to_range(text, &range((0, 2), (0, 3))), 5..9);
    assert_eq!(to_range(text, &range((0, 3), (0, 4))), 9..10);
    // Past the end of a line, before its line break.
    assert_eq!(to_range(text, &range((0, 4), (0, 9))), 10..10);
    assert_eq!(to_range(text, &range((1, 0), (1, 1))), 12..13);
    assert_eq!(to_range(text, &range((1, 1), (1, 4))), 14..16);
    assert_eq!(to_range(text, &range((2, 0), (3, 0))), 18..19);
    assert_eq!(to_range(text, &range((3, 0), (3, 7))), 19..20);
}

#[test]
fn answers_take_the_place_of_specifiers() {
    let text = "import \"a\";\nimport('ä');\nexport * from \"c\";";
    let s = source(text, vec![
        imported("a", range((0, 7), (0, 10))),
        loaded(DynamicArgument::String("ä".to_string()), range((1, 7), (1, 10))),
        imported("c", range((2, 14), (2, 17))),
    ]);
    let some = |t: &str| Some(t.to_string());
    assert_eq!(
        rewrite_source(&s, &vec![some("longer"), some(""), some("ü")]),
        "import \"longer\";\nimport('');\nexport * from \"ü\";"
    );
    assert_eq!(
        rewrite_source(&s, &vec![None, some("b"), None]),
        "import \"a\";\nimport('b');\nexport * from \"c\";"
    );
    assert_eq!(rewrite_source(&s, &vec![None, None, None]), text);
    assert_eq!(rewrite_source(&s, &vec![some("a"), some("ä"), some("c")]), text);
}

#[test]
fn the_order_of_dependencies_does_not_matter() {
    let text = "import 'a'; import 'b';";
    let s = source(text, vec![
        imported("b", range((0, 19), (0, 22))),
        imported("a", range((0, 7), (0, 10))),
    ]);
    let answers = vec![Some("second".to_string()), Some("first".to_string())];
    assert_eq!(rewrite_source(&s, &answers), "import 'first'; import 'second';");
}

#[test]
fn only_written_specifiers_are_rewritten() {
    let text = "import 'npm:a'; import('npm:b'); import(`npm:c`); import(npm); import './d';";
    let s = source(text, vec![
        imported("npm:a", range((0, 7), (0, 14))),
        loaded(DynamicArgument::String("npm:b".to_string()), range((0, 23), (0, 30))),
        loaded(DynamicArgument::Template, range((0, 40), (0, 47))),
        loaded(DynamicArgument::Expr, range((0, 57), (0, 60))),
        imported("./d", range((0, 70), (0, 75))),
    ]);
    assert_eq!(
        rewrite_script(&s, &rewrite),
        "import 'a'; import('b'); import(`npm:c`); import(npm); import './d';"
    );
}

#[test]
fn positions_are_in_the_text_or_not() {
    let text = "a\u{20ac}b\r\n\nx";
    let at = |line: usize, character: usize| is_located(text, Position { line, character });
    assert!(at(0, 0));
    assert!(at(0, 4));
    assert!(at(1, 0));
    assert!(at(2, 99));
    assert!(!at(3, 0));
    assert!(!at(0, usize::MAX));
    assert!(is_located("", Position { line: 0, character: 0 }));
    assert!(!is_located("", Position { line: 1, character: 0 }));
    assert_eq!(characters(text), text.chars().collect::<Vec<_>>());
}

#[test]
fn found_ranges_are_those_of_the_text() {
    let text = "import 'a';\nimport \"b\";";
    for r in [range((0, 7), (0, 10)), range((1, 7), (1, 10)), range((0, 0), (1, 99))] {
        assert_eq!(find_range(text, &r), Some(to_range(text, &r)));
    }
    assert_eq!(find_range(text, &range((1, 0), (0, 3))), None);
    assert_eq!(find_range(text, &range((0, 0), (2, 0))), None);
    assert_eq!(find_range("\u{feff}x", &range((0, 0), (0, 1))), None);
    assert!(is_countable("x\u{feff}"));
    assert!(!is_countable("\u{feff}x"));
}

#[test]
fn specifiers_have_places_of_their_own() {
    let text = "import 'a'; import 'b';";
    let at = |ranges: &[PositionRange]| {
        let dependencies = ranges.iter().map(|r| imported("x", *r)).collect();
        source(text, dependencies).is_well_formed()
    };
    assert!(at(&[]));
    assert!(at(&[range((0, 7), (0, 10)), range((0, 19), (0, 22))]));
    assert!(at(&[range((0, 19), (0, 22)), range((0, 7), (0, 10))]));
    assert!(!at(&[range((0, 7), (0, 10)), range((0, 7), (0, 10))]));
    assert!(!at(&[range((0, 6), (0, 12)), range((0, 7), (0, 10))]));
    assert!(!at(&[range((0, 7), (1, 0))]));
    // A quotation mark alone has no inside.
    assert!(!at(&[range((0, 7), (0, 8))]));
    let expr = loaded(DynamicArgument::Expr, range((9, 9), (9, 9)));
    assert!(source(text, vec![expr]).is_well_formed());
}
