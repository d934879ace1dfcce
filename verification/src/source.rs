//! Parsed sources, what they import, and places in their texts.

use std::ops::Range;

use vstd::prelude::*;
use vstd::utf8::{
    encode_utf8, encode_utf8_first_scalar, encode_utf8_valid_utf8, is_char_boundary,
    pop_first_scalar,
};

use crate::text::same_text;

verus! {

/// A place in a text: a line and a character in it, both counted from zero.
#[derive(Clone, Copy, Debug, PartialEq, Eq, Structural)]
pub struct Position {
    pub line: usize,
    pub character: usize,
}

/// A stretch of a text.
#[derive(Clone, Copy, Debug, PartialEq, Eq, Structural)]
pub struct PositionRange {
    pub start: Position,
    pub end: Position,
}

/// What a dynamic import loads.
#[derive(Debug)]
pub enum DynamicArgument {
    /// A fixed specifier.
    String(String),
    /// A template.
    Template,
    /// Some other expression.
    Expr,
}

/// An import or export statement, or a dynamic import, with the place of what it loads.
#[derive(Debug)]
pub enum DependencyDescriptor {
    Static { specifier: String, specifier_range: PositionRange },
    Dynamic { argument: DynamicArgument, argument_range: PositionRange },
}

impl DependencyDescriptor {
    /// The specifier that is written down, if it is.
    pub open spec fn specifier_text(self) -> Option<Seq<char>> {
        match self {
            DependencyDescriptor::Static { specifier, .. } => Some(specifier@),
            DependencyDescriptor::Dynamic { argument: DynamicArgument::String(s), .. } => Some(s@),
            DependencyDescriptor::Dynamic { .. } => None,
        }
    }

    /// The place of what is loaded.
    pub open spec fn place(self) -> PositionRange {
        match self {
            DependencyDescriptor::Static { specifier_range, .. } => specifier_range,
            DependencyDescriptor::Dynamic { argument_range, .. } => argument_range,
        }
    }

    /// The specifier that is written down, if it is.
    pub fn specifier(&self) -> (r: Option<&String>)
        ensures
            match r {
                Some(s) => self.specifier_text() == Some(s@),
                None => self.specifier_text() is None,
            },
    {
        match self {
            DependencyDescriptor::Static { specifier, .. } => Some(specifier),
            DependencyDescriptor::Dynamic { argument, .. } => match argument {
                DynamicArgument::String(s) => Some(s),
                DynamicArgument::Template => None,
                DynamicArgument::Expr => None,
            },
        }
    }

    /// The place of what is loaded.
    pub fn range(&self) -> (r: PositionRange)
        ensures
            r == self.place(),
    {
        match self {
            DependencyDescriptor::Static { specifier_range, .. } => *specifier_range,
            DependencyDescriptor::Dynamic { argument_range, .. } => *argument_range,
        }
    }
}

/// A parsed source.
#[derive(Debug)]
pub struct ParsedSource {
    /// The address of the source.
    pub specifier: String,
    /// The text.
    pub text: String,
    /// Whether the text begins with an interpreter line.
    pub has_shebang: bool,
    /// The comments that stand before something, in groups.
    pub leading_comments: Vec<Vec<String>>,
    /// What the source imports.
    pub dependencies: Vec<DependencyDescriptor>,
}

/// The first source with the given address.
pub open spec fn find_source(sources: Seq<ParsedSource>, specifier: Seq<char>) -> Option<
    ParsedSource,
>
    decreases sources.len(),
{
    if sources.len() == 0 {
        None
    } else if sources[0].specifier@ == specifier {
        Some(sources[0])
    } else {
        find_source(sources.drop_first(), specifier)
    }
}

/// The sources that are at hand.
#[derive(Debug)]
pub struct ParsedSourceStore {
    pub sources: Vec<ParsedSource>,
}

impl ParsedSourceStore {
    /// The source with the given address.
    pub fn get_parsed_source(&self, specifier: &str) -> (r: Option<&ParsedSource>)
        ensures
            match r {
                Some(source) => find_source(self.sources@, specifier@) == Some(*source),
                None => find_source(self.sources@, specifier@) is None,
            },
    {
        let mut i: usize = 0;
        assert(self.sources@.skip(0) =~= self.sources@);
        while i < self.sources.len()
            invariant
                i <= self.sources@.len(),
                find_source(self.sources@, specifier@) == find_source(
                    self.sources@.skip(i as int),
                    specifier@,
                ),
            decreases self.sources@.len() - i,
        {
            if same_text(self.sources[i].specifier.as_str(), specifier) {
                return Some(&self.sources[i]);
            }
            assert(self.sources@.skip(i as int).drop_first() =~= self.sources@.skip(i + 1));
            i = i + 1;
        }
        None
    }
}

/// The next line break in `text` from `from` on, or the end of the text.
pub open spec fn next_break(text: Seq<char>, from: int) -> int
    decreases text.len() - from,
{
    if from >= text.len() || text[from] == '\n' {
        from
    } else {
        next_break(text, from + 1)
    }
}

/// Where a line begins.
pub open spec fn line_start(text: Seq<char>, line: nat) -> int
    decreases line,
{
    if line == 0 {
        0
    } else {
        next_break(text, line_start(text, (line - 1) as nat)) + 1
    }
}

/// Whether `text` has a line of this number.
pub open spec fn has_line(text: Seq<char>, line: nat) -> bool
    decreases line,
{
    line == 0 || (has_line(text, (line - 1) as nat) && next_break(
        text,
        line_start(text, (line - 1) as nat),
    ) < text.len())
}

/// Where a line ends: before its line break, which may be two characters.
pub open spec fn line_end(text: Seq<char>, line: nat) -> int {
    let start = line_start(text, line);
    let end = next_break(text, start);
    if start < end < text.len() && text[end - 1] == '\r' {
        end - 1
    } else {
        end
    }
}

/// How many characters stand before a position. Past the end of a line, the line's end counts.
pub open spec fn offset(text: Seq<char>, position: Position) -> int {
    let start = line_start(text, position.line as nat);
    let end = line_end(text, position.line as nat);
    if start + position.character < end {
        start + position.character
    } else {
        end
    }
}

/// How many bytes stand before a position.
pub open spec fn byte_offset(text: Seq<char>, position: Position) -> int {
    encode_utf8(text.take(offset(text, position))).len() as int
}

/// Whether a text is one that positions can be counted in: not too long, and without a byte order
/// mark.
pub open spec fn countable(text: Seq<char>) -> bool {
    &&& encode_utf8(text).len() < u32::MAX
    &&& (text.len() == 0 || text[0] != '\u{feff}')
}

/// Whether a position is in the text.
pub open spec fn located(text: Seq<char>, position: Position) -> bool {
    &&& has_line(text, position.line as nat)
    &&& encode_utf8(text).len() + position.character <= usize::MAX
}

/// `deno_graph::PositionRange::as_source_range` with `SourceRange::as_byte_range`: the bytes of a
/// text between two positions.
#[verifier::external_body]
fn as_byte_range(text: &str, range: &PositionRange) -> (r: Range<usize>)
    requires
        countable(text@),
        located(text@, range.start),
        located(text@, range.end),
    ensures
        r.start == byte_offset(text@, range.start),
        r.end == byte_offset(text@, range.end),
{
    let info = deno_ast::SourceTextInfo::from_string(text.to_owned());
    let start = deno_graph::Position { line: range.start.line, character: range.start.character };
    let end = deno_graph::Position { line: range.end.line, character: range.end.character };
    deno_graph::PositionRange { start, end }.as_source_range(&info).as_byte_range(info.range().start)
}

/// The characters of a text.
pub fn characters(text: &str) -> (r: Vec<char>)
    ensures
        r@ == text@,
{
    let mut r: Vec<char> = Vec::new();
    for c in iter: text.chars()
        invariant
            iter.seq() == text@,
            r@ == text@.take(iter.index() as int),
    {
        r.push(c);
        assert(text@.take(iter.index() + 1) =~= text@.take(iter.index() as int).push(c));
    }
    assert(text@.take(text@.len() as int) =~= text@);
    r
}

/// The next line break from `from` on, or the end of the text.
fn find_break(chars: &Vec<char>, from: usize) -> (r: usize)
    requires
        from <= chars@.len(),
    ensures
        r == next_break(chars@, from as int),
        from <= r <= chars@.len(),
{
    let mut i: usize = from;
    while i < chars.len() && chars[i] != '\n'
        invariant
            from <= i <= chars@.len(),
            next_break(chars@, from as int) == next_break(chars@, i as int),
        decreases chars@.len() - i,
    {
        i = i + 1;
    }
    i
}

/// Whether a position is in the text.
pub fn is_located(text: &str, position: Position) -> (r: bool)
    ensures
        r == located(text@, position),
{
    if position.character > usize::MAX - text.as_bytes().len() {
        return false;
    }
    let chars = characters(text);
    let mut start: usize = 0;
    let mut line: usize = 0;
    while line < position.line
        invariant
            chars@ == text@,
            line <= position.line,
            start <= chars@.len(),
            has_line(text@, line as nat),
            start == line_start(text@, line as nat),
        decreases position.line - line,
    {
        let end: usize = find_break(&chars, start);
        if end == chars.len() {
            proof {
                if has_line(text@, position.line as nat) {
                    lemma_earlier_line(text@, line as nat + 1, position.line as nat);
                }
            }
            return false;
        }
        start = end + 1;
        line = line + 1;
    }
    true
}

/// A text that has a line has the lines before it.
proof fn lemma_earlier_line(text: Seq<char>, line: nat, later: nat)
    requires
        line <= later,
        has_line(text, later),
    ensures
        has_line(text, line),
    decreases later,
{
    if line < later {
        lemma_earlier_line(text, line, (later - 1) as nat);
    }
}

/// Whether a text is one that positions can be counted in.
pub fn is_countable(text: &str) -> (r: bool)
    ensures
        r == countable(text@),
{
    if text.as_bytes().len() >= 0xffff_ffff {
        return false;
    }
    text.unicode_len() == 0 || text.get_char(0) != '\u{feff}'
}

/// Whether a byte is a quotation mark.
pub open spec fn quotation_mark(b: u8) -> bool {
    b == 0x22 || b == 0x27
}

/// Where the inside of a quoted stretch of bytes begins.
pub open spec fn inner_start(bytes: Seq<u8>, start: int, end: int) -> int {
    if start < end && quotation_mark(bytes[start]) {
        start + 1
    } else {
        start
    }
}

/// Where the inside of a quoted stretch of bytes ends.
pub open spec fn inner_end(bytes: Seq<u8>, start: int, end: int) -> int {
    if start < end && quotation_mark(bytes[end - 1]) {
        end - 1
    } else {
        end
    }
}

/// Whether a range lies in a text, its start not behind its end.
pub open spec fn within(text: Seq<char>, range: PositionRange) -> bool {
    &&& countable(text)
    &&& located(text, range.start)
    &&& located(text, range.end)
    &&& byte_offset(text, range.start) <= byte_offset(text, range.end)
}

/// The bytes of a range of a text, without the quotation mark at either end.
pub open spec fn inner_range(text: Seq<char>, range: PositionRange) -> (int, int) {
    let bytes = encode_utf8(text);
    let start = byte_offset(text, range.start);
    let end = byte_offset(text, range.end);
    (inner_start(bytes, start, end), inner_end(bytes, start, end))
}

/// A stretch of the bytes of a text, without the quotation mark at either end.
fn without_quotes(text: &str, bounds: Range<usize>) -> (r: Range<usize>)
    requires
        bounds.start <= bounds.end <= encode_utf8(text@).len(),
    ensures
        r.start == inner_start(encode_utf8(text@), bounds.start as int, bounds.end as int),
        r.end == inner_end(encode_utf8(text@), bounds.start as int, bounds.end as int),
{
    let bytes = text.as_bytes();
    let mut start: usize = bounds.start;
    let mut end: usize = bounds.end;
    if bounds.start < bounds.end {
        let first: u8 = bytes[bounds.start];
        let last: u8 = bytes[bounds.end - 1];
        if first == 0x22 || first == 0x27 {
            start = start + 1;
        }
        if last == 0x22 || last == 0x27 {
            end = end - 1;
        }
    }
    start..end
}

/// The bytes of a range of a text, without the quotation mark at either end.
pub fn to_range(text: &str, range: &PositionRange) -> (r: Range<usize>)
    requires
        within(text@, *range),
    ensures
        (r.start as int, r.end as int) == inner_range(text@, *range),
{
    proof {
        lemma_offset_in_text(text@, range.end);
    }
    without_quotes(text, as_byte_range(text, range))
}

/// The bytes of a range of a text, without the quotation mark at either end, if the range lies in
/// the text.
pub fn find_range(text: &str, range: &PositionRange) -> (r: Option<Range<usize>>)
    ensures
        match r {
            Some(inner) => within(text@, *range) && (inner.start as int, inner.end as int)
                == inner_range(text@, *range),
            None => !within(text@, *range),
        },
{
    if !is_countable(text) || !is_located(text, range.start) || !is_located(text, range.end) {
        return None;
    }
    let bounds = as_byte_range(text, range);
    if bounds.start > bounds.end {
        return None;
    }
    proof {
        lemma_offset_in_text(text@, range.end);
    }
    Some(without_quotes(text, bounds))
}

/// A line of a text begins and ends in the text.
proof fn lemma_line_in_text(text: Seq<char>, line: nat)
    requires
        has_line(text, line),
    ensures
        0 <= line_start(text, line) <= line_end(text, line) <= text.len(),
    decreases line,
{
    if line > 0 {
        let before = line_start(text, (line - 1) as nat);
        lemma_line_in_text(text, (line - 1) as nat);
        lemma_next_break(text, before);
    }
    lemma_next_break(text, line_start(text, line));
}

/// The next line break is not before where the search begins.
proof fn lemma_next_break(text: Seq<char>, from: int)
    requires
        0 <= from <= text.len(),
    ensures
        from <= next_break(text, from) <= text.len(),
    decreases text.len() - from,
{
    if from < text.len() && text[from] != '\n' {
        lemma_next_break(text, from + 1);
    }
}

/// A position counts no more bytes than the text has, and stands between two characters.
pub(crate) proof fn lemma_offset_in_text(text: Seq<char>, position: Position)
    requires
        located(text, position),
    ensures
        0 <= byte_offset(text, position) <= encode_utf8(text).len(),
        is_char_boundary(encode_utf8(text), byte_offset(text, position)),
{
    lemma_line_in_text(text, position.line as nat);
    lemma_prefix_boundary(text, offset(text, position));
}

/// The first `n` characters of a text end between two characters.
proof fn lemma_prefix_boundary(text: Seq<char>, n: int)
    requires
        0 <= n <= text.len(),
    ensures
        encode_utf8(text.take(n)).len() <= encode_utf8(text).len(),
        is_char_boundary(encode_utf8(text), encode_utf8(text.take(n)).len() as int),
    decreases n,
{
    encode_utf8_valid_utf8(text);
    if n > 0 {
        let bytes = encode_utf8(text);
        let rest = text.drop_first();
        encode_utf8_first_scalar(text);
        lemma_prefix_boundary(rest, n - 1);
        assert(text.take(n).drop_first() =~= rest.take(n - 1));
        assert(pop_first_scalar(bytes) =~= encode_utf8(rest));
    }
}

/// A source is found under its address, and it is the first that has the address.
pub proof fn first_source_is_found(sources: Seq<ParsedSource>, specifier: Seq<char>, k: int)
    requires
        0 <= k < sources.len(),
        sources[k].specifier@ == specifier,
        forall|j: int| 0 <= j < k ==> (#[trigger] sources[j]).specifier@ != specifier,
    ensures
        find_source(sources, specifier) == Some(sources[k]),
    decreases k,
{
    if k > 0 {
        assert(sources[0].specifier@ != specifier);
        let rest = sources.drop_first();
        assert forall|j: int| 0 <= j < k - 1 implies (#[trigger] rest[j]).specifier@
            != specifier by {
            assert(rest[j] == sources[j + 1]);
        }
        first_source_is_found(rest, specifier, k - 1);
    }
}

/// What is found is a source with the address, before which no other has it. Where nothing is found,
/// no source has it.
pub proof fn found_source_is_first(sources: Seq<ParsedSource>, specifier: Seq<char>)
    ensures
        match find_source(sources, specifier) {
            Some(source) => exists|k: int|
                {
                    &&& 0 <= k < sources.len()
                    &&& #[trigger] sources[k] == source
                    &&& source.specifier@ == specifier
                    &&& forall|j: int|
                        0 <= j < k ==> (#[trigger] sources[j]).specifier@ != specifier
                },
            None => forall|j: int|
                0 <= j < sources.len() ==> (#[trigger] sources[j]).specifier@ != specifier,
        },
    decreases sources.len(),
{
    if sources.len() > 0 && sources[0].specifier@ != specifier {
        let rest = sources.drop_first();
        found_source_is_first(rest, specifier);
        match find_source(sources, specifier) {
            Some(source) => {
                let k = choose|k: int|
                    {
                        &&& 0 <= k < rest.len()
                        &&& #[trigger] rest[k] == source
                        &&& source.specifier@ == specifier
                        &&& forall|j: int|
                            0 <= j < k ==> (#[trigger] rest[j]).specifier@ != specifier
                    };
                assert(sources[k + 1] == source);
                assert forall|j: int| 0 <= j < k + 1 implies (#[trigger] sources[j]).specifier@
                    != specifier by {
                    if j > 0 {
                        assert(sources[j] == rest[j - 1]);
                    }
                }
            },
            None => {
                assert forall|j: int| 0 <= j < sources.len() implies (
                #[trigger] sources[j]).specifier@ != specifier by {
                    if j > 0 {
                        assert(sources[j] == rest[j - 1]);
                    }
                }
            },
        }
    }
}

/// A specifier is written down where something is imported or exported by name, and where a string
/// is loaded; its place is that of the name or of the string.
pub proof fn written_specifiers(dependency: DependencyDescriptor)
    ensures
        match dependency {
            DependencyDescriptor::Static { specifier, specifier_range } => {
                &&& dependency.specifier_text() == Some(specifier@)
                &&& dependency.place() == specifier_range
            },
            DependencyDescriptor::Dynamic { argument, argument_range } => {
                &&& dependency.place() == argument_range
                &&& match argument {
                    DynamicArgument::String(specifier) => dependency.specifier_text() == Some(
                        specifier@,
                    ),
                    DynamicArgument::Template => dependency.specifier_text() is None,
                    DynamicArgument::Expr => dependency.specifier_text() is None,
                }
            },
        },
{
}

/// The inside of a range is all of it but a quotation mark at its start and one at its end.
pub proof fn quotation_marks_stay_outside(text: Seq<char>, range: PositionRange)
    ensures
        ({
            let bytes = encode_utf8(text);
            let start = byte_offset(text, range.start);
            let end = byte_offset(text, range.end);
            let inner = inner_range(text, range);
            &&& start >= end ==> inner == (start, end)
            &&& start < end && (bytes[start] == 0x22 || bytes[start] == 0x27) ==> inner.0 == start
                + 1
            &&& start < end && bytes[start] != 0x22 && bytes[start] != 0x27 ==> inner.0 == start
            &&& start < end && (bytes[end - 1] == 0x22 || bytes[end - 1] == 0x27) ==> inner.1 == end
                - 1
            &&& start < end && bytes[end - 1] != 0x22 && bytes[end - 1] != 0x27 ==> inner.1 == end
        }),
{
}

/// A text has a first line; it has a further line for each line break, and no more. Behind a line
/// break the lines are those of the rest.
pub proof fn lines_end_at_breaks(before: Seq<char>, after: Seq<char>, line: nat)
    requires
        forall|i: int| 0 <= i < before.len() ==> #[trigger] before[i] != '\n',
    ensures
        has_line(before, 0),
        line > 0 ==> !has_line(before, line),
        has_line(before + seq!['\n'] + after, line + 1) == has_line(after, line),
        line_start(before + seq!['\n'] + after, line + 1) == before.len() + 1 + line_start(
            after,
            line,
        ),
    decreases line,
{
    let text = before + seq!['\n'] + after;
    let n = before.len() as int;
    reveal_with_fuel(has_line, 2);
    reveal_with_fuel(line_start, 2);
    lemma_no_break(before, 0);
    lemma_break_at(text, n, 0);
    if line > 0 {
        let earlier = (line - 1) as nat;
        lines_end_at_breaks(before, after, earlier);
        lemma_line_start(after, earlier);
        lemma_break_behind(text, after, n + 1, line_start(after, earlier));
        assert(line_start(text, (line + 1) as nat) == next_break(text, line_start(text, line)) + 1);
    }
}

/// Where there is no line break, the next one is the end.
proof fn lemma_no_break(text: Seq<char>, from: int)
    requires
        0 <= from <= text.len(),
        forall|i: int| 0 <= i < text.len() ==> #[trigger] text[i] != '\n',
    ensures
        next_break(text, from) == text.len(),
    decreases text.len() - from,
{
    if from < text.len() {
        lemma_no_break(text, from + 1);
    }
}

/// The next line break is the first.
proof fn lemma_break_at(text: Seq<char>, at: int, from: int)
    requires
        0 <= from <= at < text.len(),
        text[at] == '\n',
        forall|i: int| 0 <= i < at ==> #[trigger] text[i] != '\n',
    ensures
        next_break(text, from) == at,
    decreases at - from,
{
    if from < at {
        lemma_break_at(text, at, from + 1);
    }
}

/// A line does not begin before the text does.
proof fn lemma_line_start(text: Seq<char>, line: nat)
    ensures
        line_start(text, line) >= 0,
    decreases line,
{
    if line > 0 {
        lemma_line_start(text, (line - 1) as nat);
        lemma_break_not_before(text, line_start(text, (line - 1) as nat));
    }
}

/// The next line break is not before where the search begins.
proof fn lemma_break_not_before(text: Seq<char>, from: int)
    ensures
        next_break(text, from) >= from,
    decreases text.len() - from,
{
    if from < text.len() && text[from] != '\n' {
        lemma_break_not_before(text, from + 1);
    }
}

/// The line breaks of a text that ends another are that many characters further behind.
proof fn lemma_break_behind(text: Seq<char>, after: Seq<char>, n: int, from: int)
    requires
        0 <= n,
        0 <= from,
        text.len() == n + after.len(),
        forall|i: int| 0 <= i < after.len() ==> #[trigger] after[i] == text[n + i],
    ensures
        next_break(text, n + from) == n + next_break(after, from),
    decreases after.len() - from,
{
    if from < after.len() && after[from] != '\n' {
        lemma_break_behind(text, after, n, from + 1);
    }
}

/// A position is in a text if the text has its line, whatever the character, as far as the numbers go.
pub proof fn positions_on_lines_are_located(text: Seq<char>, position: Position)
    requires
        encode_utf8(text).len() + position.character <= usize::MAX,
    ensures
        located(text, position) == has_line(text, position.line as nat),
{
}

/// Positions can be counted in every text of less than four gigabytes that does not begin with a
/// byte order mark.
pub proof fn texts_can_be_counted_in(text: Seq<char>)
    requires
        encode_utf8(text).len() < 0xffff_ffff,
        text.len() > 0 ==> text[0] != '\u{feff}',
    ensures
        countable(text),
{
}

} // verus!
