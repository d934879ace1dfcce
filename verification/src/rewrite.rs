//! The rewriting of the specifiers that a source imports.

use std::ops::Range;

use vstd::prelude::*;
use vstd::seq_lib::{
    to_multiset_build, to_multiset_contains, to_multiset_len, to_multiset_remove,
};
use vstd::utf8::{
    encode_utf8, encode_utf8_valid_utf8, is_char_boundary,
    is_char_boundary_iff_not_is_continuation_byte, is_continuation_byte, pop_first_scalar,
    valid_utf8,
};

use crate::source::{
    byte_offset, countable, find_range, has_line, inner_range, lemma_offset_in_text, located, to_range, within,
    written_specifiers, DependencyDescriptor, DynamicArgument, ParsedSource, PositionRange,
};
use crate::text::{opt_text, opt_texts};

verus! {

/// A stretch of bytes of a text, and what takes its place.
#[derive(Debug)]
pub struct TextEdit {
    pub start: usize,
    pub end: usize,
    pub new_text: String,
}

/// An edit by its numbers and the bytes that it puts in.
pub struct EditView {
    pub start: int,
    pub end: int,
    pub bytes: Seq<u8>,
}

impl View for TextEdit {
    type V = EditView;

    open spec fn view(&self) -> EditView {
        EditView {
            start: self.start as int,
            end: self.end as int,
            bytes: encode_utf8(self.new_text@),
        }
    }
}

/// Edits by their views.
pub open spec fn edits_view(edits: Seq<TextEdit>) -> Seq<EditView> {
    edits.map_values(|e: TextEdit| e@)
}

/// Whether two edits touch different bytes.
pub open spec fn apart(a: EditView, b: EditView) -> bool {
    a.end <= b.start || b.end <= a.start
}

/// Whether an edit replaces whole characters of a text.
pub open spec fn fits(bytes: Seq<u8>, e: EditView) -> bool {
    &&& 0 <= e.start <= e.end <= bytes.len()
    &&& is_char_boundary(bytes, e.start)
    &&& is_char_boundary(bytes, e.end)
}

/// Whether edits replace whole characters of a text, no character twice.
pub open spec fn applicable(bytes: Seq<u8>, edits: Seq<EditView>) -> bool {
    &&& forall|i: int| 0 <= i < edits.len() ==> fits(bytes, #[trigger] edits[i])
    &&& forall|i: int, j: int|
        0 <= i < j < edits.len() ==> apart(#[trigger] edits[i], #[trigger] edits[j])
}

/// Puts an edit behind those that do not begin later, or begin there and do not end later.
pub open spec fn insert_edit(edits: Seq<EditView>, e: EditView) -> Seq<EditView>
    decreases edits.len(),
{
    if edits.len() == 0 || edits.last().start < e.start || (edits.last().start == e.start
        && edits.last().end <= e.end) {
        edits.push(e)
    } else {
        insert_edit(edits.drop_last(), e).push(edits.last())
    }
}

/// The edits in the order of the text; those of the same bytes stay in their order.
pub open spec fn in_order(edits: Seq<EditView>) -> Seq<EditView>
    decreases edits.len(),
{
    if edits.len() == 0 {
        edits
    } else {
        insert_edit(in_order(edits.drop_last()), edits.last())
    }
}

/// The bytes from `from` on, with edits, given in order, made.
pub open spec fn spliced(bytes: Seq<u8>, from: int, edits: Seq<EditView>) -> Seq<u8>
    decreases edits.len(),
{
    if edits.len() == 0 {
        bytes.skip(from)
    } else {
        bytes.subrange(from, edits[0].start) + edits[0].bytes + spliced(
            bytes,
            edits[0].end,
            edits.drop_first(),
        )
    }
}

/// `deno_ast::apply_text_changes`: the text with every edit made.
#[verifier::external_body]
fn apply_edits(text: &str, edits: Vec<TextEdit>) -> (r: String)
    requires
        applicable(encode_utf8(text@), edits_view(edits@)),
    ensures
        encode_utf8(r@) == spliced(encode_utf8(text@), 0, in_order(edits_view(edits@))),
{
    let changes = edits.into_iter().map(
        |e| deno_ast::TextChange::new(e.start, e.end, e.new_text),
    ).collect();
    deno_ast::apply_text_changes(text, changes)
}

/// The edit that puts `answer` in the place of what `dependency` loads.
pub open spec fn specifier_edit(
    text: Seq<char>,
    dependency: DependencyDescriptor,
    answer: Seq<char>,
) -> EditView {
    let range = inner_range(text, dependency.place());
    EditView { start: range.0, end: range.1, bytes: encode_utf8(answer) }
}

/// The edits that put each answer in the place of the specifier that it is for.
pub open spec fn specifier_edits(
    text: Seq<char>,
    dependencies: Seq<DependencyDescriptor>,
    answers: Seq<Option<Seq<char>>>,
) -> Seq<EditView>
    decreases dependencies.len(),
{
    if dependencies.len() == 0 {
        seq![]
    } else {
        let before = specifier_edits(text, dependencies.drop_last(), answers.drop_last());
        match answers.last() {
            Some(answer) if dependencies.last().specifier_text() is Some => before.push(
                specifier_edit(text, dependencies.last(), answer),
            ),
            _ => before,
        }
    }
}

/// The bytes of a source whose specifiers are rewritten to the answers, where there is one.
pub open spec fn rewritten(source: ParsedSource, answers: Seq<Option<Seq<char>>>) -> Seq<u8> {
    spliced(
        encode_utf8(source.text@),
        0,
        in_order(specifier_edits(source.text@, source.dependencies@, answers)),
    )
}

impl ParsedSource {
    /// Whether every specifier that is written down has a place in the text, no two the same.
    pub open spec fn well_formed(self) -> bool {
        &&& forall|i: int|
            0 <= i < self.dependencies@.len() && (
            #[trigger] self.dependencies@[i]).specifier_text() is Some ==> {
                let range = inner_range(self.text@, self.dependencies@[i].place());
                within(self.text@, self.dependencies@[i].place()) && range.0 <= range.1
            }
        &&& forall|i: int, j: int|
            0 <= i < j < self.dependencies@.len() && (
            #[trigger] self.dependencies@[i]).specifier_text() is Some && (
            #[trigger] self.dependencies@[j]).specifier_text() is Some ==> {
                let a = inner_range(self.text@, self.dependencies@[i].place());
                let b = inner_range(self.text@, self.dependencies@[j].place());
                a.1 <= b.0 || b.1 <= a.0
            }
    }

    /// Whether every specifier that is written down has a place in the text, no two the same.
    pub fn is_well_formed(&self) -> (r: bool)
        ensures
            r == self.well_formed(),
    {
        // The place of each specifier so far.
        let mut ranges: Vec<Option<Range<usize>>> = Vec::new();
        let mut i: usize = 0;
        while i < self.dependencies.len()
            invariant
                i <= self.dependencies@.len(),
                ranges@.len() == i,
                forall|k: int|
                    0 <= k < i ==> match #[trigger] ranges@[k] {
                        Some(range) => {
                            let d = self.dependencies@[k];
                            &&& d.specifier_text() is Some
                            &&& within(self.text@, d.place())
                            &&& (range.start as int, range.end as int) == inner_range(
                                self.text@,
                                d.place(),
                            )
                            &&& range.start <= range.end
                        },
                        None => self.dependencies@[k].specifier_text() is None,
                    },
                forall|k: int, l: int|
                    0 <= k < l < i ==> match (#[trigger] ranges@[k], #[trigger] ranges@[l]) {
                        (Some(a), Some(b)) => a.end <= b.start || b.end <= a.start,
                        _ => true,
                    },
            decreases self.dependencies@.len() - i,
        {
            if self.dependencies[i].specifier().is_none() {
                ranges.push(None);
                i = i + 1;
                continue ;
            }
            let range = match find_range(self.text.as_str(), &self.dependencies[i].range()) {
                Some(range) => range,
                None => {
                    assert(!within(self.text@, self.dependencies@[i as int].place()));
                    return false;
                },
            };
            if range.start > range.end {
                assert(self.dependencies@[i as int].specifier_text() is Some);
                return false;
            }
            let mut k: usize = 0;
            while k < i
                invariant
                    k <= i < self.dependencies@.len(),
                    ranges@.len() == i,
                    self.dependencies@[i as int].specifier_text() is Some,
                    (range.start as int, range.end as int) == inner_range(
                        self.text@,
                        self.dependencies@[i as int].place(),
                    ),
                    forall|l: int|
                        0 <= l < i ==> match #[trigger] ranges@[l] {
                            Some(a) => {
                                let d = self.dependencies@[l];
                                &&& d.specifier_text() is Some
                                &&& (a.start as int, a.end as int) == inner_range(
                                    self.text@,
                                    d.place(),
                                )
                            },
                            None => self.dependencies@[l].specifier_text() is None,
                        },
                    forall|l: int|
                        0 <= l < k ==> match #[trigger] ranges@[l] {
                            Some(a) => a.end <= range.start || range.end <= a.start,
                            None => true,
                        },
                decreases i - k,
            {
                if let Some(other) = &ranges[k] {
                    if other.end > range.start && range.end > other.start {
                        assert(self.dependencies@[k as int].specifier_text() is Some);
                        return false;
                    }
                }
                k = k + 1;
            }
            ranges.push(Some(range));
            i = i + 1;
        }
        assert forall|k: int|
            0 <= k < self.dependencies@.len() && (
            #[trigger] self.dependencies@[k]).specifier_text() is Some implies {
            let range = inner_range(self.text@, self.dependencies@[k].place());
            within(self.text@, self.dependencies@[k].place()) && range.0 <= range.1
        } by {
            assert(ranges@[k] is Some);
        }
        assert forall|k: int, l: int|
            0 <= k < l < self.dependencies@.len() && (
            #[trigger] self.dependencies@[k]).specifier_text() is Some && (
            #[trigger] self.dependencies@[l]).specifier_text() is Some implies {
            let a = inner_range(self.text@, self.dependencies@[k].place());
            let b = inner_range(self.text@, self.dependencies@[l].place());
            a.1 <= b.0 || b.1 <= a.0
        } by {
            assert(ranges@[k] is Some && ranges@[l] is Some);
        }
        true
    }
}

/// The text of a source whose specifiers are rewritten to the answers, where there is one.
pub fn rewrite_source(source: &ParsedSource, answers: &Vec<Option<String>>) -> (r: String)
    requires
        source.well_formed(),
        answers@.len() == source.dependencies@.len(),
    ensures
        encode_utf8(r@) == rewritten(*source, opt_texts(answers@)),
{
    let text = source.text.as_str();
    let mut edits: Vec<TextEdit> = Vec::new();
    let mut i: usize = 0;
    assert(edits_view(edits@) =~= seq![]);
    while i < source.dependencies.len()
        invariant
            i <= source.dependencies@.len() == answers@.len(),
            source.well_formed(),
            text@ == source.text@,
            edits_view(edits@) == specifier_edits(
                source.text@,
                source.dependencies@.take(i as int),
                opt_texts(answers@).take(i as int),
            ),
        decreases source.dependencies@.len() - i,
    {
        let dependency = &source.dependencies[i];
        proof {
            assert(source.dependencies@.take(i + 1).drop_last() =~= source.dependencies@.take(
                i as int,
            ));
            assert(opt_texts(answers@).take(i + 1).drop_last() =~= opt_texts(answers@).take(
                i as int,
            ));
            assert(opt_texts(answers@).take(i + 1).last() == opt_text(answers@[i as int]));
        }
        if dependency.specifier().is_some() {
            if let Some(answer) = &answers[i] {
                let range = to_range(text, &dependency.range());
                let ghost before = edits@;
                edits.push(
                    TextEdit { start: range.start, end: range.end, new_text: answer.clone() },
                );
                proof {
                    assert(edits_view(edits@) =~= edits_view(before).push(
                        specifier_edit(source.text@, *dependency, answer@),
                    ));
                }
            }
        }
        i = i + 1;
    }
    proof {
        assert(source.dependencies@.take(i as int) =~= source.dependencies@);
        assert(opt_texts(answers@).take(i as int) =~= opt_texts(answers@));
        lemma_edits_applicable(*source, opt_texts(answers@));
    }
    apply_edits(text, edits)
}

/// After a character of one byte comes another character, or the end.
proof fn lemma_boundary_after(bytes: Seq<u8>, at: int)
    requires
        valid_utf8(bytes),
        0 <= at < bytes.len(),
        is_char_boundary(bytes, at),
        bytes[at] <= 0x7f,
    ensures
        is_char_boundary(bytes, at + 1),
    decreases bytes.len(),
{
    reveal_with_fuel(is_char_boundary, 2);
    if at > 0 {
        let rest = pop_first_scalar(bytes);
        let width = bytes.len() - rest.len();
        lemma_boundary_after(rest, at - width);
    }
}

/// The inside of a quoted stretch of whole characters is made of whole characters.
proof fn lemma_inner_range_fits(text: Seq<char>, range: PositionRange)
    requires
        within(text, range),
    ensures
        ({
            let (start, end) = inner_range(text, range);
            &&& is_char_boundary(encode_utf8(text), start)
            &&& is_char_boundary(encode_utf8(text), end)
            &&& 0 <= start
            &&& end <= encode_utf8(text).len()
        }),
{
    let bytes = encode_utf8(text);
    let start = byte_offset(text, range.start);
    let end = byte_offset(text, range.end);
    encode_utf8_valid_utf8(text);
    lemma_offset_in_text(text, range.start);
    lemma_offset_in_text(text, range.end);
    if start < end {
        if bytes[start] <= 0x7f {
            lemma_boundary_after(bytes, start);
        }
        is_char_boundary_iff_not_is_continuation_byte(bytes, end - 1);
        assert(bytes[end - 1] <= 0x7f ==> !is_continuation_byte(bytes[end - 1]));
    }
}

/// A source of which no specifier changes stays as it is.
pub proof fn nothing_rewritten(source: ParsedSource, answers: Seq<Option<Seq<char>>>)
    requires
        answers.len() == source.dependencies@.len(),
        forall|i: int|
            0 <= i < answers.len() && source.dependencies@[i].specifier_text() is Some ==> (
            #[trigger] answers[i]) is None,
    ensures
        rewritten(source, answers) == encode_utf8(source.text@),
{
    lemma_no_edits(source.text@, source.dependencies@, answers);
    assert(encode_utf8(source.text@).skip(0) =~= encode_utf8(source.text@));
}

/// Without answers there are no edits.
proof fn lemma_no_edits(
    text: Seq<char>,
    dependencies: Seq<DependencyDescriptor>,
    answers: Seq<Option<Seq<char>>>,
)
    requires
        answers.len() == dependencies.len(),
        forall|i: int|
            0 <= i < answers.len() && dependencies[i].specifier_text() is Some ==> (
            #[trigger] answers[i]) is None,
    ensures
        specifier_edits(text, dependencies, answers) == Seq::<EditView>::empty(),
    decreases dependencies.len(),
{
    if dependencies.len() > 0 {
        let rest = dependencies.drop_last();
        assert forall|i: int|
            0 <= i < answers.drop_last().len() && rest[i].specifier_text() is Some implies (
        #[trigger] answers.drop_last()[i]) is None by {
            assert(answers[i] == answers.drop_last()[i]);
        }
        lemma_no_edits(text, rest, answers.drop_last());
        assert(answers[answers.len() - 1] == answers.last());
    }
}

/// Where one specifier changes, the answer takes its place between the quotation marks, and the
/// rest of the source stays as it is.
pub proof fn one_rewritten(source: ParsedSource, answers: Seq<Option<Seq<char>>>, i: int)
    requires
        answers.len() == source.dependencies@.len(),
        0 <= i < answers.len(),
        source.dependencies@[i].specifier_text() is Some,
        answers[i] is Some,
        forall|j: int|
            0 <= j < answers.len() && j != i && source.dependencies@[j].specifier_text() is Some
                ==> (#[trigger] answers[j]) is None,
    ensures
        ({
            let bytes = encode_utf8(source.text@);
            let range = inner_range(source.text@, source.dependencies@[i].place());
            rewritten(source, answers) == bytes.subrange(0, range.0) + encode_utf8(answers[i]->0)
                + bytes.skip(range.1)
        }),
{
    let bytes = encode_utf8(source.text@);
    let edit = specifier_edit(source.text@, source.dependencies@[i], answers[i]->0);
    lemma_one_edit(source.text@, source.dependencies@, answers, i);
    let edits = seq![edit];
    reveal_with_fuel(in_order, 2);
    assert(edits.drop_last() =~= Seq::<EditView>::empty());
    assert(in_order(edits) =~= edits);
    assert(edits.drop_first() =~= Seq::<EditView>::empty());
    assert(spliced(bytes, edit.end, edits.drop_first()) == bytes.skip(edit.end));
}

/// With one answer there is one edit.
proof fn lemma_one_edit(
    text: Seq<char>,
    dependencies: Seq<DependencyDescriptor>,
    answers: Seq<Option<Seq<char>>>,
    i: int,
)
    requires
        answers.len() == dependencies.len(),
        0 <= i < answers.len(),
        dependencies[i].specifier_text() is Some,
        answers[i] is Some,
        forall|j: int|
            0 <= j < answers.len() && j != i && dependencies[j].specifier_text() is Some ==> (
            #[trigger] answers[j]) is None,
    ensures
        specifier_edits(text, dependencies, answers) == seq![
            specifier_edit(text, dependencies[i], answers[i]->0),
        ],
    decreases dependencies.len(),
{
    let rest = dependencies.drop_last();
    let rest_answers = answers.drop_last();
    assert(answers[answers.len() - 1] == answers.last());
    if i == dependencies.len() - 1 {
        assert forall|j: int|
            0 <= j < rest_answers.len() && rest[j].specifier_text() is Some implies (
        #[trigger] rest_answers[j]) is None by {
            assert(answers[j] == rest_answers[j]);
        }
        lemma_no_edits(text, rest, rest_answers);
        assert(specifier_edits(text, dependencies, answers) =~= seq![
            specifier_edit(text, dependencies[i], answers[i]->0),
        ]);
    } else {
        assert forall|j: int|
            0 <= j < rest_answers.len() && j != i && rest[j].specifier_text() is Some implies (
        #[trigger] rest_answers[j]) is None by {
            assert(answers[j] == rest_answers[j]);
        }
        lemma_one_edit(text, rest, rest_answers, i);
    }
}

/// The dependencies that edits are made for, in their order.
pub open spec fn edited(
    dependencies: Seq<DependencyDescriptor>,
    answers: Seq<Option<Seq<char>>>,
) -> Seq<int>
    decreases dependencies.len(),
{
    if dependencies.len() == 0 {
        seq![]
    } else {
        let before = edited(dependencies.drop_last(), answers.drop_last());
        if answers.last() is Some && dependencies.last().specifier_text() is Some {
            before.push(dependencies.len() - 1)
        } else {
            before
        }
    }
}

/// There is one edit for each dependency with an answer.
proof fn lemma_edited(
    text: Seq<char>,
    dependencies: Seq<DependencyDescriptor>,
    answers: Seq<Option<Seq<char>>>,
)
    requires
        answers.len() == dependencies.len(),
    ensures
        ({
            let edits = specifier_edits(text, dependencies, answers);
            let origins = edited(dependencies, answers);
            &&& edits.len() == origins.len()
            &&& forall|k: int|
                0 <= k < origins.len() ==> {
                    let i = #[trigger] origins[k];
                    &&& 0 <= i < dependencies.len()
                    &&& dependencies[i].specifier_text() is Some
                    &&& answers[i] is Some
                    &&& edits[k] == specifier_edit(text, dependencies[i], answers[i]->0)
                }
            &&& forall|k: int, l: int|
                0 <= k < l < origins.len() ==> #[trigger] origins[k] < #[trigger] origins[l]
        }),
    decreases dependencies.len(),
{
    if dependencies.len() > 0 {
        let n = dependencies.len() - 1;
        lemma_edited(text, dependencies.drop_last(), answers.drop_last());
        let before = edited(dependencies.drop_last(), answers.drop_last());
        let origins = edited(dependencies, answers);
        let edits = specifier_edits(text, dependencies, answers);
        assert forall|k: int| 0 <= k < origins.len() implies {
            let i = #[trigger] origins[k];
            &&& 0 <= i < dependencies.len()
            &&& dependencies[i].specifier_text() is Some
            &&& answers[i] is Some
            &&& edits[k] == specifier_edit(text, dependencies[i], answers[i]->0)
        } by {
            if k < before.len() {
                assert(before[k] == origins[k]);
                assert(dependencies.drop_last()[before[k]] == dependencies[before[k]]);
            } else {
                assert(dependencies[n] == dependencies.last());
            }
        }
        assert forall|k: int, l: int| 0 <= k < l < origins.len() implies #[trigger] origins[k]
            < #[trigger] origins[l] by {
            assert(before[k] == origins[k]);
            if l < before.len() {
                assert(before[l] == origins[l]);
            }
        }
    }
}

/// The edits of a source replace whole characters, no character twice.
proof fn lemma_edits_applicable(source: ParsedSource, answers: Seq<Option<Seq<char>>>)
    requires
        source.well_formed(),
        answers.len() == source.dependencies@.len(),
    ensures
        applicable(
            encode_utf8(source.text@),
            specifier_edits(source.text@, source.dependencies@, answers),
        ),
{
    let edits = specifier_edits(source.text@, source.dependencies@, answers);
    let origins = edited(source.dependencies@, answers);
    lemma_edited(source.text@, source.dependencies@, answers);
    assert forall|k: int| 0 <= k < edits.len() implies fits(
        encode_utf8(source.text@),
        #[trigger] edits[k],
    ) by {
        lemma_inner_range_fits(source.text@, source.dependencies@[origins[k]].place());
    }
    assert forall|k: int, l: int| 0 <= k < l < edits.len() implies apart(
        #[trigger] edits[k],
        #[trigger] edits[l],
    ) by {
        assert(origins[k] < origins[l]);
    }
}

/// Every dependency with an answer has an edit.
proof fn lemma_has_edit(
    dependencies: Seq<DependencyDescriptor>,
    answers: Seq<Option<Seq<char>>>,
    i: int,
) -> (k: int)
    requires
        answers.len() == dependencies.len(),
        0 <= i < dependencies.len(),
        dependencies[i].specifier_text() is Some,
        answers[i] is Some,
    ensures
        0 <= k < edited(dependencies, answers).len(),
        edited(dependencies, answers)[k] == i,
    decreases dependencies.len(),
{
    if i == dependencies.len() - 1 {
        edited(dependencies.drop_last(), answers.drop_last()).len() as int
    } else {
        lemma_has_edit(dependencies.drop_last(), answers.drop_last(), i)
    }
}

/// Whether an edit begins before another, or begins there and does not end later.
pub open spec fn not_after(a: EditView, b: EditView) -> bool {
    a.start < b.start || (a.start == b.start && a.end <= b.end)
}

/// Whether edits stand in the order of the text.
pub open spec fn ordered(edits: Seq<EditView>) -> bool {
    forall|k: int, l: int|
        0 <= k < l < edits.len() ==> not_after(#[trigger] edits[k], #[trigger] edits[l])
}

/// Inserting an edit keeps the order and loses nothing.
proof fn lemma_insert_edit(edits: Seq<EditView>, e: EditView)
    requires
        ordered(edits),
    ensures
        ordered(insert_edit(edits, e)),
        insert_edit(edits, e).to_multiset() == edits.to_multiset().insert(e),
    decreases edits.len(),
{
    broadcast use vstd::multiset::group_multiset_axioms;

    let r = insert_edit(edits, e);
    if edits.len() == 0 || not_after(edits.last(), e) {
        to_multiset_build(edits, e);
        assert forall|k: int, l: int| 0 <= k < l < r.len() implies not_after(
            #[trigger] r[k],
            #[trigger] r[l],
        ) by {
            if l == edits.len() && k < edits.len() - 1 {
                assert(not_after(edits[k], edits[edits.len() - 1]));
            }
        }
    } else {
        let rest = edits.drop_last();
        let inner = insert_edit(rest, e);
        lemma_insert_edit(rest, e);
        to_multiset_build(inner, edits.last());
        to_multiset_build(rest, edits.last());
        assert(rest.push(edits.last()) =~= edits);
        assert forall|k: int, l: int| 0 <= k < l < r.len() implies not_after(
            #[trigger] r[k],
            #[trigger] r[l],
        ) by {
            if l == inner.len() {
                to_multiset_contains(inner, inner[k]);
                to_multiset_contains(rest, inner[k]);
                if inner[k] != e {
                    let j = choose|j: int| 0 <= j < rest.len() && rest[j] == inner[k];
                    assert(not_after(edits[j], edits[edits.len() - 1]));
                }
            } else {
                assert(not_after(inner[k], inner[l]));
            }
        }
        assert(r.to_multiset() =~= edits.to_multiset().insert(e));
    }
}

/// Putting edits in order loses nothing.
pub proof fn edits_are_ordered(edits: Seq<EditView>)
    ensures
        ordered(in_order(edits)),
        in_order(edits).to_multiset() == edits.to_multiset(),
    decreases edits.len(),
{
    if edits.len() > 0 {
        edits_are_ordered(edits.drop_last());
        lemma_insert_edit(in_order(edits.drop_last()), edits.last());
        to_multiset_build(edits.drop_last(), edits.last());
        assert(edits.drop_last().push(edits.last()) =~= edits);
    }
}

/// Whether `part` stands somewhere in `whole`.
pub open spec fn stands_in(part: Seq<u8>, whole: Seq<u8>) -> bool {
    exists|at: int|
        0 <= at <= whole.len() - part.len() && #[trigger] whole.subrange(at, at + part.len())
            == part
}

/// Every answer is written into the source.
pub proof fn every_answer_is_written(
    source: ParsedSource,
    answers: Seq<Option<Seq<char>>>,
    i: int,
)
    requires
        answers.len() == source.dependencies@.len(),
        0 <= i < answers.len(),
        source.dependencies@[i].specifier_text() is Some,
        answers[i] is Some,
    ensures
        stands_in(encode_utf8(answers[i]->0), rewritten(source, answers)),
{
    let edits = specifier_edits(source.text@, source.dependencies@, answers);
    lemma_edited(source.text@, source.dependencies@, answers);
    let k = lemma_has_edit(source.dependencies@, answers, i);
    assert(edited(source.dependencies@, answers)[k] == i);
    edits_are_ordered(edits);
    to_multiset_contains(edits, edits[k]);
    to_multiset_contains(in_order(edits), edits[k]);
    let l = choose|l: int| 0 <= l < in_order(edits).len() && in_order(edits)[l] == edits[k];
    lemma_edit_stands(encode_utf8(source.text@), 0, in_order(edits), l);
}

/// What an edit puts in stands in the result.
proof fn lemma_edit_stands(bytes: Seq<u8>, from: int, edits: Seq<EditView>, k: int)
    requires
        0 <= k < edits.len(),
    ensures
        stands_in(edits[k].bytes, spliced(bytes, from, edits)),
    decreases edits.len(),
{
    let gap = bytes.subrange(from, edits[0].start);
    let rest = spliced(bytes, edits[0].end, edits.drop_first());
    let whole = spliced(bytes, from, edits);
    let part = edits[k].bytes;
    if k == 0 {
        let at = gap.len() as int;
        assert(whole.subrange(at, at + part.len()) =~= part);
    } else {
        lemma_edit_stands(bytes, edits[0].end, edits.drop_first(), k - 1);
        let within = choose|at: int|
            0 <= at <= rest.len() - part.len() && #[trigger] rest.subrange(at, at + part.len())
                == part;
        let at = gap.len() + edits[0].bytes.len() + within;
        assert(whole.subrange(at, at + part.len()) =~= rest.subrange(within, within + part.len()));
    }
}

/// Nothing but the specifiers changes: where each answer is what stands in its place already, the
/// source stays as it is.
pub proof fn only_specifiers_change(source: ParsedSource, answers: Seq<Option<Seq<char>>>)
    requires
        source.well_formed(),
        answers.len() == source.dependencies@.len(),
        forall|i: int|
            0 <= i < answers.len() && source.dependencies@[i].specifier_text() is Some && (
            #[trigger] answers[i]) is Some ==> {
                let range = inner_range(source.text@, source.dependencies@[i].place());
                encode_utf8(answers[i]->0) == encode_utf8(source.text@).subrange(range.0, range.1)
            },
    ensures
        rewritten(source, answers) == encode_utf8(source.text@),
{
    let bytes = encode_utf8(source.text@);
    let edits = specifier_edits(source.text@, source.dependencies@, answers);
    let origins = edited(source.dependencies@, answers);
    lemma_edited(source.text@, source.dependencies@, answers);
    edits_are_ordered(edits);
    let sorted = in_order(edits);
    lemma_edits_applicable(source, answers);
    assert forall|k: int| 0 <= k < edits.len() implies keeps(bytes, #[trigger] edits[k]) by {
        assert(fits(bytes, edits[k]));
        assert(answers[origins[k]] is Some);
    }
    assert forall|k: int| 0 <= k < sorted.len() implies keeps(bytes, #[trigger] sorted[k]) by {
        to_multiset_contains(sorted, sorted[k]);
        to_multiset_contains(edits, sorted[k]);
    }
    lemma_apart_in_order(bytes, edits);
    lemma_all_kept(bytes, 0, sorted);
    assert(bytes.skip(0) =~= bytes);
}

/// Whether an edit puts in what stands in its place already.
pub open spec fn keeps(bytes: Seq<u8>, e: EditView) -> bool {
    0 <= e.start <= e.end <= bytes.len() && e.bytes == bytes.subrange(e.start, e.end)
}

/// Edits that touch different bytes do so in order too.
proof fn lemma_apart_in_order(bytes: Seq<u8>, edits: Seq<EditView>)
    requires
        forall|k: int| 0 <= k < edits.len() ==> keeps(bytes, #[trigger] edits[k]),
        forall|k: int, l: int|
            0 <= k < l < edits.len() ==> apart(#[trigger] edits[k], #[trigger] edits[l]),
    ensures
        forall|k: int, l: int|
            0 <= k < l < in_order(edits).len() ==> (#[trigger] in_order(edits)[k]).end <= (
            #[trigger] in_order(edits)[l]).start,
{
    edits_are_ordered(edits);
    let sorted = in_order(edits);
    assert forall|k: int, l: int| 0 <= k < l < sorted.len() implies (#[trigger] sorted[k]).end <= (
    #[trigger] sorted[l]).start by {
        lemma_two_apart(edits, sorted, k, l);
        to_multiset_contains(sorted, sorted[k]);
        to_multiset_contains(edits, sorted[k]);
        to_multiset_contains(sorted, sorted[l]);
        to_multiset_contains(edits, sorted[l]);
        assert(keeps(bytes, sorted[k]) && keeps(bytes, sorted[l]));
        assert(not_after(sorted[k], sorted[l]));
    }
}

/// Two edits that are apart in one order are apart in another.
proof fn lemma_two_apart(edits: Seq<EditView>, sorted: Seq<EditView>, k: int, l: int)
    requires
        edits.to_multiset() == sorted.to_multiset(),
        forall|i: int, j: int|
            0 <= i < j < edits.len() ==> apart(#[trigger] edits[i], #[trigger] edits[j]),
        0 <= k < l < sorted.len(),
    ensures
        apart(sorted[k], sorted[l]),
{
    broadcast use vstd::multiset::group_multiset_axioms;

    let a = sorted[k];
    let b = sorted[l];
    to_multiset_contains(sorted, a);
    to_multiset_contains(edits, a);
    let i = choose|i: int| 0 <= i < edits.len() && edits[i] == a;
    let rest = edits.remove(i);
    let sorted_rest = sorted.remove(k);
    to_multiset_remove(edits, i);
    to_multiset_remove(sorted, k);
    assert(sorted_rest[l - 1] == b);
    to_multiset_contains(sorted_rest, b);
    to_multiset_contains(rest, b);
    let j = choose|j: int| 0 <= j < rest.len() && rest[j] == b;
    if j < i {
        assert(edits[j] == b);
        assert(apart(edits[j], edits[i]));
    } else {
        assert(edits[j + 1] == b);
        assert(apart(edits[i], edits[j + 1]));
    }
}

/// Edits that put in what stands there change nothing.
proof fn lemma_all_kept(bytes: Seq<u8>, from: int, edits: Seq<EditView>)
    requires
        0 <= from <= bytes.len(),
        forall|k: int|
            0 <= k < edits.len() ==> keeps(bytes, #[trigger] edits[k]) && from <= edits[k].start,
        forall|k: int, l: int|
            0 <= k < l < edits.len() ==> (#[trigger] edits[k]).end <= (#[trigger] edits[l]).start,
    ensures
        spliced(bytes, from, edits) == bytes.skip(from),
    decreases edits.len(),
{
    if edits.len() > 0 {
        let first = edits[0];
        let rest = edits.drop_first();
        assert(keeps(bytes, first));
        assert forall|k: int| 0 <= k < rest.len() implies keeps(bytes, #[trigger] rest[k])
            && first.end <= rest[k].start by {
            assert(rest[k] == edits[k + 1]);
            assert(edits[0].end <= edits[k + 1].start);
        }
        assert forall|k: int, l: int| 0 <= k < l < rest.len() implies (#[trigger] rest[k]).end <= (
        #[trigger] rest[l]).start by {
            assert(rest[k] == edits[k + 1] && rest[l] == edits[l + 1]);
            assert(edits[k + 1].end <= edits[l + 1].start);
        }
        lemma_all_kept(bytes, first.end, rest);
        assert(spliced(bytes, from, edits) =~= bytes.skip(from));
    }
}

/// Sources whose specifiers have places of their own are well formed: each place lies in the text, and
/// no two have a byte in common.
pub proof fn places_of_their_own(source: ParsedSource)
    requires
        forall|i: int|
            0 <= i < source.dependencies@.len() && (
            #[trigger] source.dependencies@[i]).specifier_text() is Some ==> {
                let place = source.dependencies@[i].place();
                &&& countable(source.text@)
                &&& located(source.text@, place.start)
                &&& located(source.text@, place.end)
                &&& byte_offset(source.text@, place.start) <= byte_offset(source.text@, place.end)
                &&& inner_range(source.text@, place).0 <= inner_range(source.text@, place).1
            },
        forall|i: int, j: int|
            0 <= i < j < source.dependencies@.len() && (
            #[trigger] source.dependencies@[i]).specifier_text() is Some && (
            #[trigger] source.dependencies@[j]).specifier_text() is Some ==> {
                let a = inner_range(source.text@, source.dependencies@[i].place());
                let b = inner_range(source.text@, source.dependencies@[j].place());
                a.1 <= b.0 || b.1 <= a.0
            },
    ensures
        source.well_formed(),
{
}

/// The sum of a number over edits.
pub open spec fn total(edits: Seq<EditView>, number: spec_fn(EditView) -> int) -> int
    decreases edits.len(),
{
    if edits.len() == 0 {
        0
    } else {
        total(edits.drop_last(), number) + number(edits.last())
    }
}

/// By how much an edit makes a text longer.
pub open spec fn growth(e: EditView) -> int {
    e.bytes.len() - (e.end - e.start)
}

/// A sum over edits begins with the first.
proof fn lemma_total_front(edits: Seq<EditView>, number: spec_fn(EditView) -> int)
    requires
        edits.len() > 0,
    ensures
        total(edits, number) == number(edits[0]) + total(edits.drop_first(), number),
    decreases edits.len(),
{
    if edits.len() > 1 {
        lemma_total_front(edits.drop_last(), number);
        assert(edits.drop_last().drop_first() =~= edits.drop_first().drop_last());
    } else {
        assert(edits.drop_last() =~= edits.drop_first());
    }
}

/// A sum over edits leaves out no edit.
proof fn lemma_total_without(edits: Seq<EditView>, number: spec_fn(EditView) -> int, i: int)
    requires
        0 <= i < edits.len(),
    ensures
        total(edits, number) == total(edits.remove(i), number) + number(edits[i]),
    decreases edits.len(),
{
    if i == edits.len() - 1 {
        assert(edits.remove(i) =~= edits.drop_last());
    } else {
        lemma_total_without(edits.drop_last(), number, i);
        assert(edits.remove(i).drop_last() =~= edits.drop_last().remove(i));
        assert(edits.remove(i).last() == edits.last());
    }
}

/// A sum over edits does not depend on their order.
proof fn lemma_total_reordered(
    a: Seq<EditView>,
    b: Seq<EditView>,
    number: spec_fn(EditView) -> int,
)
    requires
        a.to_multiset() == b.to_multiset(),
    ensures
        total(a, number) == total(b, number),
    decreases a.len(),
{
    to_multiset_len(a);
    to_multiset_len(b);
    if a.len() > 0 {
        let n = a.len() - 1;
        to_multiset_contains(a, a[n]);
        to_multiset_contains(b, a[n]);
        let j = choose|j: int| 0 <= j < b.len() && b[j] == a[n];
        to_multiset_remove(a, n);
        to_multiset_remove(b, j);
        lemma_total_reordered(a.remove(n), b.remove(j), number);
        lemma_total_without(a, number, n);
        lemma_total_without(b, number, j);
    }
}

/// A sum of the same numbers is the same.
proof fn lemma_total_same(
    edits: Seq<EditView>,
    a: spec_fn(EditView) -> int,
    b: spec_fn(EditView) -> int,
)
    requires
        forall|k: int| 0 <= k < edits.len() ==> a(#[trigger] edits[k]) == b(edits[k]),
    ensures
        total(edits, a) == total(edits, b),
    decreases edits.len(),
{
    if edits.len() > 0 {
        assert forall|k: int| 0 <= k < edits.drop_last().len() implies a(
            #[trigger] edits.drop_last()[k],
        ) == b(edits.drop_last()[k]) by {
            assert(edits.drop_last()[k] == edits[k]);
        }
        lemma_total_same(edits.drop_last(), a, b);
        assert(edits[edits.len() - 1] == edits.last());
    }
}

/// A sum of the numbers of the first edits, the others counting nothing.
proof fn lemma_total_prefix(
    edits: Seq<EditView>,
    k: int,
    a: spec_fn(EditView) -> int,
    b: spec_fn(EditView) -> int,
)
    requires
        0 <= k <= edits.len(),
        forall|l: int| 0 <= l < k ==> a(#[trigger] edits[l]) == b(edits[l]),
        forall|l: int| k <= l < edits.len() ==> b(#[trigger] edits[l]) == 0,
    ensures
        total(edits.take(k), a) == total(edits, b),
    decreases edits.len(),
{
    if k == edits.len() {
        assert(edits.take(k) =~= edits);
        lemma_total_same(edits, a, b);
    } else {
        let rest = edits.drop_last();
        assert forall|l: int| 0 <= l < k implies a(#[trigger] rest[l]) == b(rest[l]) by {
            assert(rest[l] == edits[l]);
        }
        assert forall|l: int| k <= l < rest.len() implies b(#[trigger] rest[l]) == 0 by {
            assert(rest[l] == edits[l]);
        }
        lemma_total_prefix(rest, k, a, b);
        assert(rest.take(k) =~= edits.take(k));
        assert(edits[edits.len() - 1] == edits.last());
    }
}

/// Whether edits, in order, lie behind a place in a text and have no byte in common.
spec fn laid_out(bytes: Seq<u8>, from: int, edits: Seq<EditView>) -> bool {
    &&& 0 <= from <= bytes.len()
    &&& forall|k: int|
        0 <= k < edits.len() ==> from <= (#[trigger] edits[k]).start <= edits[k].end <= bytes.len()
    &&& forall|k: int, l: int|
        0 <= k < l < edits.len() ==> (#[trigger] edits[k]).end <= (#[trigger] edits[l]).start
}

/// What is behind the first of edits that are laid out is laid out.
proof fn lemma_rest_laid_out(bytes: Seq<u8>, from: int, edits: Seq<EditView>)
    requires
        laid_out(bytes, from, edits),
        edits.len() > 0,
    ensures
        laid_out(bytes, edits[0].end, edits.drop_first()),
{
    let rest = edits.drop_first();
    assert forall|k: int| 0 <= k < rest.len() implies edits[0].end <= (#[trigger] rest[k]).start
        <= rest[k].end <= bytes.len() by {
        assert(rest[k] == edits[k + 1]);
        assert(edits[0].end <= edits[k + 1].start);
    }
    assert forall|k: int, l: int| 0 <= k < l < rest.len() implies (#[trigger] rest[k]).end <= (
    #[trigger] rest[l]).start by {
        assert(rest[k] == edits[k + 1] && rest[l] == edits[l + 1]);
    }
}

/// The length of a text with edits made.
proof fn lemma_spliced_len(bytes: Seq<u8>, from: int, edits: Seq<EditView>)
    requires
        laid_out(bytes, from, edits),
    ensures
        spliced(bytes, from, edits).len() == bytes.len() - from + total(
            edits,
            |e: EditView| growth(e),
        ),
    decreases edits.len(),
{
    if edits.len() > 0 {
        lemma_rest_laid_out(bytes, from, edits);
        lemma_spliced_len(bytes, edits[0].end, edits.drop_first());
        lemma_total_front(edits, |e: EditView| growth(e));
    }
}

/// Where an edit stands in a text with edits made.
proof fn lemma_spliced_at(bytes: Seq<u8>, from: int, edits: Seq<EditView>, k: int)
    requires
        laid_out(bytes, from, edits),
        0 <= k < edits.len(),
    ensures
        ({
            let at = edits[k].start - from + total(edits.take(k), |e: EditView| growth(e));
            let whole = spliced(bytes, from, edits);
            &&& 0 <= at <= at + edits[k].bytes.len() <= whole.len()
            &&& whole.subrange(at, at + edits[k].bytes.len()) == edits[k].bytes
        }),
    decreases edits.len(),
{
    let gap = bytes.subrange(from, edits[0].start);
    let rest = spliced(bytes, edits[0].end, edits.drop_first());
    let whole = spliced(bytes, from, edits);
    let part = edits[k].bytes;
    let number = |e: EditView| growth(e);
    if k == 0 {
        assert(edits.take(0) =~= seq![]);
        let at = edits[0].start - from;
        assert(whole.subrange(at, at + part.len()) =~= part);
    } else {
        lemma_rest_laid_out(bytes, from, edits);
        lemma_spliced_at(bytes, edits[0].end, edits.drop_first(), k - 1);
        assert(edits.take(k).drop_first() =~= edits.drop_first().take(k - 1));
        lemma_total_front(edits.take(k), number);
        let inner = edits[k].start - edits[0].end + total(edits.drop_first().take(k - 1), number);
        let at = edits[k].start - from + total(edits.take(k), number);
        assert(at == gap.len() + edits[0].bytes.len() + inner);
        assert(whole.subrange(at, at + part.len()) =~= rest.subrange(inner, inner + part.len()));
    }
}

/// Where a byte that no edit replaces stands in a text with edits made.
proof fn lemma_spliced_keeps(bytes: Seq<u8>, from: int, edits: Seq<EditView>, b: int)
    requires
        laid_out(bytes, from, edits),
        from <= b < bytes.len(),
        forall|k: int|
            0 <= k < edits.len() ==> !((#[trigger] edits[k]).start <= b && b < edits[k].end),
    ensures
        ({
            let at = b - from + total(
                edits,
                |e: EditView|
                    if e.end <= b {
                        growth(e)
                    } else {
                        0
                    },
            );
            let whole = spliced(bytes, from, edits);
            &&& 0 <= at < whole.len()
            &&& whole[at] == bytes[b]
        }),
    decreases edits.len(),
{
    let number = |e: EditView|
        if e.end <= b {
            growth(e)
        } else {
            0
        };
    let whole = spliced(bytes, from, edits);
    if edits.len() > 0 {
        let rest = edits.drop_first();
        lemma_rest_laid_out(bytes, from, edits);
        lemma_total_front(edits, number);
        if b < edits[0].start {
            let nothing = |e: EditView| 0int;
            assert forall|k: int| 0 <= k < edits.len() implies number(#[trigger] edits[k])
                == nothing(edits[k]) by {
                if k > 0 {
                    assert(edits[0].end <= edits[k].start);
                }
            }
            lemma_total_same(edits, number, nothing);
            lemma_total_nothing(edits);
            assert(whole[b - from] == bytes[b]);
        } else {
            assert(edits[0].end <= b);
            assert forall|k: int| 0 <= k < rest.len() implies !((#[trigger] rest[k]).start <= b && b
                < rest[k].end) by {
                assert(rest[k] == edits[k + 1]);
            }
            lemma_spliced_keeps(bytes, edits[0].end, rest, b);
        }
    }
}

/// A sum of nothing.
proof fn lemma_total_nothing(edits: Seq<EditView>)
    ensures
        total(edits, |e: EditView| 0int) == 0,
    decreases edits.len(),
{
    if edits.len() > 0 {
        lemma_total_nothing(edits.drop_last());
    }
}

/// The sum, over the specifiers of a source that are written down and for which `f` gives something,
/// of how many bytes that is longer than what stands inside the place of the specifier. Only places
/// whose insides `counts` are taken.
pub open spec fn longer_by(
    text: Seq<char>,
    dependencies: Seq<DependencyDescriptor>,
    f: spec_fn(Seq<char>) -> Option<Seq<char>>,
    counts: spec_fn(int, int) -> bool,
) -> int
    decreases dependencies.len(),
{
    if dependencies.len() == 0 {
        0
    } else {
        let (start, end) = inner_range(text, dependencies.last().place());
        longer_by(text, dependencies.drop_last(), f, counts) + match dependencies.last() {
            DependencyDescriptor::Static { specifier, .. } => match f(specifier@) {
                Some(new) if counts(start, end) => encode_utf8(new).len() - (end - start),
                _ => 0,
            },
            DependencyDescriptor::Dynamic {
                argument: DynamicArgument::String(specifier),
                ..
            } => match f(specifier@) {
                Some(new) if counts(start, end) => encode_utf8(new).len() - (end - start),
                _ => 0,
            },
            DependencyDescriptor::Dynamic { .. } => 0,
        }
    }
}

/// Whether the answers are those that `f` gives about the specifiers that are written down.
spec fn answered_by(
    dependencies: Seq<DependencyDescriptor>,
    f: spec_fn(Seq<char>) -> Option<Seq<char>>,
    answers: Seq<Option<Seq<char>>>,
) -> bool {
    &&& answers.len() == dependencies.len()
    &&& forall|i: int|
        0 <= i < dependencies.len() ==> match (#[trigger] dependencies[i]).specifier_text() {
            Some(specifier) => answers[i] == f(specifier),
            None => answers[i] is None,
        }
}

/// The sum over edits is the sum over specifiers.
proof fn lemma_longer_by(
    text: Seq<char>,
    dependencies: Seq<DependencyDescriptor>,
    f: spec_fn(Seq<char>) -> Option<Seq<char>>,
    answers: Seq<Option<Seq<char>>>,
    counts: spec_fn(int, int) -> bool,
)
    requires
        answered_by(dependencies, f, answers),
    ensures
        longer_by(text, dependencies, f, counts) == total(
            specifier_edits(text, dependencies, answers),
            |e: EditView|
                if counts(e.start, e.end) {
                    growth(e)
                } else {
                    0
                },
        ),
    decreases dependencies.len(),
{
    if dependencies.len() > 0 {
        let n = dependencies.len() - 1;
        let rest = dependencies.drop_last();
        assert forall|i: int| 0 <= i < rest.len() implies match (
        #[trigger] rest[i]).specifier_text() {
            Some(specifier) => answers.drop_last()[i] == f(specifier),
            None => answers.drop_last()[i] is None,
        } by {
            assert(rest[i] == dependencies[i]);
        }
        lemma_longer_by(text, rest, f, answers.drop_last(), counts);
        written_specifiers(dependencies[n]);
        let before = specifier_edits(text, rest, answers.drop_last());
        let edits = specifier_edits(text, dependencies, answers);
        if edits != before {
            assert(edits.drop_last() =~= before);
        }
        assert(dependencies[n] == dependencies.last());
    }
}

/// Whether something stands in a rewritten source: at the place where `at` bytes of the source come
/// first, moved by what was put in for specifiers before it.
pub open spec fn stands_at(
    source: ParsedSource,
    f: spec_fn(Seq<char>) -> Option<Seq<char>>,
    content: Seq<u8>,
    range: (int, int),
    part: Seq<u8>,
) -> bool {
    let at = range.0 + longer_by(
        source.text@,
        source.dependencies@,
        f,
        |start: int, end: int| end <= range.0 && (start, end) != range,
    );
    0 <= at <= at + part.len() <= content.len() && content.subrange(at, at + part.len()) == part
}

/// What `f` gives for a specifier stands in its place, between the quotation marks.
pub proof fn answers_stand_in_place(
    source: ParsedSource,
    f: spec_fn(Seq<char>) -> Option<Seq<char>>,
    answers: Seq<Option<Seq<char>>>,
    i: int,
)
    requires
        source.well_formed(),
        answers.len() == source.dependencies@.len(),
        forall|j: int|
            0 <= j < source.dependencies@.len() ==> match (
            #[trigger] source.dependencies@[j]).specifier_text() {
                Some(specifier) => answers[j] == f(specifier),
                None => answers[j] is None,
            },
        0 <= i < source.dependencies@.len(),
        source.dependencies@[i].specifier_text() is Some,
        f(source.dependencies@[i].specifier_text()->0) is Some,
        forall|j: int|
            0 <= j < source.dependencies@.len() && j != i && (
            #[trigger] source.dependencies@[j]).specifier_text() is Some ==> inner_range(
                source.text@,
                source.dependencies@[j].place(),
            ) != inner_range(source.text@, source.dependencies@[i].place()),
    ensures
        stands_at(
            source,
            f,
            rewritten(source, answers),
            inner_range(source.text@, source.dependencies@[i].place()),
            encode_utf8(f(source.dependencies@[i].specifier_text()->0)->0),
        ),
{
    let bytes = encode_utf8(source.text@);
    let edits = specifier_edits(source.text@, source.dependencies@, answers);
    let origins = edited(source.dependencies@, answers);
    let sorted = in_order(edits);
    let range = inner_range(source.text@, source.dependencies@[i].place());
    let k = lemma_has_edit(source.dependencies@, answers, i);
    lemma_edited(source.text@, source.dependencies@, answers);
    assert(origins[k] == i);
    lemma_edits_laid_out(source, answers);
    edits_are_ordered(edits);
    to_multiset_contains(edits, edits[k]);
    to_multiset_contains(sorted, edits[k]);
    let l = choose|l: int| 0 <= l < sorted.len() && sorted[l] == edits[k];
    lemma_spliced_at(bytes, 0, sorted, l);
    let counts = |start: int, end: int| end <= range.0 && (start, end) != range;
    let number = |e: EditView|
        if counts(e.start, e.end) {
            growth(e)
        } else {
            0
        };
    assert forall|m: int| 0 <= m < sorted.len() && m != l implies ((
    #[trigger] sorted[m]).start, sorted[m].end) != range by {
        let (p, q) = lemma_two_places(edits, sorted, l, m);
        assert(origins[p] != origins[q]) by {
            if p < q {
                assert(origins[p] < origins[q]);
            } else {
                assert(origins[q] < origins[p]);
            }
        }
        assert(edits[p] == edits[k]);
        let a = origins[p];
        let b = origins[q];
        assert(source.dependencies@[a].specifier_text() is Some);
        assert(source.dependencies@[b].specifier_text() is Some);
    }
    assert forall|m: int| 0 <= m < l implies growth(#[trigger] sorted[m]) == number(
        sorted[m],
    ) by {
        assert(sorted[m].end <= sorted[l].start);
    }
    assert forall|m: int| l <= m < sorted.len() implies number(#[trigger] sorted[m]) == 0 by {
        if m > l {
            assert(sorted[l].end <= sorted[m].start);
        }
    }
    lemma_total_prefix(sorted, l, |e: EditView| growth(e), number);
    lemma_total_reordered(edits, sorted, number);
    lemma_longer_by(source.text@, source.dependencies@, f, answers, counts);
}

/// Two edits in one order are two in another.
proof fn lemma_two_places(edits: Seq<EditView>, sorted: Seq<EditView>, k: int, l: int) -> (r: (
    int,
    int,
))
    requires
        edits.to_multiset() == sorted.to_multiset(),
        0 <= k < sorted.len(),
        0 <= l < sorted.len(),
        k != l,
    ensures
        0 <= r.0 < edits.len(),
        0 <= r.1 < edits.len(),
        r.0 != r.1,
        edits[r.0] == sorted[k],
        edits[r.1] == sorted[l],
{
    broadcast use vstd::multiset::group_multiset_axioms;

    let a = sorted[k];
    let b = sorted[l];
    to_multiset_contains(sorted, a);
    to_multiset_contains(edits, a);
    let i = choose|i: int| 0 <= i < edits.len() && edits[i] == a;
    let rest = edits.remove(i);
    let sorted_rest = sorted.remove(k);
    to_multiset_remove(edits, i);
    to_multiset_remove(sorted, k);
    assert(sorted_rest[if l < k {
        l
    } else {
        l - 1
    }] == b);
    to_multiset_contains(sorted_rest, b);
    to_multiset_contains(rest, b);
    let j = choose|j: int| 0 <= j < rest.len() && rest[j] == b;
    if j < i {
        assert(edits[j] == b);
        (i, j)
    } else {
        assert(edits[j + 1] == b);
        (i, j + 1)
    }
}

/// The edits of a source, in order, lie in its text and have no byte in common.
proof fn lemma_edits_laid_out(source: ParsedSource, answers: Seq<Option<Seq<char>>>)
    requires
        source.well_formed(),
        answers.len() == source.dependencies@.len(),
    ensures
        laid_out(
            encode_utf8(source.text@),
            0,
            in_order(specifier_edits(source.text@, source.dependencies@, answers)),
        ),
{
    let bytes = encode_utf8(source.text@);
    let edits = specifier_edits(source.text@, source.dependencies@, answers);
    let sorted = in_order(edits);
    lemma_edits_applicable(source, answers);
    edits_are_ordered(edits);
    assert forall|k: int| 0 <= k < sorted.len() implies fits(bytes, #[trigger] sorted[k]) by {
        to_multiset_contains(sorted, sorted[k]);
        to_multiset_contains(edits, sorted[k]);
    }
    assert forall|k: int, l: int| 0 <= k < l < sorted.len() implies (#[trigger] sorted[k]).end <= (
    #[trigger] sorted[l]).start by {
        lemma_two_apart(edits, sorted, k, l);
        assert(fits(bytes, sorted[k]) && fits(bytes, sorted[l]));
        assert(not_after(sorted[k], sorted[l]));
    }
}

/// A byte of the source that is not inside the place of a specifier for which `f` gives something
/// stays, moved by what was put in before it, and the source grows by what was put in.
pub proof fn other_bytes_stay(
    source: ParsedSource,
    f: spec_fn(Seq<char>) -> Option<Seq<char>>,
    answers: Seq<Option<Seq<char>>>,
)
    requires
        source.well_formed(),
        answers.len() == source.dependencies@.len(),
        forall|j: int|
            0 <= j < source.dependencies@.len() ==> match (
            #[trigger] source.dependencies@[j]).specifier_text() {
                Some(specifier) => answers[j] == f(specifier),
                None => answers[j] is None,
            },
    ensures
        rewritten(source, answers).len() == encode_utf8(source.text@).len() + longer_by(
            source.text@,
            source.dependencies@,
            f,
            |start: int, end: int| true,
        ),
        forall|b: int| #[trigger]
            untouched(source, f, b) ==> {
                let at = b + longer_by(
                    source.text@,
                    source.dependencies@,
                    f,
                    |start: int, end: int| end <= b,
                );
                &&& 0 <= at < rewritten(source, answers).len()
                &&& rewritten(source, answers)[at] == encode_utf8(source.text@)[b]
            },
{
    let bytes = encode_utf8(source.text@);
    let edits = specifier_edits(source.text@, source.dependencies@, answers);
    let origins = edited(source.dependencies@, answers);
    let sorted = in_order(edits);
    lemma_edits_laid_out(source, answers);
    edits_are_ordered(edits);
    lemma_edited(source.text@, source.dependencies@, answers);
    let all = |start: int, end: int| true;
    let every = |e: EditView|
        if all(e.start, e.end) {
            growth(e)
        } else {
            0
        };
    lemma_spliced_len(bytes, 0, sorted);
    lemma_longer_by(source.text@, source.dependencies@, f, answers, all);
    lemma_total_reordered(edits, sorted, every);
    lemma_total_same(sorted, |e: EditView| growth(e), every);
    assert forall|b: int| #[trigger] untouched(source, f, b) implies {
        let at = b + longer_by(
            source.text@,
            source.dependencies@,
            f,
            |start: int, end: int| end <= b,
        );
        &&& 0 <= at < rewritten(source, answers).len()
        &&& rewritten(source, answers)[at] == encode_utf8(source.text@)[b]
    } by {
        let counts = |start: int, end: int| end <= b;
        let number = |e: EditView|
            if counts(e.start, e.end) {
                growth(e)
            } else {
                0
            };
        let plain = |e: EditView|
            if e.end <= b {
                growth(e)
            } else {
                0
            };
        assert forall|m: int| 0 <= m < sorted.len() implies !((#[trigger] sorted[m]).start <= b && b
            < sorted[m].end) by {
            to_multiset_contains(sorted, sorted[m]);
            to_multiset_contains(edits, sorted[m]);
            let q = choose|q: int| 0 <= q < edits.len() && edits[q] == sorted[m];
            let i = origins[q];
            assert(source.dependencies@[i].specifier_text() is Some);
            assert(f(source.dependencies@[i].specifier_text()->0) is Some);
        }
        lemma_spliced_keeps(bytes, 0, sorted, b);
        lemma_longer_by(source.text@, source.dependencies@, f, answers, counts);
        lemma_total_reordered(edits, sorted, number);
        lemma_total_same(sorted, plain, number);
    }
}

/// Whether a byte of a source is not inside the place of a specifier for which `f` gives something.
pub open spec fn untouched(
    source: ParsedSource,
    f: spec_fn(Seq<char>) -> Option<Seq<char>>,
    b: int,
) -> bool {
    &&& 0 <= b < encode_utf8(source.text@).len()
    &&& forall|i: int|
        0 <= i < source.dependencies@.len() && (
        #[trigger] source.dependencies@[i]).specifier_text() is Some && f(
            source.dependencies@[i].specifier_text()->0,
        ) is Some ==> {
            let range = inner_range(source.text@, source.dependencies@[i].place());
            !(range.0 <= b < range.1)
        }
}

/// The place of a specifier that is written down: of one that is imported or exported from, or of a
/// string that is loaded.
pub open spec fn written_at(dependency: DependencyDescriptor) -> Option<PositionRange> {
    match dependency {
        DependencyDescriptor::Static { specifier_range, .. } => Some(specifier_range),
        DependencyDescriptor::Dynamic { argument, argument_range } => match argument {
            DynamicArgument::String(_) => Some(argument_range),
            DynamicArgument::Template => None,
            DynamicArgument::Expr => None,
        },
    }
}

/// A source is well formed if the specifiers that are written down stand in its text, each between
/// quotation marks of its own, whatever else it loads.
pub proof fn quoted_specifiers_are_well_formed(source: ParsedSource)
    requires
        encode_utf8(source.text@).len() < 0xffff_ffff,
        source.text@.len() > 0 ==> source.text@[0] != '\u{feff}',
        forall|i: int|
            0 <= i < source.dependencies@.len() ==> match written_at(
                #[trigger] source.dependencies@[i],
            ) {
                Some(place) => {
                    let bytes = encode_utf8(source.text@);
                    let start = byte_offset(source.text@, place.start);
                    let end = byte_offset(source.text@, place.end);
                    &&& has_line(source.text@, place.start.line as nat)
                    &&& has_line(source.text@, place.end.line as nat)
                    &&& bytes.len() + place.start.character <= usize::MAX
                    &&& bytes.len() + place.end.character <= usize::MAX
                    &&& start + 2 <= end
                    &&& bytes[start] == 0x22 || bytes[start] == 0x27
                    &&& bytes[end - 1] == 0x22 || bytes[end - 1] == 0x27
                },
                None => true,
            },
        forall|i: int, j: int|
            0 <= i < j < source.dependencies@.len() ==> match (
                written_at(#[trigger] source.dependencies@[i]),
                written_at(#[trigger] source.dependencies@[j]),
            ) {
                (Some(a), Some(b)) => {
                    ||| byte_offset(source.text@, a.end) <= byte_offset(source.text@, b.start)
                    ||| byte_offset(source.text@, b.end) <= byte_offset(source.text@, a.start)
                },
                _ => true,
            },
    ensures
        source.well_formed(),
{
    assert forall|i: int|
        0 <= i < source.dependencies@.len() && (
        #[trigger] source.dependencies@[i]).specifier_text() is Some implies {
        let place = source.dependencies@[i].place();
        let inner = inner_range(source.text@, place);
        &&& within(source.text@, place)
        &&& inner.0 == byte_offset(source.text@, place.start) + 1
        &&& inner.1 == byte_offset(source.text@, place.end) - 1
        &&& inner.0 <= inner.1
    } by {
        written_specifiers(source.dependencies@[i]);
    }
    assert forall|i: int, j: int|
        0 <= i < j < source.dependencies@.len() && (
        #[trigger] source.dependencies@[i]).specifier_text() is Some && (
        #[trigger] source.dependencies@[j]).specifier_text() is Some implies {
        let a = inner_range(source.text@, source.dependencies@[i].place());
        let b = inner_range(source.text@, source.dependencies@[j].place());
        a.1 <= b.0 || b.1 <= a.0
    } by {
        written_specifiers(source.dependencies@[i]);
        written_specifiers(source.dependencies@[j]);
    }
}

} // verus!
