//! Text helpers: the character-level operations that names and comments need.

use vstd::prelude::*;
use vstd::utf8::{encode_scalar, encode_utf8};

verus! {

/// Appends `c` to `text` (`String::push`).
pub assume_specification[ std::string::String::push ](text: &mut std::string::String, c: char)
    ensures
        final(text)@ == old(text)@.push(c),
;

/// The text inside an optional string.
pub open spec fn opt_text(o: Option<String>) -> Option<Seq<char>> {
    match o {
        Some(s) => Some(s@),
        None => None,
    }
}

/// The texts of a list of strings.
pub open spec fn texts(list: Seq<String>) -> Seq<Seq<char>> {
    list.map_values(|s: String| s@)
}

/// The texts of a list of optional strings.
pub open spec fn opt_texts(list: Seq<Option<String>>) -> Seq<Option<Seq<char>>> {
    list.map_values(|o: Option<String>| opt_text(o))
}

/// The texts on both sides of a result.
pub open spec fn result_text(r: Result<String, String>) -> Result<Seq<char>, Seq<char>> {
    match r {
        Ok(s) => Ok(s@),
        Err(s) => Err(s@),
    }
}

/// `chosen` if there is one, else `fallback`.
pub open spec fn or_text(chosen: Option<Seq<char>>, fallback: Seq<char>) -> Seq<char> {
    match chosen {
        Some(s) => s,
        None => fallback,
    }
}

/// `chosen` if there is one, else a copy of `fallback`.
pub fn text_or(chosen: Option<String>, fallback: &String) -> (r: String)
    ensures
        r@ == or_text(opt_text(chosen), fallback@),
{
    match chosen {
        Some(s) => s,
        None => fallback.clone(),
    }
}

/// Whether `a` comes strictly before `b` in the order of code points.
pub open spec fn precedes(a: Seq<char>, b: Seq<char>) -> bool {
    exists|i: int| #[trigger] splits_at(a, b, i)
}

/// Whether `a` and `b` agree up to `i`, where `a` ends or has the smaller character.
pub open spec fn splits_at(a: Seq<char>, b: Seq<char>, i: int) -> bool {
    &&& 0 <= i <= a.len()
    &&& i < b.len()
    &&& a.take(i) == b.take(i)
    &&& (i == a.len() || (a[i] as u32) < (b[i] as u32))
}

/// Whether a character has the Unicode property `White_Space`.
pub open spec fn white_space(c: char) -> bool {
    let v = c as u32;
    ||| 0x9 <= v <= 0xd
    ||| v == 0x20
    ||| v == 0x85
    ||| v == 0xa0
    ||| v == 0x1680
    ||| 0x2000 <= v <= 0x200a
    ||| v == 0x2028
    ||| v == 0x2029
    ||| v == 0x202f
    ||| v == 0x205f
    ||| v == 0x3000
}

/// Whether a character has the Unicode property `White_Space`.
pub fn is_white_space(c: char) -> (r: bool)
    ensures
        r == white_space(c),
{
    let v: u32 = c as u32;
    (0x9 <= v && v <= 0xd) || v == 0x20 || v == 0x85 || v == 0xa0 || v == 0x1680 || (0x2000 <= v
        && v <= 0x200a) || v == 0x2028 || v == 0x2029 || v == 0x202f || v == 0x205f || v == 0x3000
}

/// `s` without leading white space.
pub open spec fn trim_start(s: Seq<char>) -> Seq<char>
    decreases s.len(),
{
    if s.len() > 0 && white_space(s[0]) {
        trim_start(s.drop_first())
    } else {
        s
    }
}

/// `s` without trailing white space.
pub open spec fn trim_end(s: Seq<char>) -> Seq<char>
    decreases s.len(),
{
    if s.len() > 0 && white_space(s.last()) {
        trim_end(s.drop_last())
    } else {
        s
    }
}

/// `s` without white space at either end.
pub open spec fn trim(s: Seq<char>) -> Seq<char> {
    trim_end(trim_start(s))
}

/// `text` without white space at either end.
pub fn trimmed(text: &str) -> (r: &str)
    ensures
        r@ == trim(text@),
{
    let len: usize = text.unicode_len();
    let mut from: usize = 0;
    assert(text@.skip(0) =~= text@);
    while from < len && is_white_space(text.get_char(from))
        invariant
            from <= len == text@.len(),
            trim_start(text@) == trim_start(text@.skip(from as int)),
        decreases len - from,
    {
        assert(text@.skip(from as int).drop_first() =~= text@.skip(from + 1));
        from = from + 1;
    }
    assert(trim_start(text@) == text@.skip(from as int));
    let mut to: usize = len;
    assert(text@.subrange(from as int, len as int) =~= text@.skip(from as int));
    while from < to && is_white_space(text.get_char(to - 1))
        invariant
            from <= to <= len == text@.len(),
            trim(text@) == trim_end(text@.subrange(from as int, to as int)),
        decreases to,
    {
        assert(text@.subrange(from as int, to as int).drop_last() =~= text@.subrange(
            from as int,
            to - 1,
        ));
        assert(text@.subrange(from as int, to as int).last() == text@[to - 1]);
        to = to - 1;
    }
    text.substring_char(from, to)
}

/// What follows `prefix` in `s`, if `s` begins with it.
pub open spec fn without_prefix(s: Seq<char>, prefix: Seq<char>) -> Option<Seq<char>> {
    if prefix.is_prefix_of(s) {
        Some(s.skip(prefix.len() as int))
    } else {
        None
    }
}

/// What follows `prefix` in `text`, if `text` begins with it.
pub fn strip_prefix<'a>(text: &'a str, prefix: &str) -> (r: Option<&'a str>)
    ensures
        match r {
            Some(rest) => without_prefix(text@, prefix@) == Some(rest@),
            None => without_prefix(text@, prefix@) is None,
        },
{
    let len: usize = text.unicode_len();
    let n: usize = prefix.unicode_len();
    if len < n {
        return None;
    }
    let mut i: usize = 0;
    while i < n
        invariant
            i <= n == prefix@.len(),
            n <= len == text@.len(),
            forall|j: int| 0 <= j < i ==> text@[j] == prefix@[j],
        decreases n - i,
    {
        if text.get_char(i) != prefix.get_char(i) {
            return None;
        }
        i = i + 1;
    }
    assert(text@.subrange(n as int, len as int) =~= text@.skip(n as int));
    Some(text.substring_char(n, len))
}

/// How many bytes a character takes in UTF-8.
pub open spec fn width(c: char) -> int {
    encode_scalar(c as u32).len() as int
}

/// How many bytes a character takes in UTF-8.
fn char_width(c: char) -> (r: usize)
    ensures
        r == width(c),
        1 <= r <= 4,
{
    let v: u32 = c as u32;
    if v <= 0x7f {
        1
    } else if v <= 0x7ff {
        2
    } else if v <= 0xffff {
        3
    } else {
        4
    }
}

/// What is left of `s` after its first `n` bytes, if they end between two characters.
pub open spec fn after_bytes(s: Seq<char>, n: int) -> Option<Seq<char>>
    decreases s.len(),
{
    if n == 0 {
        Some(s)
    } else if s.len() == 0 || n < width(s[0]) {
        None
    } else {
        after_bytes(s.drop_first(), n - width(s[0]))
    }
}

/// What is left of `text` after its first `n` bytes, if they end between two characters.
pub fn skip_bytes(text: &str, n: usize) -> (r: Option<&str>)
    ensures
        match r {
            Some(rest) => after_bytes(text@, n as int) == Some(rest@),
            None => after_bytes(text@, n as int) is None,
        },
{
    let len: usize = text.unicode_len();
    let mut i: usize = 0;
    let mut left: usize = n;
    assert(text@.skip(0) =~= text@);
    while left > 0
        invariant
            i <= len == text@.len(),
            after_bytes(text@, n as int) == after_bytes(text@.skip(i as int), left as int),
        decreases left,
    {
        if i == len {
            return None;
        }
        let w: usize = char_width(text.get_char(i));
        if left < w {
            return None;
        }
        assert(text@.skip(i as int).drop_first() =~= text@.skip(i + 1));
        left = left - w;
        i = i + 1;
    }
    assert(text@.subrange(i as int, len as int) =~= text@.skip(i as int));
    Some(text.substring_char(i, len))
}

/// `s` with every slash turned into a hyphen.
pub open spec fn hyphenate(s: Seq<char>) -> Seq<char> {
    s.map_values(|c: char| if c == '/' { '-' } else { c })
}

/// `text` with every slash turned into a hyphen.
pub fn hyphenated(text: &str) -> (r: String)
    ensures
        r@ == hyphenate(text@),
{
    let len: usize = text.unicode_len();
    let mut r = String::new();
    let mut i: usize = 0;
    while i < len
        invariant
            i <= len == text@.len(),
            r@ == hyphenate(text@.take(i as int)),
        decreases len - i,
    {
        let c = text.get_char(i);
        assert(hyphenate(text@.take(i + 1)) =~= hyphenate(text@.take(i as int)).push(
            if c == '/' { '-' } else { c },
        ));
        if c == '/' {
            r.push('-');
        } else {
            r.push(c);
        }
        i = i + 1;
    }
    assert(text@.take(len as int) =~= text@);
    r
}

/// Whether two texts are the same.
pub fn same_text(a: &str, b: &str) -> (r: bool)
    ensures
        r == (a@ == b@),
{
    a.to_owned() == b.to_owned()
}

/// The bytes of two texts in a row are their bytes in a row.
pub proof fn lemma_encode_concat(a: Seq<char>, b: Seq<char>)
    ensures
        encode_utf8(a + b) == encode_utf8(a) + encode_utf8(b),
    decreases a.len(),
{
    if a.len() == 0 {
        assert(a + b =~= b);
    } else {
        assert((a + b).drop_first() =~= a.drop_first() + b);
        lemma_encode_concat(a.drop_first(), b);
        assert(encode_utf8(a + b) =~= encode_utf8(a) + encode_utf8(b));
    }
}

/// Of two texts only one can come before the other, and none comes before itself.
pub proof fn order_is_strict(a: Seq<char>, b: Seq<char>)
    requires
        precedes(a, b),
    ensures
        !precedes(b, a),
        a != b,
{
    let i = choose|i: int| splits_at(a, b, i);
    if precedes(b, a) {
        let j = choose|j: int| splits_at(b, a, j);
        if i < j {
            assert(a.take(j)[i] == b.take(j)[i]);
        } else if j < i {
            assert(a.take(i)[j] == b.take(i)[j]);
        }
    }
}

/// The first character in which two texts differ decides which comes first, and a text comes before
/// those that it begins.
pub proof fn first_difference_decides(a: Seq<char>, b: Seq<char>, i: int)
    requires
        0 <= i <= a.len(),
        i < b.len(),
        forall|k: int| 0 <= k < i ==> #[trigger] a[k] == b[k],
        i == a.len() || (a[i] as u32) < (b[i] as u32),
    ensures
        precedes(a, b),
{
    assert(a.take(i) =~= b.take(i));
    assert(splits_at(a, b, i));
}

/// Where a text comes before another, they are the same up to a character that is smaller in the
/// first, or to the end of the first.
pub proof fn earlier_text_is_smaller(a: Seq<char>, b: Seq<char>) -> (i: int)
    requires
        precedes(a, b),
    ensures
        0 <= i <= a.len(),
        i < b.len(),
        forall|k: int| 0 <= k < i ==> #[trigger] a[k] == b[k],
        i == a.len() || (a[i] as u32) < (b[i] as u32),
{
    let i = choose|i: int| splits_at(a, b, i);
    assert forall|k: int| 0 <= k < i implies #[trigger] a[k] == b[k] by {
        assert(a.take(i)[k] == b.take(i)[k]);
    }
    i
}

/// Whether a text is nothing but white space.
pub open spec fn blank(s: Seq<char>) -> bool {
    forall|i: int| 0 <= i < s.len() ==> white_space(#[trigger] s[i])
}

/// Trimming takes the white space away from both ends, and no more.
pub proof fn trimming_takes_white_space(before: Seq<char>, s: Seq<char>, after: Seq<char>)
    requires
        blank(before),
        blank(after),
        s.len() > 0 ==> !white_space(s[0]) && !white_space(s.last()),
    ensures
        trim(before + s + after) == s,
{
    lemma_trim_start(before, s + after);
    assert(before + s + after =~= before + (s + after));
    if s.len() == 0 {
        assert(s + after =~= after);
        lemma_trim_start(after, seq![]);
        assert(after + Seq::<char>::empty() =~= after);
        assert(trim_start(Seq::<char>::empty()) =~= Seq::<char>::empty());
        lemma_trim_start_again(before, after);
        assert(s =~= Seq::<char>::empty());
    } else {
        assert((s + after)[0] == s[0]);
        assert(trim_start(s + after) == s + after);
        lemma_trim_end(s, after);
    }
}

/// What is blank is gone after trimming at the start.
proof fn lemma_trim_start_again(before: Seq<char>, after: Seq<char>)
    requires
        blank(before),
        blank(after),
    ensures
        trim(before + after) == Seq::<char>::empty(),
{
    assert forall|i: int| 0 <= i < (before + after).len() implies white_space(
        #[trigger] (before + after)[i],
    ) by {
        if i < before.len() {
            assert(white_space(before[i]));
        } else {
            assert(white_space(after[i - before.len()]));
        }
    }
    lemma_trim_start(before + after, seq![]);
    assert(before + after + Seq::<char>::empty() =~= before + after);
}

/// White space at the start is skipped.
proof fn lemma_trim_start(before: Seq<char>, s: Seq<char>)
    requires
        blank(before),
    ensures
        trim_start(before + s) == trim_start(s),
    decreases before.len(),
{
    if before.len() == 0 {
        assert(before + s =~= s);
    } else {
        assert(white_space(before[0]));
        assert((before + s).drop_first() =~= before.drop_first() + s);
        assert forall|i: int| 0 <= i < before.drop_first().len() implies white_space(
            #[trigger] before.drop_first()[i],
        ) by {
            assert(before.drop_first()[i] == before[i + 1]);
        }
        lemma_trim_start(before.drop_first(), s);
    }
}

/// White space at the end is skipped.
proof fn lemma_trim_end(s: Seq<char>, after: Seq<char>)
    requires
        blank(after),
        s.len() > 0,
        !white_space(s.last()),
    ensures
        trim_end(s + after) == s,
    decreases after.len(),
{
    if after.len() == 0 {
        assert(s + after =~= s);
    } else {
        let n = after.len() - 1;
        assert(white_space(after[n]));
        assert((s + after).last() == after[n]);
        assert((s + after).drop_last() =~= s + after.drop_last());
        assert forall|i: int| 0 <= i < after.drop_last().len() implies white_space(
            #[trigger] after.drop_last()[i],
        ) by {
            assert(after.drop_last()[i] == after[i]);
        }
        lemma_trim_end(s, after.drop_last());
    }
}

/// What trimming leaves stands between white space.
pub proof fn trimmed_stands_between(s: Seq<char>) -> (r: (Seq<char>, Seq<char>))
    ensures
        blank(r.0),
        blank(r.1),
        s == r.0 + trim(s) + r.1,
{
    let before = lemma_start_trimmed(s);
    let after = lemma_end_trimmed(trim_start(s));
    assert(before + trim(s) + after =~= before + (trim(s) + after));
    (before, after)
}

/// What trimming at the start takes away is blank.
proof fn lemma_start_trimmed(s: Seq<char>) -> (before: Seq<char>)
    ensures
        blank(before),
        s == before + trim_start(s),
    decreases s.len(),
{
    if s.len() > 0 && white_space(s[0]) {
        let rest = lemma_start_trimmed(s.drop_first());
        let before = seq![s[0]] + rest;
        assert forall|i: int| 0 <= i < before.len() implies white_space(#[trigger] before[i]) by {
            if i > 0 {
                assert(before[i] == rest[i - 1]);
            }
        }
        assert(s =~= seq![s[0]] + s.drop_first());
        assert(before + trim_start(s) =~= seq![s[0]] + (rest + trim_start(s)));
        before
    } else {
        assert(s =~= Seq::<char>::empty() + s);
        Seq::empty()
    }
}

/// What trimming at the end takes away is blank.
proof fn lemma_end_trimmed(s: Seq<char>) -> (after: Seq<char>)
    ensures
        blank(after),
        s == trim_end(s) + after,
    decreases s.len(),
{
    if s.len() > 0 && white_space(s.last()) {
        let rest = lemma_end_trimmed(s.drop_last());
        let after = rest.push(s.last());
        assert forall|i: int| 0 <= i < after.len() implies white_space(#[trigger] after[i]) by {
            if i < rest.len() {
                assert(after[i] == rest[i]);
            }
        }
        assert(s =~= s.drop_last().push(s.last()));
        assert(trim_end(s) + after =~= (trim_end(s) + rest).push(s.last()));
        after
    } else {
        assert(s =~= s + Seq::<char>::empty());
        Seq::empty()
    }
}

/// Skipping bytes skips the characters that they are.
pub proof fn skipped_bytes_are_characters(head: Seq<char>, rest: Seq<char>)
    ensures
        after_bytes(head + rest, encode_utf8(head).len() as int) == Some(rest),
    decreases head.len(),
{
    if head.len() == 0 {
        assert(head + rest =~= rest);
    } else {
        assert((head + rest).drop_first() =~= head.drop_first() + rest);
        skipped_bytes_are_characters(head.drop_first(), rest);
        assert(encode_utf8(head).len() == width(head[0]) + encode_utf8(head.drop_first()).len());
        assert(encode_scalar(head[0] as u32).len() >= 1);
    }
}

/// What is left after some bytes stands behind characters that are as many bytes.
pub proof fn rest_stands_behind(s: Seq<char>, n: int) -> (head: Seq<char>)
    requires
        after_bytes(s, n) is Some,
    ensures
        s == head + after_bytes(s, n)->0,
        encode_utf8(head).len() == n,
    decreases s.len(),
{
    if n == 0 {
        assert(s =~= Seq::<char>::empty() + s);
        Seq::empty()
    } else {
        let rest = rest_stands_behind(s.drop_first(), n - width(s[0]));
        let head = seq![s[0]] + rest;
        assert(head.drop_first() =~= rest);
        assert(s =~= seq![s[0]] + s.drop_first());
        assert(head + after_bytes(s, n)->0 =~= seq![s[0]] + (rest + after_bytes(s, n)->0));
        head
    }
}

/// Every slash becomes a hyphen, and every other character stays.
pub proof fn slashes_become_hyphens(s: Seq<char>)
    ensures
        hyphenate(s).len() == s.len(),
        forall|i: int|
            0 <= i < s.len() ==> #[trigger] hyphenate(s)[i] == (if s[i] == '/' {
                '-'
            } else {
                s[i]
            }),
{
}

/// The characters that are white space, one by one.
pub proof fn white_space_is_listed(c: char)
    ensures
        white_space(c) <==> {
            ||| c == '\u{9}' || c == '\u{a}' || c == '\u{b}' || c == '\u{c}' || c == '\u{d}'
            ||| c == '\u{20}' || c == '\u{85}' || c == '\u{a0}' || c == '\u{1680}'
            ||| c == '\u{2000}' || c == '\u{2001}' || c == '\u{2002}' || c == '\u{2003}'
            ||| c == '\u{2004}' || c == '\u{2005}' || c == '\u{2006}' || c == '\u{2007}'
            ||| c == '\u{2008}' || c == '\u{2009}' || c == '\u{200a}'
            ||| c == '\u{2028}' || c == '\u{2029}' || c == '\u{202f}' || c == '\u{205f}'
            ||| c == '\u{3000}'
        },
{
}

/// A text that begins with a prefix is the prefix and what follows it, and no other text begins with
/// it.
pub proof fn prefixes_come_off(prefix: Seq<char>, rest: Seq<char>, s: Seq<char>)
    ensures
        without_prefix(prefix + rest, prefix) == Some(rest),
        match without_prefix(s, prefix) {
            Some(behind) => s == prefix + behind,
            None => s != prefix + rest,
        },
{
    let whole = prefix + rest;
    assert(whole.subrange(0, prefix.len() as int) =~= prefix);
    assert(whole.skip(prefix.len() as int) =~= rest);
    if prefix.is_prefix_of(s) {
        assert(s =~= s.subrange(0, prefix.len() as int) + s.skip(prefix.len() as int));
    }
}

} // verus!
