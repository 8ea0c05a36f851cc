//! Marking of the words that the transcriber was unsure about.
//!
//! Low-confidence spans are byte ranges of the transcript. For the language
//! model they are widened to whole words and wrapped in `«…»`; in what is shown
//! to the user the marks never appear.

use crate::text::chars_of;
use vstd::prelude::*;
use vstd::string::*;
use vstd::utf8::*;

verus! {

/// Left guillemet, in front of a low-confidence region.
pub const MARK_OPEN: char = '«';

/// Right guillemet, behind a low-confidence region.
pub const MARK_CLOSE: char = '»';

/// What `char::is_alphanumeric` returns: whether a character has the Unicode
/// property Alphabetic or is numeric.
pub uninterp spec fn unicode_alphanumeric(c: char) -> bool;

/// `char::is_alphanumeric`. Claimed of it: its answer depends on the character
/// alone. Which characters outside ASCII are alphanumeric is left to the
/// Unicode tables that it consults.
#[verifier::external_body]
fn char_is_alphanumeric(c: char) -> (yes: bool)
    ensures
        yes == unicode_alphanumeric(c),
{
    c.is_alphanumeric()
}

/// A letter or a digit: in ASCII the usual ones, beyond ASCII those of Unicode.
pub open spec fn word_char(c: char) -> bool {
    if c <= '\u{7f}' {
        ('a' <= c <= 'z') || ('A' <= c <= 'Z') || ('0' <= c <= '9')
    } else {
        unicode_alphanumeric(c)
    }
}

/// Whether `c` is a letter or a digit.
fn is_word_char(c: char) -> (yes: bool)
    ensures
        yes == word_char(c),
{
    if c <= '\u{7f}' {
        ('a' <= c && c <= 'z') || ('A' <= c && c <= 'Z') || ('0' <= c && c <= '9')
    } else {
        char_is_alphanumeric(c)
    }
}

/// Whether `s` holds a letter or a digit.
pub open spec fn has_word_char(s: Seq<char>) -> bool {
    exists|i: int| 0 <= i < s.len() && word_char(#[trigger] s[i])
}

/// An ASCII white space byte: a space, a tab, a line feed, a form feed or a
/// carriage return.
pub open spec fn ascii_white_space(b: u8) -> bool {
    b == 0x20 || b == 0x09 || b == 0x0a || b == 0x0c || b == 0x0d
}

/// Whether `b` is an ASCII white space byte.
fn is_ascii_white_space(b: u8) -> (yes: bool)
    ensures
        yes == ascii_white_space(b),
{
    b == 0x20 || b == 0x09 || b == 0x0a || b == 0x0c || b == 0x0d
}

/// The text in the bytes `from..to`.
pub open spec fn piece(bytes: Seq<u8>, from: int, to: int) -> Seq<char> {
    decode_utf8(bytes.subrange(from, to))
}

/// The end of the range `from..to` without the ASCII white space behind it.
pub open spec fn content_end(bytes: Seq<u8>, from: int, to: int) -> int
    decreases to - from,
{
    if from < to && ascii_white_space(bytes[to - 1]) {
        content_end(bytes, from, to - 1)
    } else {
        to
    }
}

/// The start of the whitespace-delimited word that reaches up to `at`.
pub open spec fn word_start(bytes: Seq<u8>, at: int) -> int
    decreases at,
{
    if at > 0 && !ascii_white_space(bytes[at - 1]) {
        word_start(bytes, at - 1)
    } else {
        at
    }
}

/// The end of the whitespace-delimited word that goes on at `at`.
pub open spec fn word_end(bytes: Seq<u8>, at: int) -> int
    decreases bytes.len() - at,
{
    if at < bytes.len() && !ascii_white_space(bytes[at]) {
        word_end(bytes, at + 1)
    } else {
        at
    }
}

/// The smaller of two numbers.
pub open spec fn least(a: int, b: int) -> int {
    if a <= b {
        a
    } else {
        b
    }
}

/// The whole words that a span covers: the span, cut to the text and freed of
/// white space at its end, widened to the white space around it. A span that is
/// empty, holds only white space, or covers no letter and no digit covers none.
pub open spec fn snapped(bytes: Seq<u8>, span: (usize, usize)) -> Option<(int, int)> {
    let from = least(span.0 as int, bytes.len() as int);
    let end = content_end(bytes, from, least(span.1 as int, bytes.len() as int));
    let region = (word_start(bytes, from), word_end(bytes, end));
    if end > from && has_word_char(piece(bytes, region.0, region.1)) {
        Some(region)
    } else {
        None
    }
}

/// The larger of two numbers.
pub open spec fn greatest(a: int, b: int) -> int {
    if a >= b {
        a
    } else {
        b
    }
}

/// The regions, given in ascending order, with one more in its place: those
/// that it overlaps or touches become one with it.
pub open spec fn joined(regions: Seq<(int, int)>, region: (int, int)) -> Seq<(int, int)>
    decreases regions.len(),
{
    if regions.len() == 0 {
        seq![region]
    } else {
        let last = regions.last();
        let front = regions.drop_last();
        if last.1 < region.0 {
            regions.push(region)
        } else if region.1 < last.0 {
            joined(front, region).push(last)
        } else {
            joined(front, (least(last.0, region.0), greatest(last.1, region.1)))
        }
    }
}

/// The regions to mark, in ascending order, whatever the order of the spans.
pub open spec fn regions_of(bytes: Seq<u8>, spans: Seq<(usize, usize)>) -> Seq<(int, int)>
    decreases spans.len(),
{
    if spans.len() == 0 {
        Seq::empty()
    } else {
        let before = regions_of(bytes, spans.drop_last());
        match snapped(bytes, spans.last()) {
            Some(region) => joined(before, region),
            None => before,
        }
    }
}

/// The text from byte `from` on, with each of the regions wrapped in marks.
pub open spec fn wrapped(bytes: Seq<u8>, regions: Seq<(int, int)>, from: int) -> Seq<char>
    decreases regions.len(),
{
    if regions.len() == 0 {
        piece(bytes, from, bytes.len() as int)
    } else {
        let r = regions[0];
        piece(bytes, from, r.0).push(MARK_OPEN) + piece(bytes, r.0, r.1).push(MARK_CLOSE) + wrapped(
            bytes,
            regions.skip(1),
            r.1,
        )
    }
}

/// `text` with the words under the low-confidence `spans` wrapped in `«…»`.
pub open spec fn marked(text: Seq<char>, spans: Seq<(usize, usize)>) -> Seq<char> {
    let bytes = encode_utf8(text);
    wrapped(bytes, regions_of(bytes, spans), 0)
}

/// A region of whole words: it is bounded on both sides by white space or an
/// end of the text.
pub open spec fn is_word_region(bytes: Seq<u8>, r: (int, int)) -> bool {
    &&& 0 <= r.0 < r.1 <= bytes.len()
    &&& r.0 == 0 || ascii_white_space(bytes[r.0 - 1])
    &&& r.1 == bytes.len() || ascii_white_space(bytes[r.1])
}

/// Regions of whole words, in ascending order, none touching the next.
pub open spec fn are_word_regions(bytes: Seq<u8>, regions: Seq<(int, int)>) -> bool {
    &&& forall|i: int| 0 <= i < regions.len() ==> is_word_region(bytes, #[trigger] regions[i])
    &&& forall|i: int, j: int|
        0 <= i < j < regions.len() ==> (#[trigger] regions[i]).1 < (#[trigger] regions[j]).0
}

proof fn lemma_content_end(bytes: Seq<u8>, from: int, to: int)
    ensures
        content_end(bytes, from, to) <= to,
        from <= to ==> from <= content_end(bytes, from, to),
    decreases to - from,
{
    if from < to && ascii_white_space(bytes[to - 1]) {
        lemma_content_end(bytes, from, to - 1);
    }
}

proof fn lemma_word_start(bytes: Seq<u8>, at: int)
    requires
        0 <= at <= bytes.len(),
    ensures
        0 <= word_start(bytes, at) <= at,
        word_start(bytes, at) == 0 || ascii_white_space(bytes[word_start(bytes, at) - 1]),
    decreases at,
{
    if at > 0 && !ascii_white_space(bytes[at - 1]) {
        lemma_word_start(bytes, at - 1);
    }
}

proof fn lemma_word_end(bytes: Seq<u8>, at: int)
    requires
        0 <= at <= bytes.len(),
    ensures
        at <= word_end(bytes, at) <= bytes.len(),
        word_end(bytes, at) == bytes.len() || ascii_white_space(bytes[word_end(bytes, at)]),
    decreases bytes.len() - at,
{
    if at < bytes.len() && !ascii_white_space(bytes[at]) {
        lemma_word_end(bytes, at + 1);
    }
}

proof fn lemma_snapped(bytes: Seq<u8>, span: (usize, usize))
    ensures
        snapped(bytes, span) matches Some(r) ==> is_word_region(bytes, r),
{
    let from = least(span.0 as int, bytes.len() as int);
    let to = least(span.1 as int, bytes.len() as int);
    lemma_content_end(bytes, from, to);
    let end = content_end(bytes, from, to);
    if end > from {
        lemma_word_start(bytes, from);
        lemma_word_end(bytes, end);
    }
}

/// A region lies left of `bound`, or there is none.
spec fn ends_before(regions: Seq<(int, int)>, bound: int) -> bool {
    regions.len() > 0 ==> regions.last().1 < bound
}

proof fn lemma_joined(bytes: Seq<u8>, regions: Seq<(int, int)>, region: (int, int))
    requires
        are_word_regions(bytes, regions),
        is_word_region(bytes, region),
    ensures
        are_word_regions(bytes, joined(regions, region)),
        forall|bound: int|
            #![trigger ends_before(regions, bound)]
            region.1 < bound && ends_before(regions, bound) ==> ends_before(
                joined(regions, region),
                bound,
            ),
    decreases regions.len(),
{
    if regions.len() > 0 {
        let last = regions.last();
        let front = regions.drop_last();
        assert(is_word_region(bytes, regions[regions.len() - 1]));
        assert forall|i: int| 0 <= i < front.len() implies is_word_region(
            bytes,
            #[trigger] front[i],
        ) by {
            assert(front[i] == regions[i]);
        }
        assert forall|i: int, j: int| 0 <= i < j < front.len() implies (#[trigger] front[i]).1 < (
        #[trigger] front[j]).0 by {
            assert(regions[i].1 < regions[j].0);
        }
        if front.len() > 0 {
            assert(regions[regions.len() - 2].1 < regions[regions.len() - 1].0);
        }
        assert(ends_before(front, last.0));
        if last.1 < region.0 {
            lemma_push_region(bytes, regions, region);
        } else if region.1 < last.0 {
            lemma_joined(bytes, front, region);
            assert(ends_before(joined(front, region), last.0));
            lemma_push_region(bytes, joined(front, region), last);
        } else {
            let hull = (least(last.0, region.0), greatest(last.1, region.1));
            lemma_joined(bytes, front, hull);
            assert forall|bound: int|
                #![trigger ends_before(regions, bound)]
                region.1 < bound && ends_before(regions, bound) implies ends_before(
                joined(regions, region),
                bound,
            ) by {
                assert(ends_before(front, bound));
            }
        }
    } else {
        assert(joined(regions, region)[0] == region);
    }
}

proof fn lemma_push_region(bytes: Seq<u8>, regions: Seq<(int, int)>, region: (int, int))
    requires
        are_word_regions(bytes, regions),
        is_word_region(bytes, region),
        ends_before(regions, region.0),
    ensures
        are_word_regions(bytes, regions.push(region)),
{
    let out = regions.push(region);
    assert forall|i: int| 0 <= i < out.len() implies is_word_region(bytes, #[trigger] out[i]) by {
        if i < regions.len() {
            assert(out[i] == regions[i]);
        }
    }
    assert forall|i: int, j: int| 0 <= i < j < out.len() implies (#[trigger] out[i]).1 < (
    #[trigger] out[j]).0 by {
        assert(out[i] == regions[i]);
        if j < regions.len() {
            assert(out[j] == regions[j]);
        } else if i < regions.len() - 1 {
            assert(regions[i].1 < regions[regions.len() - 1].0);
            assert(is_word_region(bytes, regions[regions.len() - 1]));
        }
    }
}

/// The marked regions are whole words, in order, and apart from each other,
/// whatever spans the transcriber gave.
pub proof fn law_marks_cover_whole_words(bytes: Seq<u8>, spans: Seq<(usize, usize)>)
    ensures
        are_word_regions(bytes, regions_of(bytes, spans)),
    decreases spans.len(),
{
    if spans.len() > 0 {
        law_marks_cover_whole_words(bytes, spans.drop_last());
        lemma_snapped(bytes, spans.last());
        if let Some(region) = snapped(bytes, spans.last()) {
            lemma_joined(bytes, regions_of(bytes, spans.drop_last()), region);
        }
    }
}

/// Behind an ASCII byte, as in front of it, a character begins or the text
/// ends.
proof fn lemma_boundary_after_ascii(bytes: Seq<u8>, i: int)
    requires
        valid_utf8(bytes),
        0 <= i < bytes.len(),
        bytes[i] <= 0x7f,
    ensures
        is_char_boundary(bytes, i),
        is_char_boundary(bytes, i + 1),
    decreases bytes.len(),
{
    is_char_boundary_iff_not_is_continuation_byte(bytes, i);
    let n = length_of_first_scalar(bytes);
    let rest = pop_first_scalar(bytes);
    if i == 0 {
        is_char_boundary_start_end_of_seq(rest);
        reveal_with_fuel(is_char_boundary, 2);
    } else {
        reveal_with_fuel(is_char_boundary, 2);
        assert(i >= n);
        assert(rest[i - n] == bytes[i]);
        lemma_boundary_after_ascii(rest, i - n);
    }
}

/// The ends of a region of whole words are ends of characters.
proof fn lemma_region_boundaries(bytes: Seq<u8>, r: (int, int))
    requires
        valid_utf8(bytes),
        is_word_region(bytes, r),
    ensures
        is_char_boundary(bytes, r.0),
        is_char_boundary(bytes, r.1),
{
    is_char_boundary_start_end_of_seq(bytes);
    if r.0 > 0 {
        lemma_boundary_after_ascii(bytes, r.0 - 1);
    }
    if r.1 < bytes.len() {
        lemma_boundary_after_ascii(bytes, r.1);
    }
}

/// A boundary of the whole is one of each part cut at boundaries that holds it.
proof fn lemma_boundary_in_prefix(bytes: Seq<u8>, at: int, to: int)
    requires
        valid_utf8(bytes),
        0 <= at <= to <= bytes.len(),
        is_char_boundary(bytes, at),
        is_char_boundary(bytes, to),
    ensures
        valid_utf8(bytes.subrange(0, to)),
        is_char_boundary(bytes.subrange(0, to), at),
{
    let prefix = bytes.subrange(0, to);
    valid_utf8_split(bytes, to);
    if at == to {
        is_char_boundary_start_end_of_seq(prefix);
    } else {
        is_char_boundary_iff_not_is_continuation_byte(bytes, at);
        is_char_boundary_iff_not_is_continuation_byte(prefix, at);
    }
}

/// A boundary of the whole is one of the rest from a boundary in front of it.
proof fn lemma_boundary_in_suffix(bytes: Seq<u8>, from: int, at: int)
    requires
        valid_utf8(bytes),
        0 <= from <= at <= bytes.len(),
        is_char_boundary(bytes, from),
        is_char_boundary(bytes, at),
    ensures
        valid_utf8(bytes.subrange(from, bytes.len() as int)),
        is_char_boundary(bytes.subrange(from, bytes.len() as int), at - from),
{
    let suffix = bytes.subrange(from, bytes.len() as int);
    valid_utf8_split(bytes, from);
    if at == bytes.len() {
        is_char_boundary_start_end_of_seq(suffix);
    } else {
        is_char_boundary_iff_not_is_continuation_byte(bytes, at);
        is_char_boundary_iff_not_is_continuation_byte(suffix, at - from);
    }
}

/// The bytes `from..to` of `text`, as text.
fn byte_piece(text: &str, from: usize, to: usize) -> (out: &str)
    requires
        from <= to <= encode_utf8(text@).len(),
        is_char_boundary(encode_utf8(text@), from as int),
        is_char_boundary(encode_utf8(text@), to as int),
    ensures
        out@ == piece(encode_utf8(text@), from as int, to as int),
{
    let ghost bytes = encode_utf8(text@);
    proof {
        encode_utf8_valid_utf8(text@);
        lemma_boundary_in_prefix(bytes, from as int, to as int);
    }
    let front = text.split_at(to).0;
    assert(front.spec_bytes() == bytes.subrange(0, to as int));
    let out = front.split_at(from).1;
    assert(bytes.subrange(0, to as int).subrange(from as int, to as int) =~= bytes.subrange(
        from as int,
        to as int,
    ));
    proof {
        encode_utf8_decode_utf8(out@);
    }
    out
}

/// Whether `s` holds a letter or a digit.
fn holds_word_char(s: &str) -> (yes: bool)
    ensures
        yes == has_word_char(s@),
{
    let chars = chars_of(s);
    let mut i: usize = 0;
    while i < chars.len()
        invariant
            i <= chars@.len(),
            chars@ == s@,
            forall|k: int| 0 <= k < i ==> !word_char(#[trigger] chars@[k]),
        decreases chars@.len() - i,
    {
        if is_word_char(chars[i]) {
            assert(word_char(s@[i as int]));
            return true;
        }
        i += 1;
    }
    false
}

/// The whole words that a span of `text` covers, as a byte range.
fn snap_span(text: &str, span: (usize, usize)) -> (region: Option<(usize, usize)>)
    ensures
        match region {
            Some(r) => snapped(encode_utf8(text@), span) == Some((r.0 as int, r.1 as int)),
            None => snapped(encode_utf8(text@), span) is None,
        },
{
    let bytes = text.as_bytes();
    let len: usize = bytes.len();
    let from: usize = if span.0 < len {
        span.0
    } else {
        len
    };
    let to: usize = if span.1 < len {
        span.1
    } else {
        len
    };
    proof {
        lemma_content_end(bytes@, from as int, to as int);
    }
    if from >= to {
        return None;
    }
    let mut end: usize = to;
    while end > from && is_ascii_white_space(bytes[end - 1])
        invariant
            from <= end <= to <= bytes@.len(),
            content_end(bytes@, from as int, to as int) == content_end(
                bytes@,
                from as int,
                end as int,
            ),
        decreases end,
    {
        end -= 1;
    }
    if end <= from {
        return None;
    }
    let mut start: usize = from;
    while start > 0 && !is_ascii_white_space(bytes[start - 1])
        invariant
            start <= from <= bytes@.len(),
            word_start(bytes@, from as int) == word_start(bytes@, start as int),
        decreases start,
    {
        start -= 1;
    }
    let mut stop: usize = end;
    while stop < bytes.len() && !is_ascii_white_space(bytes[stop])
        invariant
            end <= stop <= bytes@.len(),
            word_end(bytes@, end as int) == word_end(bytes@, stop as int),
        decreases bytes@.len() - stop,
    {
        stop += 1;
    }
    proof {
        lemma_word_start(bytes@, from as int);
        lemma_word_end(bytes@, end as int);
        encode_utf8_valid_utf8(text@);
        lemma_region_boundaries(bytes@, (start as int, stop as int));
    }
    if holds_word_char(byte_piece(text, start, stop)) {
        Some((start, stop))
    } else {
        None
    }
}

/// The mathematical form of a list of byte ranges.
pub open spec fn ranges(list: Seq<(usize, usize)>) -> Seq<(int, int)> {
    list.map_values(|r: (usize, usize)| (r.0 as int, r.1 as int))
}

/// The regions, given in ascending order, with one more in its place.
fn join_region(regions: Vec<(usize, usize)>, region: (usize, usize)) -> (out: Vec<(usize, usize)>)
    ensures
        ranges(out@) == joined(ranges(regions@), (region.0 as int, region.1 as int)),
{
    let ghost whole = joined(ranges(regions@), (region.0 as int, region.1 as int));
    let mut left = regions;
    let mut region = region;
    // Those to the right of the region, the rightmost first.
    let mut right: Vec<(usize, usize)> = Vec::new();
    let mut searching = true;
    assert(joined(ranges(left@), (region.0 as int, region.1 as int)) + ranges(
        right@,
    ).reverse() =~= whole);
    while searching
        invariant
            joined(ranges(left@), (region.0 as int, region.1 as int)) + ranges(right@).reverse()
                == whole,
            !searching ==> left@.len() == 0 || left@.last().1 < region.0,
        decreases
            left@.len() + if searching {
                1int
            } else {
                0int
            },
    {
        let ghost rest = ranges(right@).reverse();
        let ghost all = ranges(left@);
        let ghost here = (region.0 as int, region.1 as int);
        match left.pop() {
            None => {
                searching = false;
            },
            Some(last) => {
                let ghost there = (last.0 as int, last.1 as int);
                assert(all.last() == there);
                assert(ranges(left@) =~= all.drop_last());
                if last.1 < region.0 {
                    left.push(last);
                    assert(ranges(left@) =~= all);
                    searching = false;
                } else if region.1 < last.0 {
                    right.push(last);
                    assert(ranges(right@).reverse() =~= seq![there] + rest);
                    assert(joined(all.drop_last(), here).push(there) + rest =~= joined(
                        all.drop_last(),
                        here,
                    ) + (seq![there] + rest));
                } else {
                    let from: usize = if last.0 <= region.0 {
                        last.0
                    } else {
                        region.0
                    };
                    let to: usize = if last.1 >= region.1 {
                        last.1
                    } else {
                        region.1
                    };
                    region = (from, to);
                }
            },
        }
    }
    let ghost here = (region.0 as int, region.1 as int);
    assert(joined(ranges(left@), here) =~= ranges(left@).push(here));
    left.push(region);
    assert(ranges(left@) + ranges(right@).reverse() =~= whole);
    while right.len() > 0
        invariant
            ranges(left@) + ranges(right@).reverse() == whole,
        decreases right@.len(),
    {
        let ghost before = ranges(left@);
        let ghost rest = ranges(right@);
        if let Some(next) = right.pop() {
            left.push(next);
            let ghost there = (next.0 as int, next.1 as int);
            assert(rest.last() == there);
            assert(ranges(right@) =~= rest.drop_last());
            assert(rest.reverse() =~= seq![there] + rest.drop_last().reverse());
            assert(ranges(left@) =~= before.push(there));
            assert(ranges(left@) + ranges(right@).reverse() =~= before + rest.reverse());
        }
    }
    assert(ranges(left@) =~= whole);
    left
}

/// The regions of `text` to mark for `spans`.
fn collect_regions(text: &str, spans: &[(usize, usize)]) -> (out: Vec<(usize, usize)>)
    ensures
        ranges(out@) == regions_of(encode_utf8(text@), spans@),
{
    let ghost bytes = encode_utf8(text@);
    let mut out: Vec<(usize, usize)> = Vec::new();
    let mut i: usize = 0;
    assert(ranges(out@) =~= regions_of(bytes, spans@.take(0)));
    while i < spans.len()
        invariant
            i <= spans@.len(),
            bytes == encode_utf8(text@),
            ranges(out@) == regions_of(bytes, spans@.take(i as int)),
        decreases spans@.len() - i,
    {
        assert(spans@.take(i as int + 1).drop_last() =~= spans@.take(i as int));
        assert(spans@.take(i as int + 1).last() == spans@[i as int]);
        if let Some(region) = snap_span(text, spans[i]) {
            out = join_region(out, region);
        }
        i += 1;
    }
    assert(spans@.take(i as int) =~= spans@);
    out
}

/// Where the regions from the `i`th on are still to be written and the text
/// before `next` has been, `next` is an end of a character in front of them.
spec fn may_write_from(bytes: Seq<u8>, regions: Seq<(int, int)>, i: int, next: int) -> bool {
    &&& 0 <= next <= bytes.len()
    &&& is_char_boundary(bytes, next)
    &&& forall|k: int| i <= k < regions.len() ==> next <= (#[trigger] regions[k]).0
}

/// Wraps the given byte ranges of `text` in `«…»`, after widening them to whole
/// words. A word ends at ASCII white space: a space, a tab, a line feed, a form
/// feed or a carriage return. Other characters, such as a no-break space or a
/// vertical tab, are part of the word.
pub fn mark_spans(text: &str, spans: &[(usize, usize)]) -> (out: String)
    ensures
        out@ == marked(text@, spans@),
{
    let ghost bytes = encode_utf8(text@);
    let regions = collect_regions(text, spans);
    let ghost all = ranges(regions@);
    proof {
        encode_utf8_valid_utf8(text@);
        is_char_boundary_start_end_of_seq(bytes);
        law_marks_cover_whole_words(bytes, spans@);
    }
    let len: usize = text.as_bytes().len();
    let mut out = String::new();
    let mut next: usize = 0;
    let mut i: usize = 0;
    assert(all.skip(0) =~= all);
    assert(out@ + wrapped(bytes, all.skip(0), 0) =~= wrapped(bytes, all, 0));
    while i < regions.len()
        invariant
            i <= regions@.len(),
            all == ranges(regions@),
            bytes == encode_utf8(text@),
            valid_utf8(bytes),
            are_word_regions(bytes, all),
            may_write_from(bytes, all, i as int, next as int),
            out@ + wrapped(bytes, all.skip(i as int), next as int) == wrapped(bytes, all, 0),
        decreases regions@.len() - i,
    {
        let (s, e) = regions[i];
        let ghost written = out@;
        proof {
            assert(all[i as int] == (s as int, e as int));
            assert(is_word_region(bytes, all[i as int]));
            lemma_region_boundaries(bytes, all[i as int]);
            assert(all.skip(i as int)[0] == all[i as int]);
            assert(all.skip(i as int).skip(1) =~= all.skip(i as int + 1));
            assert forall|k: int| i + 1 <= k < all.len() implies e <= (#[trigger] all[k]).0 by {
                assert(all[i as int].1 < all[k].0);
            }
        }
        out.append(byte_piece(text, next, s));
        out.push(MARK_OPEN);
        out.append(byte_piece(text, s, e));
        out.push(MARK_CLOSE);
        proof {
            let rest = wrapped(bytes, all.skip(i as int + 1), e as int);
            assert(out@ =~= written + piece(bytes, next as int, s as int).push(MARK_OPEN) + piece(
                bytes,
                s as int,
                e as int,
            ).push(MARK_CLOSE));
            assert(out@ + rest =~= written + (piece(bytes, next as int, s as int).push(MARK_OPEN)
                + piece(bytes, s as int, e as int).push(MARK_CLOSE) + rest));
        }
        next = e;
        i += 1;
    }
    out.append(byte_piece(text, next, len));
    out
}

/// Whether `c` is one of the two marks.
pub open spec fn is_mark(c: char) -> bool {
    c == MARK_OPEN || c == MARK_CLOSE
}

/// `s` without its marks.
pub open spec fn unmarked(s: Seq<char>) -> Seq<char> {
    s.filter(|c: char| !is_mark(c))
}

/// Removes `«…»` marks from model output, so that they never leak into what is
/// shown.
pub fn strip_markers(s: &str) -> (out: String)
    ensures
        out@ == unmarked(s@),
{
    let chars = chars_of(s);
    let mut out = String::new();
    let mut i: usize = 0;
    assert(out@ =~= unmarked(chars@.take(0)));
    while i < chars.len()
        invariant
            i <= chars@.len(),
            out@ == unmarked(chars@.take(i as int)),
        decreases chars@.len() - i,
    {
        let c = chars[i];
        if c != MARK_OPEN && c != MARK_CLOSE {
            out.push(c);
        }
        proof {
            assert(chars@.take(i as int + 1).drop_last() =~= chars@.take(i as int));
            assert(chars@.take(i as int + 1).last() == c);
            reveal(Seq::filter);
        }
        i += 1;
    }
    assert(chars@.take(i as int) =~= s@);
    out
}

/// Removing the marks gives back what the text was: marking adds marks and
/// changes nothing else.
pub proof fn law_marks_can_be_removed(text: Seq<char>, spans: Seq<(usize, usize)>)
    ensures
        unmarked(marked(text, spans)) == unmarked(text),
        !text.contains(MARK_OPEN) && !text.contains(MARK_CLOSE) ==> unmarked(marked(text, spans))
            == text,
{
    let bytes = encode_utf8(text);
    encode_utf8_valid_utf8(text);
    encode_utf8_decode_utf8(text);
    is_char_boundary_start_end_of_seq(bytes);
    law_marks_cover_whole_words(bytes, spans);
    lemma_unmarked_wrapped(bytes, regions_of(bytes, spans), 0);
    assert(bytes.subrange(0, bytes.len() as int) =~= bytes);
    if !text.contains(MARK_OPEN) && !text.contains(MARK_CLOSE) {
        law_text_without_marks_is_kept(text);
    }
}

proof fn lemma_unmarked_wrapped(bytes: Seq<u8>, regions: Seq<(int, int)>, from: int)
    requires
        valid_utf8(bytes),
        are_word_regions(bytes, regions),
        may_write_from(bytes, regions, 0, from),
    ensures
        unmarked(wrapped(bytes, regions, from)) == unmarked(
            piece(bytes, from, bytes.len() as int),
        ),
    decreases regions.len(),
{
    let len = bytes.len() as int;
    if regions.len() > 0 {
        let r = regions[0];
        let rest = regions.skip(1);
        assert(is_word_region(bytes, r));
        lemma_region_boundaries(bytes, r);
        assert forall|i: int| 0 <= i < rest.len() implies is_word_region(
            bytes,
            #[trigger] rest[i],
        ) by {
            assert(rest[i] == regions[i + 1]);
        }
        assert forall|i: int, j: int| 0 <= i < j < rest.len() implies (#[trigger] rest[i]).1 < (
        #[trigger] rest[j]).0 by {
            assert(regions[i + 1].1 < regions[j + 1].0);
        }
        assert forall|k: int| 0 <= k < rest.len() implies r.1 <= (#[trigger] rest[k]).0 by {
            assert(regions[0].1 < regions[k + 1].0);
        }
        lemma_unmarked_wrapped(bytes, rest, r.1);
        let a = piece(bytes, from, r.0);
        let b = piece(bytes, r.0, r.1);
        let c = piece(bytes, r.1, len);
        lemma_piece_splits(bytes, from, r.0, len);
        lemma_piece_splits(bytes, r.0, r.1, len);
        lemma_unmarked_push(a, MARK_OPEN);
        lemma_unmarked_push(b, MARK_CLOSE);
        let w = wrapped(bytes, rest, r.1);
        lemma_unmarked_add(a.push(MARK_OPEN) + b.push(MARK_CLOSE), w);
        lemma_unmarked_add(a.push(MARK_OPEN), b.push(MARK_CLOSE));
        lemma_unmarked_add(a, b + c);
        lemma_unmarked_add(b, c);
        assert(unmarked(a) + (unmarked(b) + unmarked(c)) =~= unmarked(a) + unmarked(b) + unmarked(
            c,
        ));
    }
}

proof fn lemma_piece_splits(bytes: Seq<u8>, from: int, at: int, to: int)
    requires
        valid_utf8(bytes),
        0 <= from <= at <= to == bytes.len(),
        is_char_boundary(bytes, from),
        is_char_boundary(bytes, at),
    ensures
        piece(bytes, from, to) == piece(bytes, from, at) + piece(bytes, at, to),
{
    let suffix = bytes.subrange(from, to);
    lemma_boundary_in_suffix(bytes, from, at);
    decode_utf8_split(suffix, at - from);
    assert(suffix.subrange(0, at - from) =~= bytes.subrange(from, at));
    assert(suffix.subrange(at - from, suffix.len() as int) =~= bytes.subrange(at, to));
}

proof fn lemma_unmarked_push(s: Seq<char>, mark: char)
    requires
        is_mark(mark),
    ensures
        unmarked(s.push(mark)) == unmarked(s),
{
    reveal(Seq::filter);
    assert(s.push(mark).drop_last() =~= s);
}

proof fn lemma_unmarked_add(a: Seq<char>, b: Seq<char>)
    ensures
        unmarked(a + b) == unmarked(a) + unmarked(b),
{
    Seq::filter_distributes_over_add(a, b, |c: char| !is_mark(c));
}

/// Without low-confidence spans the text stays as it is.
pub proof fn law_no_spans_no_marks(text: Seq<char>)
    ensures
        marked(text, Seq::empty()) == text,
{
    let bytes = encode_utf8(text);
    encode_utf8_decode_utf8(text);
    assert(bytes.subrange(0, bytes.len() as int) =~= bytes);
}

/// Text without marks is not changed by their removal.
pub proof fn law_text_without_marks_is_kept(s: Seq<char>)
    requires
        !s.contains(MARK_OPEN),
        !s.contains(MARK_CLOSE),
    ensures
        unmarked(s) == s,
    decreases s.len(),
{
    reveal(Seq::filter);
    if s.len() > 0 {
        let front = s.drop_last();
        assert forall|c: char| front.contains(c) implies s.contains(c) by {
            let k = choose|k: int| 0 <= k < front.len() && front[k] == c;
            assert(s[k] == c);
        }
        law_text_without_marks_is_kept(front);
        assert(s.contains(s.last()));
        assert(s =~= front.push(s.last()));
    }
}

/// No mark is left once they have been removed.
pub proof fn law_no_mark_is_left(s: Seq<char>)
    ensures
        !unmarked(s).contains(MARK_OPEN),
        !unmarked(s).contains(MARK_CLOSE),
{
}

/// The byte `at` lies in one of the regions.
pub open spec fn holds(regions: Seq<(int, int)>, at: int) -> bool {
    exists|k: int| 0 <= k < regions.len() && (#[trigger] regions[k]).0 <= at < regions[k].1
}

/// The region `r` lies inside one of the regions.
pub open spec fn covered(regions: Seq<(int, int)>, r: (int, int)) -> bool {
    exists|k: int|
        0 <= k < regions.len() && (#[trigger] regions[k]).0 <= r.0 && r.1 <= regions[k].1
}

proof fn lemma_covered_push(regions: Seq<(int, int)>, last: (int, int), r: (int, int))
    ensures
        covered(regions, r) ==> covered(regions.push(last), r),
        last.0 <= r.0 && r.1 <= last.1 ==> covered(regions.push(last), r),
{
    let out = regions.push(last);
    assert(out[regions.len() as int] == last);
    if covered(regions, r) {
        let k = choose|k: int|
            0 <= k < regions.len() && (#[trigger] regions[k]).0 <= r.0 && r.1 <= regions[k].1;
        assert(out[k] == regions[k]);
    }
}

/// Joining one more region keeps what was covered, and covers the region.
proof fn lemma_joined_covers(regions: Seq<(int, int)>, region: (int, int), r: (int, int))
    requires
        covered(regions, r) || (region.0 <= r.0 && r.1 <= region.1),
    ensures
        covered(joined(regions, region), r),
    decreases regions.len(),
{
    if regions.len() == 0 {
        assert(joined(regions, region)[0] == region);
    } else {
        let last = regions.last();
        let front = regions.drop_last();
        let in_last = last.0 <= r.0 && r.1 <= last.1;
        if covered(regions, r) && !in_last {
            let k = choose|k: int|
                0 <= k < regions.len() && (#[trigger] regions[k]).0 <= r.0 && r.1 <= regions[k].1;
            assert(front[k] == regions[k]);
        }
        if last.1 < region.0 {
            lemma_covered_push(regions, region, r);
        } else if region.1 < last.0 {
            if covered(front, r) || (region.0 <= r.0 && r.1 <= region.1) {
                lemma_joined_covers(front, region, r);
            }
            lemma_covered_push(joined(front, region), last, r);
        } else {
            lemma_joined_covers(
                front,
                (least(last.0, region.0), greatest(last.1, region.1)),
                r,
            );
        }
    }
}

/// Joining one more region adds no byte but those of the region.
proof fn lemma_joined_holds(regions: Seq<(int, int)>, region: (int, int), at: int)
    requires
        holds(joined(regions, region), at),
    ensures
        holds(regions, at) || region.0 <= at < region.1,
    decreases regions.len(),
{
    let out = joined(regions, region);
    let k = choose|k: int| 0 <= k < out.len() && (#[trigger] out[k]).0 <= at < out[k].1;
    if regions.len() > 0 {
        let last = regions.last();
        let front = regions.drop_last();
        let n = regions.len() - 1;
        assert(regions[n] == last);
        if last.1 < region.0 {
            if k < regions.len() {
                assert(regions[k] == out[k]);
            }
        } else {
            if region.1 < last.0 {
                let inner = joined(front, region);
                if k < inner.len() {
                    assert(inner[k] == out[k]);
                    lemma_joined_holds(front, region, at);
                }
            } else {
                lemma_joined_holds(
                    front,
                    (least(last.0, region.0), greatest(last.1, region.1)),
                    at,
                );
            }
            if holds(front, at) {
                let m = choose|m: int|
                    0 <= m < front.len() && (#[trigger] front[m]).0 <= at < front[m].1;
                assert(regions[m] == front[m]);
            }
        }
    }
}

/// Nothing but what the transcriber doubted is marked: every byte of a marked
/// region lies in the words that one of the spans covers.
pub proof fn law_only_doubted_words_are_marked(
    bytes: Seq<u8>,
    spans: Seq<(usize, usize)>,
    at: int,
)
    requires
        holds(regions_of(bytes, spans), at),
    ensures
        exists|i: int|
            0 <= i < spans.len() && (snapped(bytes, #[trigger] spans[i]) matches Some(r) && r.0
                <= at < r.1),
    decreases spans.len(),
{
    let front = spans.drop_last();
    let before = regions_of(bytes, front);
    let last = spans.len() - 1;
    if let Some(region) = snapped(bytes, spans[last]) {
        lemma_joined_holds(before, region, at);
    }
    if holds(before, at) {
        law_only_doubted_words_are_marked(bytes, front, at);
        let i = choose|i: int|
            0 <= i < front.len() && (snapped(bytes, #[trigger] front[i]) matches Some(r) && r.0
                <= at < r.1);
        assert(spans[i] == front[i]);
    } else {
        assert(snapped(bytes, spans[last]) matches Some(r) && r.0 <= at < r.1);
    }
}

/// Every word that the transcriber doubted is marked, in whatever order it
/// gives its spans.
pub proof fn law_every_doubted_word_is_marked(
    bytes: Seq<u8>,
    spans: Seq<(usize, usize)>,
    i: int,
)
    requires
        0 <= i < spans.len(),
    ensures
        snapped(bytes, spans[i]) matches Some(r) ==> covered(regions_of(bytes, spans), r),
    decreases spans.len(),
{
    if let Some(r) = snapped(bytes, spans[i]) {
        let n = spans.len() - 1;
        let front = spans.drop_last();
        if i < n {
            assert(front[i] == spans[i]);
            law_every_doubted_word_is_marked(bytes, front, i);
        }
        if let Some(region) = snapped(bytes, spans[n]) {
            lemma_joined_covers(regions_of(bytes, front), region, r);
        }
    }
}

/// Removing the marks removes them and nothing else, one by one: a text in two
/// parts loses those of the one and those of the other, and every character that
/// is no mark stays where it is.
pub proof fn law_marks_go_one_by_one(before: Seq<char>, after: Seq<char>)
    ensures
        unmarked(before + after) == unmarked(before) + unmarked(after),
        unmarked(before.push('«') + after) == unmarked(before + after),
        unmarked(before.push('»') + after) == unmarked(before + after),
        forall|c: char|
            c != '«' && c != '»' ==> #[trigger] unmarked(before.push(c)) == unmarked(before).push(c),
{
    lemma_unmarked_add(before, after);
    lemma_unmarked_push(before, '«');
    lemma_unmarked_push(before, '»');
    lemma_unmarked_add(before.push('«'), after);
    lemma_unmarked_add(before.push('»'), after);
    assert forall|c: char| c != '«' && c != '»' implies #[trigger] unmarked(before.push(c))
        == unmarked(before).push(c) by {
        reveal(Seq::filter);
        assert(before.push(c).drop_last() =~= before);
    }
}

/// White space is a space, a tab, a line feed, a form feed or a carriage return,
/// and a letter or digit of ASCII is what it is everywhere.
pub proof fn law_white_space_and_word_characters(b: u8, c: char)
    ensures
        ascii_white_space(b) <==> b == 9 || b == 10 || b == 12 || b == 13 || b == 32,
        (c as int) < 128 ==> (word_char(c) <==> 48 <= c as int <= 57 || 65 <= c as int <= 90 || 97
            <= c as int <= 122),
        (c as int) >= 128 ==> word_char(c) == unicode_alphanumeric(c),
{
}

proof fn lemma_content_end_is(bytes: Seq<u8>, from: int, to: int, end: int)
    requires
        from <= end <= to,
        forall|i: int| end <= i < to ==> ascii_white_space(#[trigger] bytes[i]),
        end > from ==> !ascii_white_space(bytes[end - 1]),
    ensures
        content_end(bytes, from, to) == end,
    decreases to - end,
{
    if end < to {
        assert(ascii_white_space(bytes[to - 1]));
        lemma_content_end_is(bytes, from, to - 1, end);
    }
}

proof fn lemma_word_start_is(bytes: Seq<u8>, at: int, start: int)
    requires
        0 <= start <= at,
        start == 0 || ascii_white_space(bytes[start - 1]),
        forall|i: int| start <= i < at ==> !ascii_white_space(#[trigger] bytes[i]),
    ensures
        word_start(bytes, at) == start,
    decreases at,
{
    if start < at {
        assert(!ascii_white_space(bytes[at - 1]));
        lemma_word_start_is(bytes, at - 1, start);
    }
}

proof fn lemma_word_end_is(bytes: Seq<u8>, at: int, end: int)
    requires
        at <= end <= bytes.len(),
        end == bytes.len() || ascii_white_space(bytes[end]),
        forall|i: int| at <= i < end ==> !ascii_white_space(#[trigger] bytes[i]),
    ensures
        word_end(bytes, at) == end,
    decreases end - at,
{
    if at < end {
        assert(!ascii_white_space(bytes[at]));
        lemma_word_end_is(bytes, at + 1, end);
    }
}

/// The words that a span covers are bounded by the white space nearest to it:
/// to the left of where it begins, and to the right of the last byte of it,
/// number `last`, that is no white space. They count where there is a letter or
/// a digit among them, however long the span is and whatever else it holds.
pub proof fn law_words_of_a_span(
    bytes: Seq<u8>,
    span: (usize, usize),
    last: int,
    words: (int, int),
)
    requires
        span.0 <= last < span.1,
        0 <= words.0 <= span.0,
        last < words.1 <= bytes.len(),
        !ascii_white_space(bytes[last]),
        forall|i: int|
            last < i < span.1 && i < bytes.len() ==> ascii_white_space(#[trigger] bytes[i]),
        words.0 == 0 || ascii_white_space(bytes[words.0 - 1]),
        forall|i: int| words.0 <= i < span.0 ==> !ascii_white_space(#[trigger] bytes[i]),
        words.1 == bytes.len() || ascii_white_space(bytes[words.1]),
        forall|i: int| last < i < words.1 ==> !ascii_white_space(#[trigger] bytes[i]),
    ensures
        ({
            let said = decode_utf8(bytes.subrange(words.0, words.1));
            snapped(bytes, span) == if exists|i: int|
                0 <= i < said.len() && word_char(#[trigger] said[i]) {
                Some(words)
            } else {
                None
            }
        }),
{
    let to = least(span.1 as int, bytes.len() as int);
    lemma_content_end_is(bytes, span.0 as int, to, last + 1);
    lemma_word_start_is(bytes, span.0 as int, words.0);
    lemma_word_end_is(bytes, last + 1, words.1);
}

/// A span covers no words when it is empty, begins behind the text, or holds
/// white space only.
pub proof fn law_a_blank_span_covers_nothing(bytes: Seq<u8>, span: (usize, usize))
    requires
        forall|i: int|
            span.0 <= i < span.1 && i < bytes.len() ==> ascii_white_space(#[trigger] bytes[i]),
    ensures
        snapped(bytes, span) is None,
{
    let from = least(span.0 as int, bytes.len() as int);
    let to = least(span.1 as int, bytes.len() as int);
    lemma_content_end(bytes, from, to);
    if from < to {
        lemma_content_end_is(bytes, from, to, from);
    }
}

/// The marks stand around the regions: for each of them there is the text up to
/// it, a left mark, its own text, and a right mark, and behind the last of them
/// the rest of the text.
pub proof fn law_where_the_marks_stand(text: Seq<char>, spans: Seq<(usize, usize)>)
    ensures
        ({
            let bytes = encode_utf8(text);
            let regions = regions_of(bytes, spans);
            let n = regions.len();
            let from = |k: int|
                if k == 0 {
                    0
                } else {
                    regions[k - 1].1
                };
            marked(text, spans) == Seq::new(
                n,
                |k: int|
                    decode_utf8(bytes.subrange(from(k), regions[k].0)) + seq!['«'] + decode_utf8(
                        bytes.subrange(regions[k].0, regions[k].1),
                    ) + seq!['»'],
            ).flatten() + decode_utf8(bytes.subrange(from(n as int), bytes.len() as int))
        }),
{
    let bytes = encode_utf8(text);
    let regions = regions_of(bytes, spans);
    let from = |k: int|
        if k == 0 {
            0
        } else {
            regions[k - 1].1
        };
    lemma_wrapped_parts(bytes, regions, 0);
    assert(wrapped_parts(bytes, regions, 0) =~= Seq::new(
        regions.len(),
        |k: int|
            decode_utf8(bytes.subrange(from(k), regions[k].0)) + seq!['«'] + decode_utf8(
                bytes.subrange(regions[k].0, regions[k].1),
            ) + seq!['»'],
    ));
}

/// What is written for each region, where the text from byte `first` on is still
/// to be written.
spec fn wrapped_parts(bytes: Seq<u8>, regions: Seq<(int, int)>, first: int) -> Seq<Seq<char>> {
    Seq::new(
        regions.len(),
        |k: int|
            {
                let from = if k == 0 {
                    first
                } else {
                    regions[k - 1].1
                };
                decode_utf8(bytes.subrange(from, regions[k].0)) + seq!['«'] + decode_utf8(
                    bytes.subrange(regions[k].0, regions[k].1),
                ) + seq!['»']
            },
    )
}

proof fn lemma_wrapped_parts(bytes: Seq<u8>, regions: Seq<(int, int)>, first: int)
    ensures
        wrapped(bytes, regions, first) == wrapped_parts(bytes, regions, first).flatten()
            + decode_utf8(
            bytes.subrange(
                if regions.len() == 0 {
                    first
                } else {
                    regions.last().1
                },
                bytes.len() as int,
            ),
        ),
    decreases regions.len(),
{
    let parts = wrapped_parts(bytes, regions, first);
    if regions.len() == 0 {
        assert(wrapped(bytes, regions, first) =~= parts.flatten() + piece(
            bytes,
            first,
            bytes.len() as int,
        ));
    } else {
        let r = regions[0];
        let rest = regions.skip(1);
        lemma_wrapped_parts(bytes, rest, r.1);
        assert(parts.drop_first() =~= wrapped_parts(bytes, rest, r.1));
        assert(rest.len() > 0 ==> rest.last() == regions.last());
        let tail = decode_utf8(bytes.subrange(regions.last().1, bytes.len() as int));
        assert(piece(bytes, first, r.0).push(MARK_OPEN) + piece(bytes, r.0, r.1).push(MARK_CLOSE)
            =~= parts.first());
        assert(parts.first() + (parts.drop_first().flatten() + tail) =~= parts.flatten() + tail);
    }
}

/// Between any two marked regions there is white space, and around each of them
/// there is white space or an end of the text.
pub proof fn law_white_space_is_between_the_marks(
    bytes: Seq<u8>,
    spans: Seq<(usize, usize)>,
    i: int,
    j: int,
)
    requires
        0 <= i < regions_of(bytes, spans).len(),
        0 <= j < regions_of(bytes, spans).len(),
    ensures
        ({
            let a = regions_of(bytes, spans)[i];
            let b = regions_of(bytes, spans)[j];
            &&& 0 <= a.0 < a.1 <= bytes.len()
            &&& a.0 > 0 ==> ascii_white_space(bytes[a.0 - 1])
            &&& a.1 < bytes.len() ==> ascii_white_space(bytes[a.1])
            &&& i < j ==> a.1 < b.0
        }),
{
    law_marks_cover_whole_words(bytes, spans);
    assert(is_word_region(bytes, regions_of(bytes, spans)[i]));
}

} // verus!
