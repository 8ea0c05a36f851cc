//! Text helpers: what the library needs of strings, stated over their
//! characters.

use vstd::arithmetic::power::pow;
use vstd::prelude::*;

verus! {

/// `String::push`: appends one character at the end, and changes nothing else.
pub assume_specification[ String::push ](s: &mut String, c: char)
    ensures
        final(s)@ == old(s)@.push(c),
;

/// The characters of `s`, in order.
pub fn chars_of(s: &str) -> (out: Vec<char>)
    ensures
        out@ == s@,
{
    let mut out: Vec<char> = Vec::new();
    for c in it: s.chars()
        invariant
            out@ == s@.take(it.index() as int),
            it.seq() == s@,
    {
        out.push(c);
        assert(s@.take(it.index() as int).push(c) =~= s@.take(it.index() as int + 1));
    }
    assert(s@.take(s@.len() as int) =~= s@);
    out
}

/// The string made of the characters `from..to` of `chars`.
pub fn string_of(chars: &[char], from: usize, to: usize) -> (out: String)
    requires
        from <= to <= chars@.len(),
    ensures
        out@ == chars@.subrange(from as int, to as int),
{
    let mut out = String::new();
    let mut i: usize = from;
    while i < to
        invariant
            from <= i <= to <= chars@.len(),
            out@ == chars@.subrange(from as int, i as int),
        decreases to - i,
    {
        out.push(chars[i]);
        assert(chars@.subrange(from as int, i as int).push(chars@[i as int]) =~= chars@.subrange(
            from as int,
            i as int + 1,
        ));
        i += 1;
    }
    out
}

/// Whether two strings hold the same text.
pub fn same_string(a: &String, b: &String) -> (same: bool)
    ensures
        same == (a@ == b@),
{
    *a == *b
}

/// Whether two texts are the same.
pub fn same_text(a: &str, b: &str) -> (same: bool)
    ensures
        same == (a@ == b@),
{
    a.to_owned() == b.to_owned()
}

/// The texts of a list of strings.
pub open spec fn texts(list: Seq<String>) -> Seq<Seq<char>> {
    list.map_values(|s: String| s@)
}

/// A character of the Unicode property White_Space.
pub open spec fn white_space(c: char) -> bool {
    ||| '\u{9}' <= c <= '\u{d}'
    ||| c == ' '
    ||| c == '\u{85}'
    ||| c == '\u{a0}'
    ||| c == '\u{1680}'
    ||| '\u{2000}' <= c <= '\u{200a}'
    ||| c == '\u{2028}'
    ||| c == '\u{2029}'
    ||| c == '\u{202f}'
    ||| c == '\u{205f}'
    ||| c == '\u{3000}'
}

/// Whether `c` is white space.
pub fn is_white_space(c: char) -> (yes: bool)
    ensures
        yes == white_space(c),
{
    ('\u{9}' <= c && c <= '\u{d}') || c == ' ' || c == '\u{85}' || c == '\u{a0}' || c == '\u{1680}'
        || ('\u{2000}' <= c && c <= '\u{200a}') || c == '\u{2028}' || c == '\u{2029}' || c
        == '\u{202f}' || c == '\u{205f}' || c == '\u{3000}'
}

/// `s` without the white space at its start.
pub open spec fn trimmed_start(s: Seq<char>) -> Seq<char>
    decreases s.len(),
{
    if s.len() > 0 && white_space(s.first()) {
        trimmed_start(s.drop_first())
    } else {
        s
    }
}

/// `s` without the white space at its end.
pub open spec fn trimmed_end(s: Seq<char>) -> Seq<char>
    decreases s.len(),
{
    if s.len() > 0 && white_space(s.last()) {
        trimmed_end(s.drop_last())
    } else {
        s
    }
}

/// `s` without the white space at both its ends.
pub open spec fn trimmed(s: Seq<char>) -> Seq<char> {
    trimmed_end(trimmed_start(s))
}

/// White space in front of a text goes, and the rest is trimmed as it is.
pub proof fn lemma_trimmed_start_skips(s: Seq<char>, n: int)
    requires
        0 <= n <= s.len(),
        forall|i: int| 0 <= i < n ==> white_space(#[trigger] s[i]),
    ensures
        trimmed_start(s) == trimmed_start(s.skip(n)),
    decreases n,
{
    if n == 0 {
        assert(s.skip(0) =~= s);
    } else {
        assert forall|i: int| 0 <= i < n - 1 implies white_space(#[trigger] s.drop_first()[i]) by {
            assert(s.drop_first()[i] == s[i + 1]);
        }
        lemma_trimmed_start_skips(s.drop_first(), n - 1);
        assert(s.drop_first().skip(n - 1) =~= s.skip(n));
    }
}

/// White space behind a text goes, and the rest is trimmed as it is.
pub proof fn lemma_trimmed_end_drops(s: Seq<char>, n: int)
    requires
        0 <= n <= s.len(),
        forall|i: int| n <= i < s.len() ==> white_space(#[trigger] s[i]),
    ensures
        trimmed_end(s) == trimmed_end(s.take(n)),
    decreases s.len() - n,
{
    if n == s.len() {
        assert(s.take(n) =~= s);
    } else {
        assert(white_space(s[s.len() - 1]));
        assert forall|i: int| n <= i < s.len() - 1 implies white_space(
            #[trigger] s.drop_last()[i],
        ) by {
            assert(s.drop_last()[i] == s[i]);
        }
        lemma_trimmed_end_drops(s.drop_last(), n);
        assert(s.drop_last().take(n) =~= s.take(n));
    }
}

/// The first index of `chars` at or behind `from` that holds no white space,
/// or the length.
fn skip_white_space(chars: &[char], from: usize) -> (at: usize)
    requires
        from <= chars@.len(),
    ensures
        from <= at <= chars@.len(),
        forall|i: int| from <= i < at ==> white_space(#[trigger] chars@[i]),
        at < chars@.len() ==> !white_space(chars@[at as int]),
{
    let mut at: usize = from;
    while at < chars.len() && is_white_space(chars[at])
        invariant
            from <= at <= chars@.len(),
            forall|i: int| from <= i < at ==> white_space(#[trigger] chars@[i]),
        decreases chars@.len() - at,
    {
        at += 1;
    }
    at
}

/// `s` without the white space at its start.
pub fn trim_start(s: &str) -> (out: String)
    ensures
        out@ == trimmed_start(s@),
{
    let chars = chars_of(s);
    let from = skip_white_space(chars.as_slice(), 0);
    proof {
        lemma_trimmed_start_skips(s@, from as int);
        assert(s@.skip(from as int) =~= s@.subrange(from as int, s@.len() as int));
        assert(from < s@.len() ==> s@.skip(from as int).first() == s@[from as int]);
    }
    string_of(chars.as_slice(), from, chars.len())
}

/// `s` without the white space at both its ends.
pub fn trim(s: &str) -> (out: String)
    ensures
        out@ == trimmed(s@),
{
    let chars = chars_of(s);
    let from = skip_white_space(chars.as_slice(), 0);
    let mut to: usize = chars.len();
    while to > from && is_white_space(chars[to - 1])
        invariant
            from <= to <= chars@.len(),
            forall|i: int| to <= i < chars@.len() ==> white_space(#[trigger] chars@[i]),
        decreases to,
    {
        to -= 1;
    }
    proof {
        lemma_trimmed_start_skips(s@, from as int);
        let rest = s@.skip(from as int);
        assert(from < s@.len() ==> rest.first() == s@[from as int]);
        let n = to - from;
        assert forall|i: int| n <= i < rest.len() implies white_space(#[trigger] rest[i]) by {
            assert(rest[i] == s@[i + from]);
        }
        lemma_trimmed_end_drops(rest, n);
        assert(rest.take(n) =~= s@.subrange(from as int, to as int));
        assert(n > 0 ==> rest.take(n).last() == s@[to - 1]);
    }
    string_of(chars.as_slice(), from, to)
}

/// The white space that `trimmed_start` takes away is a prefix.
pub proof fn lemma_trimmed_start_shape(s: Seq<char>)
    ensures
        trimmed_start(s).len() <= s.len(),
        trimmed_start(s) == s.skip(s.len() - trimmed_start(s).len()),
        trimmed_start(s).len() > 0 ==> !white_space(trimmed_start(s).first()),
        forall|i: int| 0 <= i < s.len() - trimmed_start(s).len() ==> white_space(#[trigger] s[i]),
    decreases s.len(),
{
    if s.len() > 0 && white_space(s.first()) {
        let rest = s.drop_first();
        lemma_trimmed_start_shape(rest);
        let k = rest.len() - trimmed_start(rest).len();
        assert(rest.skip(k) =~= s.skip(k + 1));
        assert forall|i: int| 0 <= i < k + 1 implies white_space(#[trigger] s[i]) by {
            if i > 0 {
                assert(rest[i - 1] == s[i]);
            }
        }
    } else {
        assert(s.skip(0) =~= s);
    }
}

/// The white space that `trimmed_end` takes away is a suffix.
pub proof fn lemma_trimmed_end_shape(s: Seq<char>)
    ensures
        trimmed_end(s).len() <= s.len(),
        trimmed_end(s) == s.take(trimmed_end(s).len() as int),
        trimmed_end(s).len() > 0 ==> !white_space(trimmed_end(s).last()),
    decreases s.len(),
{
    if s.len() > 0 && white_space(s.last()) {
        let rest = s.drop_last();
        lemma_trimmed_end_shape(rest);
        let k = trimmed_end(rest).len() as int;
        assert(rest.take(k) =~= s.take(k));
    } else {
        assert(s.take(s.len() as int) =~= s);
    }
}

/// The lower case of an ASCII letter; any other character is kept.
pub open spec fn lower_char(c: char) -> char {
    if 'A' <= c <= 'Z' {
        ((c as u8) + 32) as u8 as char
    } else {
        c
    }
}

/// `s` with its ASCII letters in lower case.
pub open spec fn lower(s: Seq<char>) -> Seq<char> {
    s.map_values(|c: char| lower_char(c))
}

/// `s` with its ASCII letters in lower case.
pub fn to_lower(s: &str) -> (out: String)
    ensures
        out@ == lower(s@),
{
    let chars = chars_of(s);
    let mut out = String::new();
    let mut i: usize = 0;
    while i < chars.len()
        invariant
            i <= chars@.len(),
            out@ == lower(chars@.take(i as int)),
        decreases chars@.len() - i,
    {
        let c = chars[i];
        let l: char = if 'A' <= c && c <= 'Z' {
            (c as u8 + 32) as char
        } else {
            c
        };
        out.push(l);
        assert(lower(chars@.take(i as int)).push(lower_char(c)) =~= lower(
            chars@.take(i as int + 1),
        ));
        i += 1;
    }
    assert(chars@.take(i as int) =~= s@);
    out
}

/// Whether two texts differ in the case of ASCII letters at most.
pub fn same_ignoring_case(a: &str, b: &str) -> (same: bool)
    ensures
        same == (lower(a@) == lower(b@)),
{
    to_lower(a) == to_lower(b)
}

/// Whether `part` stands in `whole` at index `i`.
pub open spec fn stands_at(part: Seq<char>, whole: Seq<char>, i: int) -> bool {
    0 <= i && i + part.len() <= whole.len() && whole.subrange(i, i + part.len()) == part
}

/// Whether `part` stands somewhere in `whole`.
pub open spec fn occurs_in(part: Seq<char>, whole: Seq<char>) -> bool {
    exists|i: int| stands_at(part, whole, i)
}

/// Whether `part` stands in `whole` at index `at`.
fn matches_at(part: &[char], whole: &[char], at: usize) -> (yes: bool)
    requires
        at + part@.len() <= whole@.len(),
    ensures
        yes == stands_at(part@, whole@, at as int),
{
    let n: usize = whole.len();
    let mut k: usize = 0;
    while k < part.len()
        invariant
            k <= part@.len(),
            at + part@.len() <= whole@.len() == n,
            forall|j: int| 0 <= j < k ==> part@[j] == #[trigger] whole@[at + j],
        decreases part@.len() - k,
    {
        if part[k] != whole[at + k] {
            assert(whole@.subrange(at as int, at + part@.len())[k as int] != part@[k as int]);
            return false;
        }
        k += 1;
    }
    assert forall|j: int| 0 <= j < part@.len() implies whole@.subrange(
        at as int,
        at + part@.len(),
    )[j] == part@[j] by {
        assert(part@[j] == whole@[at + j]);
    }
    assert(whole@.subrange(at as int, at + part@.len()) =~= part@);
    true
}

/// Whether `part` stands somewhere in `whole`.
pub fn contains_text(whole: &str, part: &str) -> (yes: bool)
    ensures
        yes == occurs_in(part@, whole@),
{
    let w = chars_of(whole);
    let p = chars_of(part);
    if p.len() > w.len() {
        return false;
    }
    let last: usize = w.len() - p.len();
    let mut i: usize = 0;
    while i <= last
        invariant
            w@ == whole@,
            p@ == part@,
            i <= last + 1,
            last + p@.len() == w@.len(),
            forall|j: int| 0 <= j < i ==> !stands_at(p@, w@, j),
        decreases last + 1 - i,
    {
        if matches_at(p.as_slice(), w.as_slice(), i) {
            return true;
        }
        if i == last {
            assert forall|j: int| !stands_at(p@, w@, j) by {}
            return false;
        }
        i += 1;
    }
    false
}

/// Whether `whole` begins with `part`.
pub fn begins_with(whole: &str, part: &str) -> (yes: bool)
    ensures
        yes == part@.is_prefix_of(whole@),
{
    let w = chars_of(whole);
    let p = chars_of(part);
    if p.len() > w.len() {
        return false;
    }
    matches_at(p.as_slice(), w.as_slice(), 0)
}

/// Whether `whole` ends with `part`.
pub fn finishes_with(whole: &str, part: &str) -> (yes: bool)
    ensures
        yes == part@.is_suffix_of(whole@),
{
    let w = chars_of(whole);
    let p = chars_of(part);
    if p.len() > w.len() {
        return false;
    }
    matches_at(p.as_slice(), w.as_slice(), w.len() - p.len())
}

/// The decimal digit of value `d`.
pub open spec fn digit_char(d: nat) -> char {
    (('0' as u8) + d) as u8 as char
}

/// `n` in decimal, without leading zeros.
pub open spec fn decimal(n: nat) -> Seq<char>
    decreases n,
{
    if n < 10 {
        seq![digit_char(n)]
    } else {
        decimal(n / 10).push(digit_char(n % 10))
    }
}

/// `n` in decimal, without leading zeros.
pub fn to_decimal(n: usize) -> (out: String)
    ensures
        out@ == decimal(n as nat),
    decreases n,
{
    if n < 10 {
        let mut out = String::new();
        out.push((48 + n as u8) as char);
        assert(out@ =~= seq![digit_char(n as nat)]);
        out
    } else {
        let mut out = to_decimal(n / 10);
        out.push((48 + (n % 10) as u8) as char);
        out
    }
}

/// Whether `c` is an ASCII digit.
pub open spec fn is_digit(c: char) -> bool {
    '0' <= c <= '9'
}

/// Whether `s` holds ASCII digits only.
pub open spec fn all_digits(s: Seq<char>) -> bool {
    forall|i: int| 0 <= i < s.len() ==> is_digit(#[trigger] s[i])
}

/// The value of a sequence of decimal digits.
pub open spec fn digits_value(s: Seq<char>) -> nat
    decreases s.len(),
{
    if s.len() == 0 {
        0
    } else {
        digits_value(s.drop_last()) * 10 + (s.last() as nat - '0' as nat) as nat
    }
}

/// The number that `s` writes: an optional `+` and at least one decimal digit,
/// nothing else, of a value of at most `max`.
pub open spec fn number_in(s: Seq<char>, max: nat) -> Option<nat> {
    let digits = if s.len() > 0 && s[0] == '+' {
        s.skip(1)
    } else {
        s
    };
    if digits.len() > 0 && all_digits(digits) && digits_value(digits) <= max {
        Some(digits_value(digits))
    } else {
        None
    }
}

proof fn lemma_digits_value_grows(s: Seq<char>, n: int)
    requires
        0 <= n <= s.len(),
        all_digits(s),
    ensures
        digits_value(s.take(n)) <= digits_value(s),
    decreases s.len() - n,
{
    if n == s.len() {
        assert(s.take(n) =~= s);
    } else {
        let front = s.drop_last();
        assert forall|i: int| 0 <= i < front.len() implies is_digit(#[trigger] front[i]) by {
            assert(front[i] == s[i]);
        }
        lemma_digits_value_grows(front, n);
        assert(front.take(n) =~= s.take(n));
        assert(is_digit(s[s.len() - 1]));
    }
}

/// The number that `s` writes, if it is at most `max`.
pub fn parse_number(s: &str, max: u64) -> (out: Option<u64>)
    ensures
        match number_in(s@, max as nat) {
            Some(n) => out == Some(n as u64),
            None => out is None,
        },
{
    let chars = chars_of(s);
    let from: usize = if chars.len() > 0 && chars[0] == '+' {
        1
    } else {
        0
    };
    let ghost digits = if s@.len() > 0 && s@[0] == '+' {
        s@.skip(1)
    } else {
        s@
    };
    assert(digits =~= chars@.skip(from as int));
    if chars.len() == from {
        return None;
    }
    let mut value: u64 = 0;
    let mut i: usize = from;
    assert(digits.take(0) =~= Seq::<char>::empty());
    while i < chars.len()
        invariant
            from <= i <= chars@.len(),
            digits == chars@.skip(from as int),
            forall|j: int| 0 <= j < i - from ==> is_digit(#[trigger] digits[j]),
            value == digits_value(digits.take(i - from)),
            value <= max,
            digits.len() > 0,
            digits == (if s@.len() > 0 && s@[0] == '+' {
                s@.skip(1)
            } else {
                s@
            }),
        decreases chars@.len() - i,
    {
        let c = chars[i];
        assert(digits[i - from] == c);
        if c < '0' || c > '9' {
            assert(!is_digit(digits[i - from]));
            return None;
        }
        let ghost read = digits.take(i - from + 1);
        assert(read.drop_last() =~= digits.take(i - from));
        assert(read.last() == c);
        let d: u64 = (c as u8 - 48) as u64;
        let wide: u128 = value as u128 * 10 + d as u128;
        assert(wide == digits_value(read));
        if wide > max as u128 {
            proof {
                if all_digits(digits) {
                    lemma_digits_value_grows(digits, i - from + 1);
                }
            }
            return None;
        }
        value = wide as u64;
        i += 1;
    }
    assert(digits.take(i - from) =~= digits);
    Some(value)
}

/// White space is what Unicode says it is: these code points, and no others.
pub proof fn law_white_space_by_code_point(c: char)
    ensures
        white_space(c) <==> ({
            let n = c as int;
            ||| 9 <= n <= 13
            ||| n == 32
            ||| n == 133
            ||| n == 160
            ||| n == 5760
            ||| 8192 <= n <= 8202
            ||| n == 8232
            ||| n == 8233
            ||| n == 8239
            ||| n == 8287
            ||| n == 12288
        }),
{
}

/// Trimming takes away the white space around a text, all of it, and nothing
/// else.
pub proof fn law_trimming_cuts_the_white_space_around(
    before: Seq<char>,
    body: Seq<char>,
    after: Seq<char>,
)
    requires
        forall|i: int| 0 <= i < before.len() ==> white_space(#[trigger] before[i]),
        forall|i: int| 0 <= i < after.len() ==> white_space(#[trigger] after[i]),
        body.len() > 0 ==> !white_space(body.first()) && !white_space(body.last()),
    ensures
        trimmed(before + body + after) == body,
        trimmed_start(before + body) == body,
{
    let all = before + body + after;
    let n = before.len() as int;
    assert forall|i: int| 0 <= i < n implies white_space(#[trigger] all[i]) by {
        assert(all[i] == before[i]);
    }
    lemma_trimmed_start_skips(all, n);
    let rest = all.skip(n);
    assert(rest =~= body + after);
    let k = body.len() as int;
    assert forall|i: int| k <= i < rest.len() implies white_space(#[trigger] rest[i]) by {
        assert(rest[i] == after[i - k]);
    }
    if k > 0 {
        assert(rest.first() == body.first());
        lemma_trimmed_end_drops(rest, k);
        assert(rest.take(k) =~= body);
    } else {
        lemma_trimmed_start_skips(rest, rest.len() as int);
        assert(rest.skip(rest.len() as int) =~= Seq::<char>::empty());
        assert(body =~= Seq::<char>::empty());
    }
    let start = before + body;
    assert forall|i: int| 0 <= i < n implies white_space(#[trigger] start[i]) by {
        assert(start[i] == before[i]);
    }
    lemma_trimmed_start_skips(start, n);
    assert(start.skip(n) =~= body);
}

/// At its start a text loses the white space there, and nothing else.
pub proof fn law_trimming_the_start(before: Seq<char>, rest: Seq<char>)
    requires
        forall|i: int| 0 <= i < before.len() ==> white_space(#[trigger] before[i]),
        rest.len() > 0 ==> !white_space(rest.first()),
    ensures
        trimmed_start(before + rest) == rest,
{
    let all = before + rest;
    let n = before.len() as int;
    assert forall|i: int| 0 <= i < n implies white_space(#[trigger] all[i]) by {
        assert(all[i] == before[i]);
    }
    lemma_trimmed_start_skips(all, n);
    assert(all.skip(n) =~= rest);
}

/// Lower case changes `A` to `Z`, each to the letter 32 code points further on,
/// and no other character, and keeps every character in its place.
pub proof fn law_lower_case_by_code_point(s: Seq<char>, i: int)
    requires
        0 <= i < s.len(),
    ensures
        lower(s).len() == s.len(),
        65 <= s[i] as int <= 90 ==> lower(s)[i] as int == s[i] as int + 32,
        !(65 <= s[i] as int <= 90) ==> lower(s)[i] == s[i],
{
}

/// A text occurs in another exactly where the other is something, the text, and
/// something.
pub proof fn law_a_part_occurs_in_its_whole(part: Seq<char>, whole: Seq<char>)
    ensures
        occurs_in(part, whole) <==> exists|before: Seq<char>, after: Seq<char>|
            whole == #[trigger] (before + part + after),
{
    if occurs_in(part, whole) {
        let i = choose|i: int| stands_at(part, whole, i);
        let before = whole.take(i);
        let after = whole.skip(i + part.len());
        assert(whole =~= before + whole.subrange(i, i + part.len()) + after);
    }
    if exists|before: Seq<char>, after: Seq<char>| whole == #[trigger] (before + part + after) {
        let (before, after) = choose|before: Seq<char>, after: Seq<char>|
            whole == #[trigger] (before + part + after);
        assert(whole.subrange(before.len() as int, (before.len() + part.len()) as int) =~= part);
        assert(stands_at(part, whole, before.len() as int));
    }
}

/// The value of digits is positional, to the base ten.
pub proof fn law_digits_are_positional(a: Seq<char>, b: Seq<char>)
    requires
        forall|i: int| 0 <= i < a.len() ==> 48 <= (#[trigger] a[i]) as int <= 57,
        forall|i: int| 0 <= i < b.len() ==> 48 <= (#[trigger] b[i]) as int <= 57,
    ensures
        digits_value(a + b) == digits_value(a) * pow(10, b.len()) + digits_value(b),
        a.len() == 1 ==> digits_value(a) == a[0] as int - 48,
    decreases b.len(),
{
    reveal(pow);
    if a.len() == 1 {
        assert(48 <= a[0] as int <= 57);
        assert(digits_value(a.drop_last()) == 0);
    }
    if b.len() == 0 {
        assert(a + b =~= a);
        assert(digits_value(a) * 1 == digits_value(a));
    } else {
        let front = b.drop_last();
        assert forall|i: int| 0 <= i < front.len() implies 48 <= (
        #[trigger] front[i]) as int <= 57 by {
            assert(front[i] == b[i]);
        }
        law_digits_are_positional(a, front);
        assert(48 <= b[b.len() - 1] as int <= 57);
        assert((a + b).drop_last() =~= a + front);
        let v = digits_value(a) as int;
        let p = pow(10, front.len());
        assert(pow(10, b.len()) == 10 * p);
        assert((v * p) * 10 == v * (10 * p)) by (nonlinear_arith);
    }
}

/// The decimal form of a number is the one that reads back as the number: digits
/// only, of its value, without a zero in front of others.
pub proof fn law_decimal_reads_back(n: nat)
    ensures
        decimal(n).len() > 0,
        forall|i: int| 0 <= i < decimal(n).len() ==> '0' <= #[trigger] decimal(n)[i] <= '9',
        digits_value(decimal(n)) == n,
        decimal(n).len() > 1 ==> decimal(n)[0] != '0',
        number_in(decimal(n), n) == Some(n),
    decreases n,
{
    if n < 10 {
        assert(decimal(n).drop_last() =~= Seq::<char>::empty());
        assert(digits_value(Seq::<char>::empty()) == 0);
    } else {
        law_decimal_reads_back(n / 10);
        let front = decimal(n / 10);
        assert(decimal(n).drop_last() =~= front);
        assert(front.len() == 1 ==> front[0] != '0') by {
            if front.len() == 1 {
                assert(front.drop_last() =~= Seq::<char>::empty());
                assert(digits_value(Seq::<char>::empty()) == 0);
                assert(digits_value(front) == front.last() as nat - '0' as nat);
            }
        }
    }
    assert(all_digits(decimal(n)));
}

/// A number is read from digits, with or without a `+` in front of them, where
/// its value is at most `max`, and from nothing else.
pub proof fn law_numbers_are_digits(s: Seq<char>, max: nat)
    ensures
        s.len() > 0 && (forall|i: int| 0 <= i < s.len() ==> 48 <= (#[trigger] s[i]) as int <= 57)
            ==> number_in(s, max) == number_in(seq!['+'] + s, max) && number_in(s, max) == (if
        digits_value(s) <= max {
            Some(digits_value(s))
        } else {
            None
        }),
        number_in(s, max) matches Some(n) ==> n <= max && (n == digits_value(s) && s[0] != '+' || n
            == digits_value(s.skip(1)) && s[0] == '+'),
        number_in(s, max) is Some ==> s.len() > 0 && forall|i: int|
            0 <= i < s.len() ==> 48 <= (#[trigger] s[i]) as int <= 57 || i == 0 && s[i] == '+'
                && s.len() > 1,
{
    let signed = seq!['+'] + s;
    assert(signed.skip(1) =~= s);
    if s.len() > 0 && (forall|i: int|
        0 <= i < s.len() ==> 48 <= (#[trigger] s[i]) as int <= 57) {
        assert(48 <= s[0] as int <= 57);
        assert(all_digits(s));
    }
    if number_in(s, max) is Some {
        assert forall|i: int| 0 <= i < s.len() implies 48 <= (#[trigger] s[i]) as int <= 57 || i
            == 0 && s[i] == '+' && s.len() > 1 by {
            if s[0] == '+' {
                if i > 0 {
                    assert(s.skip(1)[i - 1] == s[i]);
                    assert(is_digit(s.skip(1)[i - 1]));
                }
            } else {
                assert(is_digit(s[i]));
            }
        }
    }
}

} // verus!
