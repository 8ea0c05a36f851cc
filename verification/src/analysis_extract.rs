//! Incremental extraction of complete JSON `{...}` objects from a streaming
//! LLM output, so that each error box can be shown as soon as the model has
//! finished it instead of after the whole document.
//!
//! The scanner is string-aware: quotes and escapes are honored, so braces
//! inside the error text never break an object boundary. Every closed `{...}`
//! is handed out as raw text; whether it parses into an error is the caller's
//! business.

use crate::text;
use crate::text::{chars_of, same_string, string_of};
use vstd::prelude::*;

verus! {

/// What the scanner knows after the text `buf`: whether it stands inside a
/// string literal, right behind a backslash there, and the delimiters that are
/// still open, the innermost last, each with its position in `buf`.
#[verifier::ext_equal]
pub struct ScanState {
    pub buf: Seq<char>,
    pub in_string: bool,
    pub escaped: bool,
    pub stack: Seq<(char, int)>,
}

impl ScanState {
    /// The scanner before any text.
    pub open spec fn start() -> ScanState {
        ScanState { buf: Seq::empty(), in_string: false, escaped: false, stack: Seq::empty() }
    }

    /// Every open delimiter stands in the text at the position kept for it.
    pub open spec fn wf(self) -> bool {
        forall|i: int|
            0 <= i < self.stack.len() ==> {
                &&& 0 <= (#[trigger] self.stack[i]).1 < self.buf.len()
                &&& self.buf[self.stack[i].1] == self.stack[i].0
            }
    }

    /// The state after one more character.
    pub open spec fn step(self, c: char) -> ScanState {
        let buf = self.buf.push(c);
        if self.in_string {
            ScanState {
                buf,
                in_string: self.escaped || c != '"',
                escaped: !self.escaped && c == '\\',
                stack: self.stack,
            }
        } else if c == '"' {
            ScanState { buf, in_string: true, ..self }
        } else if c == '{' || c == '[' {
            ScanState { buf, stack: self.stack.push((c, self.buf.len() as int)), ..self }
        } else if (c == '}' || c == ']') && self.stack.len() > 0 {
            ScanState { buf, stack: self.stack.drop_last(), ..self }
        } else {
            ScanState { buf, ..self }
        }
    }

    /// Whether the character `c` closes an object here: it is a `}` outside
    /// strings, and the innermost open delimiter is a `{`.
    pub open spec fn closes_object(self, c: char) -> bool {
        !self.in_string && c == '}' && self.stack.len() > 0 && self.stack.last().0 == '{'
    }

    /// The objects that the character `c` completes: the text from the `{`
    /// that it closes up to `c` itself, or none.
    pub open spec fn completed(self, c: char) -> Seq<Seq<char>> {
        if self.closes_object(c) {
            seq![self.buf.push(c).skip(self.stack.last().1)]
        } else {
            Seq::empty()
        }
    }

    /// The state after all of `delta`.
    pub open spec fn run(self, delta: Seq<char>) -> ScanState
        decreases delta.len(),
    {
        if delta.len() == 0 {
            self
        } else {
            self.run(delta.drop_last()).step(delta.last())
        }
    }

    /// The objects completed while reading `delta`, in the order in which they
    /// close.
    pub open spec fn objects(self, delta: Seq<char>) -> Seq<Seq<char>>
        decreases delta.len(),
    {
        if delta.len() == 0 {
            Seq::empty()
        } else {
            self.objects(delta.drop_last()) + self.run(delta.drop_last()).completed(delta.last())
        }
    }
}

/// Incremental extractor; see the module's description.
pub struct ErrorObjectExtractor {
    /// All text fed so far.
    buf: Vec<char>,
    in_string: bool,
    escaped: bool,
    /// Opened delimiters (`{`/`[`) with their index in `buf`, LIFO.
    stack: Vec<(char, usize)>,
}

impl View for ErrorObjectExtractor {
    type V = ScanState;

    closed spec fn view(&self) -> ScanState {
        ScanState {
            buf: self.buf@,
            in_string: self.in_string,
            escaped: self.escaped,
            stack: self.stack@.map_values(|p: (char, usize)| (p.0, p.1 as int)),
        }
    }
}

impl Default for ErrorObjectExtractor {
    fn default() -> (r: Self)
        ensures
            r@ == ScanState::start(),
            r@.wf(),
    {
        let r = ErrorObjectExtractor {
            buf: Vec::new(),
            in_string: false,
            escaped: false,
            stack: Vec::new(),
        };
        assert(r@ =~= ScanState::start());
        r
    }
}

impl ErrorObjectExtractor {
    /// Reads one character. Returns the object that it completes, if any.
    fn feed_char(&mut self, c: char) -> (out: Option<String>)
        requires
            old(self)@.wf(),
        ensures
            final(self)@ == old(self)@.step(c),
            final(self)@.wf(),
            match out {
                Some(s) => old(self)@.completed(c) == seq![s@],
                None => old(self)@.completed(c) == Seq::<Seq<char>>::empty(),
            },
    {
        let ghost before = self@;
        let at: usize = self.buf.len();
        self.buf.push(c);
        let mut out: Option<String> = None;
        if self.in_string {
            if self.escaped {
                self.escaped = false;
            } else if c == '\\' {
                self.escaped = true;
            } else if c == '"' {
                self.in_string = false;
            }
        } else if c == '"' {
            self.in_string = true;
        } else if c == '{' || c == '[' {
            self.stack.push((c, at));
        } else if c == '}' || c == ']' {
            // A stray closer is tolerated: the JSON is still being generated.
            if let Some((op, start)) = self.stack.pop() {
                proof {
                    assert(before.stack.last() == (op, start as int));
                }
                if c == '}' && op == '{' {
                    let end: usize = self.buf.len();
                    out = Some(string_of(self.buf.as_slice(), start, end));
                    assert(before.buf.push(c).skip(start as int) =~= self.buf@.subrange(
                        start as int,
                        end as int,
                    ));
                }
            }
        }
        assert(self@ =~= before.step(c));
        out
    }

    /// How many characters have been fed so far.
    pub fn read_len(&self) -> (n: usize)
        ensures
            n == self@.buf.len(),
    {
        self.buf.len()
    }

    /// Feeds the next chunk of JSON text. Returns every object `{...}` that it
    /// completes, as raw text, in the order in which they close.
    pub fn feed(&mut self, delta: &str) -> (out: Vec<String>)
        requires
            old(self)@.wf(),
        ensures
            final(self)@ == old(self)@.run(delta@),
            final(self)@.wf(),
            text::texts(out@) == old(self)@.objects(delta@),
    {
        let ghost before = self@;
        let chars = chars_of(delta);
        let mut out: Vec<String> = Vec::new();
        let mut i: usize = 0;
        assert(text::texts(out@) =~= before.objects(chars@.take(0)));
        while i < chars.len()
            invariant
                i <= chars@.len(),
                self@.wf(),
                self@ == before.run(chars@.take(i as int)),
                text::texts(out@) == before.objects(chars@.take(i as int)),
            decreases chars@.len() - i,
        {
            let ghost read = chars@.take(i as int + 1);
            assert(read.drop_last() =~= chars@.take(i as int));
            assert(read.last() == chars@[i as int]);
            let ghost texts_before = text::texts(out@);
            if let Some(object) = self.feed_char(chars[i]) {
                out.push(object);
                assert(text::texts(out@) =~= texts_before + seq![object@]);
            }
            assert(text::texts(out@) =~= before.objects(read));
            i += 1;
        }
        assert(chars@.take(i as int) =~= delta@);
        out
    }
}

/// The list `objects` with every repetition of an earlier entry left out.
pub open spec fn first_occurrences(objects: Seq<Seq<char>>) -> Seq<Seq<char>>
    decreases objects.len(),
{
    if objects.len() == 0 {
        Seq::empty()
    } else {
        let front = first_occurrences(objects.drop_last());
        if front.contains(objects.last()) {
            front
        } else {
            front.push(objects.last())
        }
    }
}

/// Extracts every complete JSON object from a full string, each text once, in
/// the order in which they first close.
pub fn extract_objects(content: &str) -> (out: Vec<String>)
    ensures
        text::texts(out@) == first_occurrences(ScanState::start().objects(content@)),
{
    let mut extractor = ErrorObjectExtractor::default();
    let all = extractor.feed(content);
    let mut out: Vec<String> = Vec::new();
    let mut i: usize = 0;
    assert(text::texts(out@) =~= first_occurrences(text::texts(all@).take(0)));
    while i < all.len()
        invariant
            i <= all@.len(),
            text::texts(out@) == first_occurrences(text::texts(all@).take(i as int)),
        decreases all@.len() - i,
    {
        let ghost read = text::texts(all@).take(i as int + 1);
        assert(read.drop_last() =~= text::texts(all@).take(i as int));
        assert(read.last() == all@[i as int]@);
        let ghost front = text::texts(out@);
        let mut seen = false;
        let mut j: usize = 0;
        while j < out.len()
            invariant
                i < all@.len(),
                j <= out@.len(),
                front == text::texts(out@),
                seen == exists|k: int| 0 <= k < j && #[trigger] front[k] == all@[i as int]@,
            decreases out@.len() - j,
        {
            if same_string(&out[j], &all[i]) {
                seen = true;
            }
            assert(front[j as int] == out@[j as int]@);
            j += 1;
        }
        assert(seen == front.contains(all@[i as int]@));
        if !seen {
            out.push(all[i].clone());
            assert(text::texts(out@) =~= front.push(all@[i as int]@));
        }
        i += 1;
    }
    assert(text::texts(all@).take(i as int) =~= text::texts(all@));
    out
}

/// Text may arrive in any chunks: reading `a` and then `b` leads to the same
/// state, and hands out the same objects in the same order, as reading both at
/// once.
pub proof fn law_chunks(st: ScanState, a: Seq<char>, b: Seq<char>)
    ensures
        st.run(a).run(b) == st.run(a + b),
        st.objects(a) + st.run(a).objects(b) == st.objects(a + b),
    decreases b.len(),
{
    if b.len() == 0 {
        assert(a + b =~= a);
        assert(st.objects(a) + st.run(a).objects(b) =~= st.objects(a));
    } else {
        law_chunks(st, a, b.drop_last());
        assert((a + b).drop_last() =~= a + b.drop_last());
        assert(st.objects(a) + st.run(a).objects(b) =~= st.objects(a + b));
    }
}

/// The scanner remembers exactly the text that it has read.
pub proof fn law_text_is_kept(st: ScanState, delta: Seq<char>)
    ensures
        st.run(delta).buf == st.buf + delta,
    decreases delta.len(),
{
    if delta.len() == 0 {
        assert(st.buf + delta =~= st.buf);
    } else {
        law_text_is_kept(st, delta.drop_last());
        assert(st.buf + delta =~= (st.buf + delta.drop_last()).push(delta.last()));
    }
}

/// Reading keeps the positions of the open delimiters true.
pub proof fn law_wf_is_kept(st: ScanState, delta: Seq<char>)
    requires
        st.wf(),
    ensures
        st.run(delta).wf(),
    decreases delta.len(),
{
    if delta.len() > 0 {
        law_wf_is_kept(st, delta.drop_last());
    }
}

/// Every object handed out is a contiguous piece of the text read so far that
/// begins with `{` and ends with `}`.
pub proof fn law_objects_are_pieces(st: ScanState, delta: Seq<char>, i: int)
    requires
        st.wf(),
        0 <= i < st.objects(delta).len(),
    ensures
        st.objects(delta)[i].len() >= 2,
        st.objects(delta)[i].first() == '{',
        st.objects(delta)[i].last() == '}',
        exists|from: int, to: int|
            0 <= from <= to <= (st.buf + delta).len() && st.objects(delta)[i] == #[trigger] (st.buf
                + delta).subrange(from, to),
    decreases delta.len(),
{
    let front = delta.drop_last();
    let st1 = st.run(front);
    law_text_is_kept(st, front);
    law_wf_is_kept(st, front);
    let whole = st.buf + delta;
    let shorter = st.buf + front;
    let earlier = st.objects(front);
    if i < earlier.len() {
        law_objects_are_pieces(st, front, i);
        let (from, to) = choose|from: int, to: int|
            0 <= from <= to <= shorter.len() && earlier[i] == #[trigger] shorter.subrange(from, to);
        assert(shorter.subrange(from, to) =~= whole.subrange(from, to));
        assert(st.objects(delta)[i] == whole.subrange(from, to));
    } else {
        let c = delta.last();
        let from = st1.stack.last().1;
        assert(st1.buf.push(c) =~= whole);
        assert(st.objects(delta)[i] == whole.skip(from));
        assert(whole.skip(from) =~= whole.subrange(from, whole.len() as int));
        assert(whole[from] == '{');
    }
}

/// An object is handed out only when a `}` closes it: text without `}` yields
/// nothing.
pub proof fn law_nothing_until_closed(st: ScanState, delta: Seq<char>)
    requires
        !delta.contains('}'),
    ensures
        st.objects(delta) == Seq::<Seq<char>>::empty(),
    decreases delta.len(),
{
    if delta.len() > 0 {
        let front = delta.drop_last();
        assert forall|k: int| 0 <= k < front.len() implies front[k] != '}' by {
            assert(front[k] == delta[k]);
        }
        law_nothing_until_closed(st, front);
        assert(delta.contains(delta.last()));
        assert(st.objects(delta) =~= Seq::<Seq<char>>::empty());
    }
}

/// Whether `s` can stand between the quotes of a string literal: it holds no
/// quote but escaped ones, and no unfinished escape at its end.
pub open spec fn is_string_body(s: Seq<char>) -> bool
    decreases s.len(),
{
    if s.len() == 0 {
        true
    } else if s[0] == '\\' {
        s.len() >= 2 && is_string_body(s.skip(2))
    } else {
        s[0] != '"' && is_string_body(s.skip(1))
    }
}

/// The body of a string literal, whatever braces and brackets it holds, opens
/// and closes nothing.
pub proof fn law_strings_are_skipped(st: ScanState, body: Seq<char>)
    requires
        st.in_string,
        !st.escaped,
        is_string_body(body),
    ensures
        st.run(body) == (ScanState { buf: st.buf + body, ..st }),
        st.objects(body) == Seq::<Seq<char>>::empty(),
    decreases body.len(),
{
    let none = Seq::<Seq<char>>::empty();
    if body.len() == 0 {
        assert(st.run(body) =~= (ScanState { buf: st.buf + body, ..st }));
    } else {
        let n: int = if body[0] == '\\' { 2 } else { 1 };
        let head = body.take(n);
        let tail = body.skip(n);
        assert(body =~= head + tail);
        reveal_with_fuel(ScanState::run, 3);
        reveal_with_fuel(ScanState::objects, 3);
        assert(head.drop_last() =~= body.take(n - 1));
        assert(head.drop_last().drop_last() =~= body.take(n - 1).drop_last());
        law_text_is_kept(st, head);
        let st1 = st.run(head);
        assert(st1 =~= (ScanState { buf: st.buf + head, ..st }));
        assert(st.objects(head) =~= none);
        law_strings_are_skipped(st1, tail);
        law_chunks(st, head, tail);
        assert(st.buf + head + tail =~= st.buf + body);
        assert(st.objects(body) =~= none);
    }
}

/// Every closed `{...}` is handed out: when the text after a `{` outside
/// strings leaves just that `{` innermost, and no string unfinished, a `}`
/// completes exactly the text from the one to the other, and what was open
/// before is open again.
pub proof fn law_closed_object_is_handed_out(st: ScanState, body: Seq<char>)
    requires
        !st.in_string,
        !st.step('{').run(body).in_string,
        st.step('{').run(body).stack == st.step('{').stack,
    ensures
        st.objects(seq!['{'] + body + seq!['}']) == st.step('{').objects(body).push(
            seq!['{'] + body + seq!['}'],
        ),
        st.run(seq!['{'] + body + seq!['}']).stack == st.stack,
        !st.run(seq!['{'] + body + seq!['}']).in_string,
{
    let open = seq!['{'];
    let close = seq!['}'];
    reveal_with_fuel(ScanState::run, 2);
    reveal_with_fuel(ScanState::objects, 2);
    assert(open.drop_last() =~= Seq::<char>::empty());
    assert(close.drop_last() =~= Seq::<char>::empty());
    let st1 = st.step('{');
    let st2 = st1.run(body);
    assert(st.run(open) == st1);
    assert(st.objects(open) =~= Seq::<Seq<char>>::empty());
    law_chunks(st, open, body);
    law_chunks(st, open + body, close);
    assert(st2.stack.drop_last() =~= st.stack);
    law_text_is_kept(st1, body);
    assert(st2.buf.push('}').skip(st.buf.len() as int) =~= open + body + close);
    assert(st2.objects(close) =~= seq![open + body + close]);
    assert(st.objects(open + body) =~= st1.objects(body));
    assert(st1.objects(body) + st2.objects(close) =~= st1.objects(body).push(open + body + close));
}

/// `extract_objects` gives each text once, and leaves out none.
pub proof fn law_each_object_once(objects: Seq<Seq<char>>)
    ensures
        first_occurrences(objects).no_duplicates(),
        forall|o: Seq<char>| first_occurrences(objects).contains(o) <==> objects.contains(o),
    decreases objects.len(),
{
    if objects.len() > 0 {
        let front = objects.drop_last();
        let last = objects.last();
        law_each_object_once(front);
        let kept = first_occurrences(front);
        assert forall|o: Seq<char>|
            first_occurrences(objects).contains(o) <==> objects.contains(o) by {
            assert(objects =~= front.push(last));
            assert(objects.contains(o) <==> (front.contains(o) || o == last)) by {
                if front.contains(o) {
                    let k = choose|k: int| 0 <= k < front.len() && front[k] == o;
                    assert(objects[k] == o);
                }
                if o == last {
                    assert(objects[objects.len() - 1] == o);
                }
            }
            assert(kept.push(last).contains(o) <==> (kept.contains(o) || o == last)) by {
                if kept.contains(o) {
                    let k = choose|k: int| 0 <= k < kept.len() && kept[k] == o;
                    assert(kept.push(last)[k] == o);
                }
                if o == last {
                    assert(kept.push(last)[kept.len() as int] == o);
                }
            }
        }
    }
}

/// Whether a text ends inside a string literal, and there right behind a
/// backslash that escapes what follows.
pub open spec fn quoting(text: Seq<char>) -> (bool, bool)
    decreases text.len(),
{
    if text.len() == 0 {
        (false, false)
    } else {
        let (inside, escaped) = quoting(text.drop_last());
        let c = text.last();
        if inside {
            (escaped || c != '"', !escaped && c == '\\')
        } else {
            (c == '"', escaped)
        }
    }
}

/// The character number `k` stands outside of string literals.
pub open spec fn is_outside(text: Seq<char>, k: int) -> bool {
    !quoting(text.take(k)).0
}

/// What the character number `k` does to the nesting: a bracket that opens
/// counts 1, one that closes -1, and what stands in a string literal nothing.
pub open spec fn weight(text: Seq<char>, k: int) -> int {
    if !is_outside(text, k) {
        0
    } else if text[k] == '{' || text[k] == '[' {
        1
    } else if text[k] == '}' || text[k] == ']' {
        -1
    } else {
        0
    }
}

/// How many more brackets open than close in `from..to`.
pub open spec fn balance(text: Seq<char>, from: int, to: int) -> int
    decreases to - from,
{
    if to <= from {
        0
    } else {
        balance(text, from, to - 1) + weight(text, to - 1)
    }
}

/// The bracket that opens at `i` is not closed before `n`.
pub open spec fn is_open_at(text: Seq<char>, i: int, n: int) -> bool {
    &&& 0 <= i < n
    &&& weight(text, i) == 1
    &&& forall|k: int| i < k <= n ==> #[trigger] balance(text, i + 1, k) >= 0
}

/// The `{` at `i` is matched by the `}` at `j`, both outside of string
/// literals: between them as many brackets close as open, and none closes what
/// was open before. A bracket closes the innermost open one, of either kind.
pub open spec fn is_matched(text: Seq<char>, i: int, j: int) -> bool {
    &&& 0 <= i < j < text.len()
    &&& is_outside(text, j)
    &&& text[i] == '{'
    &&& text[j] == '}'
    &&& is_open_at(text, i, j)
    &&& balance(text, i + 1, j) == 0
}

proof fn lemma_weight_of_prefix(text: Seq<char>, c: char, k: int)
    requires
        0 <= k < text.len(),
    ensures
        weight(text.push(c), k) == weight(text, k),
        is_outside(text.push(c), k) == is_outside(text, k),
{
    assert(text.push(c).take(k) =~= text.take(k));
}

proof fn lemma_balance_of_prefix(text: Seq<char>, c: char, from: int, to: int)
    requires
        0 <= from,
        to <= text.len(),
    ensures
        balance(text.push(c), from, to) == balance(text, from, to),
    decreases to - from,
{
    if to > from {
        lemma_balance_of_prefix(text, c, from, to - 1);
        lemma_weight_of_prefix(text, c, to - 1);
    }
}

proof fn lemma_open_of_prefix(text: Seq<char>, c: char, i: int, n: int)
    requires
        0 <= i,
        n <= text.len(),
    ensures
        is_open_at(text.push(c), i, n) == is_open_at(text, i, n),
{
    if 0 <= i < n {
        lemma_weight_of_prefix(text, c, i);
        assert forall|k: int|
            #![trigger balance(text.push(c), i + 1, k)]
            #![trigger balance(text, i + 1, k)]
            i < k <= n implies balance(text.push(c), i + 1, k) == balance(text, i + 1, k) by {
            lemma_balance_of_prefix(text, c, i + 1, k);
        }
    }
}

/// The scanner's stack holds the brackets that are still open, the innermost
/// last.
spec fn holds_the_open(st: ScanState) -> bool {
    let text = st.buf;
    let n = text.len() as int;
    &&& quoting(text).0 == st.in_string
    &&& st.in_string ==> quoting(text).1 == st.escaped
    &&& !st.in_string ==> !st.escaped && !quoting(text).1
    &&& forall|m: int|
        0 <= m < st.stack.len() ==> {
            &&& is_open_at(text, (#[trigger] st.stack[m]).1, n)
            &&& text[st.stack[m].1] == st.stack[m].0
            &&& balance(text, st.stack[m].1 + 1, n) == st.stack.len() - 1 - m
        }
    &&& forall|i: int| #[trigger]
        is_open_at(text, i, n) ==> exists|m: int|
            0 <= m < st.stack.len() && (#[trigger] st.stack[m]).1 == i
}

proof fn lemma_step_holds_the_open(st: ScanState, c: char)
    requires
        holds_the_open(st),
    ensures
        holds_the_open(st.step(c)),
        forall|i: int| #[trigger]
            is_matched(st.buf.push(c), i, st.buf.len() as int) ==> st.closes_object(c)
                && st.stack.last().1 == i,
        st.closes_object(c) ==> is_matched(
            st.buf.push(c),
            st.stack.last().1,
            st.buf.len() as int,
        ),
{
    let text = st.buf;
    let n = text.len() as int;
    let next = st.step(c);
    let now = next.buf;
    assert(now == text.push(c));
    assert(now.drop_last() =~= text);
    assert(now.take(n) =~= text);
    assert(is_outside(now, n) == !st.in_string);
    let w = weight(now, n);
    // What was open or not stays so up to `n`; the last character adds its
    // weight to every balance.
    assert forall|i: int| 0 <= i < n implies #[trigger] is_open_at(now, i, n) == is_open_at(
        text,
        i,
        n,
    ) by {
        lemma_open_of_prefix(text, c, i, n);
    }
    assert forall|i: int| 0 <= i <= n implies #[trigger] balance(now, i, n + 1) == balance(
        text,
        i,
        n,
    ) + w by {
        lemma_balance_of_prefix(text, c, i, n);
    }
    assert forall|i: int| 0 <= i < n implies #[trigger] is_open_at(now, i, n + 1) == (is_open_at(
        text,
        i,
        n,
    ) && balance(text, i + 1, n) + w >= 0) by {
        assert(is_open_at(now, i, n) == is_open_at(text, i, n));
        assert(balance(now, i + 1, n + 1) == balance(text, i + 1, n) + w);
        if is_open_at(now, i, n) && balance(text, i + 1, n) + w >= 0 {
            assert forall|k: int| i < k <= n + 1 implies #[trigger] balance(now, i + 1, k) >= 0 by {
                if k == n + 1 {
                    assert(balance(now, i + 1, n + 1) == balance(text, i + 1, n) + w);
                }
            }
        }
        if is_open_at(now, i, n + 1) {
            assert(balance(now, i + 1, n + 1) >= 0);
            assert forall|k: int| i < k <= n implies #[trigger] balance(now, i + 1, k) >= 0 by {}
            assert(is_open_at(now, i, n));
        }
    }
    assert(is_open_at(now, n, n + 1) == (w == 1)) by {
        assert(balance(now, n + 1, n + 1) == 0);
    }
    // Each bracket of the old stack.
    assert forall|m: int| 0 <= m < st.stack.len() implies {
        let p = (#[trigger] st.stack[m]).1;
        &&& 0 <= p < n
        &&& now[p] == st.stack[m].0
        &&& is_open_at(now, p, n + 1) == (st.stack.len() - 1 - m + w >= 0)
        &&& balance(now, p + 1, n + 1) == st.stack.len() - 1 - m + w
    } by {
        let p = st.stack[m].1;
        assert(is_open_at(text, p, n));
        assert(now[p] == text[p]);
        assert(is_open_at(now, p, n + 1) == (is_open_at(text, p, n) && balance(text, p + 1, n) + w
            >= 0));
        assert(balance(now, p + 1, n + 1) == balance(text, p + 1, n) + w);
    }
    // Nothing but the brackets of the old stack, and the last character, can
    // be open.
    assert forall|i: int| #[trigger] is_open_at(now, i, n + 1) implies i == n && w == 1 || (
    exists|m: int| 0 <= m < st.stack.len() && (#[trigger] st.stack[m]).1 == i) by {
        if i < n {
            assert(is_open_at(text, i, n));
        }
    }
    assert forall|m: int| 0 <= m < next.stack.len() implies {
        &&& is_open_at(now, (#[trigger] next.stack[m]).1, n + 1)
        &&& now[next.stack[m].1] == next.stack[m].0
        &&& balance(now, next.stack[m].1 + 1, n + 1) == next.stack.len() - 1 - m
    } by {
        if m < st.stack.len() {
            assert(next.stack[m] == st.stack[m]);
            let p = st.stack[m].1;
            assert(now[p] == st.stack[m].0);
        } else {
            assert(balance(now, n + 1, n + 1) == 0);
        }
    }
    assert forall|i: int| #[trigger] is_open_at(now, i, n + 1) implies exists|m: int|
        0 <= m < next.stack.len() && (#[trigger] next.stack[m]).1 == i by {
        if i == n && w == 1 {
            assert(next.stack[st.stack.len() as int].1 == i);
        } else {
            let m = choose|m: int| 0 <= m < st.stack.len() && (#[trigger] st.stack[m]).1 == i;
            let p = st.stack[m].1;
            assert(is_open_at(now, p, n + 1) == (st.stack.len() - 1 - m + w >= 0));
            assert(next.stack[m] == st.stack[m]);
        }
    }
    assert forall|i: int| #[trigger] is_matched(now, i, n) implies st.closes_object(c)
        && st.stack.last().1 == i by {
        assert(is_open_at(text, i, n));
        let m = choose|m: int| 0 <= m < st.stack.len() && (#[trigger] st.stack[m]).1 == i;
        lemma_balance_of_prefix(text, c, i + 1, n);
        assert(now[i] == text[i]);
    }
    if st.closes_object(c) {
        let m = st.stack.len() - 1;
        let p = st.stack[m].1;
        assert(is_open_at(now, p, n) == is_open_at(text, p, n));
        lemma_balance_of_prefix(text, c, p + 1, n);
        assert(now[p] == text[p]);
        assert(now[n] == c);
    }
}

proof fn lemma_run_holds_the_open(text: Seq<char>)
    ensures
        holds_the_open(ScanState::start().run(text)),
    decreases text.len(),
{
    let start = ScanState::start();
    if text.len() > 0 {
        lemma_run_holds_the_open(text.drop_last());
        lemma_step_holds_the_open(start.run(text.drop_last()), text.last());
    }
}

proof fn lemma_matched_of_prefix(text: Seq<char>, c: char, i: int, j: int)
    requires
        j < text.len(),
    ensures
        is_matched(text.push(c), i, j) == is_matched(text, i, j),
{
    if 0 <= i < j {
        lemma_open_of_prefix(text, c, i, j);
        lemma_balance_of_prefix(text, c, i + 1, j);
        lemma_weight_of_prefix(text, c, j);
        assert(text.push(c)[i] == text[i] && text.push(c)[j] == text[j]);
    }
}

/// `pairs` lists the matched braces of `text` whose second one stands at `from`
/// or behind it: each pair once, in the order in which they close.
pub open spec fn lists_matched(text: Seq<char>, from: int, pairs: Seq<(int, int)>) -> bool {
    &&& forall|k: int|
        0 <= k < pairs.len() ==> from <= (#[trigger] pairs[k]).1 && is_matched(
            text,
            pairs[k].0,
            pairs[k].1,
        )
    &&& forall|k: int, l: int|
        0 <= k < l < pairs.len() ==> (#[trigger] pairs[k]).1 < (#[trigger] pairs[l]).1
    &&& forall|i: int, j: int|
        from <= j && #[trigger] is_matched(text, i, j) ==> pairs.contains((i, j))
}

/// Over a whole text the objects that are handed out are exactly the texts from
/// each `{` outside of string literals to the `}` that matches it: once per
/// pair, in the order in which they close, and each while the chunk is read that
/// holds its `}`. What is never closed, and what closes nothing, gives none.
/// The text `a` has been read before, and `b` is the chunk.
pub proof fn law_objects_are_the_matched_braces(a: Seq<char>, b: Seq<char>) -> (pairs: Seq<
    (int, int),
>)
    ensures
        lists_matched(a + b, a.len() as int, pairs),
        ScanState::start().run(a).objects(b) == pairs.map_values(
            |p: (int, int)| (a + b).subrange(p.0, p.1 + 1),
        ),
    decreases b.len(),
{
    let start = ScanState::start();
    let st = start.run(a);
    let text = a + b;
    let cut = |p: (int, int)| text.subrange(p.0, p.1 + 1);
    if b.len() == 0 {
        let pairs = Seq::<(int, int)>::empty();
        assert(st.objects(b) =~= pairs.map_values(cut));
        pairs
    } else {
        let front = b.drop_last();
        let c = b.last();
        let before = a + front;
        assert(text =~= before.push(c));
        let n = before.len() as int;
        let earlier = law_objects_are_the_matched_braces(a, front);
        law_chunks(start, a, front);
        law_text_is_kept(start, before);
        let here = start.run(before);
        assert(here.buf =~= before);
        lemma_run_holds_the_open(before);
        lemma_step_holds_the_open(here, c);
        let pairs = if here.closes_object(c) {
            earlier.push((here.stack.last().1, n))
        } else {
            earlier
        };
        assert forall|i: int, j: int| j < n implies #[trigger] is_matched(text, i, j)
            == is_matched(before, i, j) by {
            lemma_matched_of_prefix(before, c, i, j);
        }
        assert forall|k: int| 0 <= k < earlier.len() implies is_matched(
            text,
            (#[trigger] earlier[k]).0,
            earlier[k].1,
        ) && earlier[k].1 < n by {
            assert(is_matched(before, earlier[k].0, earlier[k].1));
        }
        assert forall|k: int| 0 <= k < pairs.len() implies a.len() <= (#[trigger] pairs[k]).1
            && is_matched(text, pairs[k].0, pairs[k].1) by {
            if k < earlier.len() {
                assert(pairs[k] == earlier[k]);
            }
        }
        assert forall|k: int, l: int| 0 <= k < l < pairs.len() implies (#[trigger] pairs[k]).1 < (
        #[trigger] pairs[l]).1 by {
            assert(pairs[k] == earlier[k]);
            if l < earlier.len() {
                assert(pairs[l] == earlier[l]);
            }
        }
        assert forall|i: int, j: int|
            a.len() <= j && #[trigger] is_matched(text, i, j) implies pairs.contains((i, j)) by {
            if j < n {
                assert(is_matched(before, i, j));
                let k = choose|k: int| 0 <= k < earlier.len() && earlier[k] == (i, j);
                assert(pairs[k] == (i, j));
            } else {
                assert(pairs[earlier.len() as int] == (i, j));
            }
        }
        let cut_before = |p: (int, int)| before.subrange(p.0, p.1 + 1);
        assert forall|k: int| 0 <= k < earlier.len() implies cut_before(#[trigger] earlier[k])
            == cut(earlier[k]) by {
            assert(before.subrange(earlier[k].0, earlier[k].1 + 1) =~= text.subrange(
                earlier[k].0,
                earlier[k].1 + 1,
            ));
        }
        assert(earlier.map_values(cut_before) =~= earlier.map_values(cut));
        if here.closes_object(c) {
            let p = here.stack.last().1;
            assert(text.skip(p) =~= text.subrange(p, n + 1));
        }
        assert(st.run(front) == here);
        assert(st.objects(b) == st.objects(front) + here.completed(c));
        assert(st.objects(b) =~= pairs.map_values(cut));
        pairs
    }
}

/// Text that holds no bracket and no quote changes nothing outside of strings.
pub proof fn law_plain_text_is_passed_over(st: ScanState, plain: Seq<char>)
    requires
        !st.in_string,
        forall|i: int|
            0 <= i < plain.len() ==> {
                let c = #[trigger] plain[i];
                c != '"' && c != '{' && c != '}' && c != '[' && c != ']'
            },
    ensures
        st.run(plain) == (ScanState { buf: st.buf + plain, ..st }),
        st.objects(plain) == Seq::<Seq<char>>::empty(),
    decreases plain.len(),
{
    if plain.len() == 0 {
        assert(st.buf + plain =~= st.buf);
    } else {
        let front = plain.drop_last();
        assert forall|i: int| 0 <= i < front.len() implies {
            let c = #[trigger] front[i];
            c != '"' && c != '{' && c != '}' && c != '[' && c != ']'
        } by {
            assert(front[i] == plain[i]);
        }
        law_plain_text_is_passed_over(st, front);
        let c = plain[plain.len() - 1];
        assert((st.buf + front).push(c) =~= st.buf + plain);
        assert(st.objects(plain) =~= Seq::<Seq<char>>::empty());
    }
}

/// A string literal changes nothing, whatever is in it: brackets, and quotes and
/// backslashes that are escaped. It is made of units, each a character other
/// than a quote and a backslash, or a backslash and any character.
pub proof fn law_a_string_literal_is_passed_over(st: ScanState, units: Seq<Seq<char>>)
    requires
        !st.in_string,
        !st.escaped,
        forall|i: int|
            0 <= i < units.len() ==> {
                let u = #[trigger] units[i];
                ||| u.len() == 1 && u[0] != '"' && u[0] != '\\'
                ||| u.len() == 2 && u[0] == '\\'
            },
    ensures
        ({
            let literal = seq!['"'] + units.flatten() + seq!['"'];
            &&& st.run(literal) == (ScanState { buf: st.buf + literal, ..st })
            &&& st.objects(literal) == Seq::<Seq<char>>::empty()
        }),
{
    let quote = seq!['"'];
    let body = units.flatten();
    let none = Seq::<Seq<char>>::empty();
    lemma_units_are_a_body(units);
    reveal_with_fuel(ScanState::run, 2);
    reveal_with_fuel(ScanState::objects, 2);
    assert(quote.drop_last() =~= Seq::<char>::empty());
    let inside = st.run(quote);
    assert(inside == st.step('"'));
    assert(st.objects(quote) =~= none);
    law_strings_are_skipped(inside, body);
    law_chunks(st, quote, body);
    law_chunks(st, quote + body, quote);
    let end = inside.run(body);
    assert(end.run(quote) == end.step('"'));
    assert(end.objects(quote) =~= none);
    law_text_is_kept(st, quote + body + quote);
    assert(st.run(quote + body + quote) =~= (ScanState {
        buf: st.buf + (quote + body + quote),
        ..st
    }));
    assert(st.objects(quote + body + quote) =~= none);
}

proof fn lemma_units_are_a_body(units: Seq<Seq<char>>)
    requires
        forall|i: int|
            0 <= i < units.len() ==> {
                let u = #[trigger] units[i];
                ||| u.len() == 1 && u[0] != '"' && u[0] != '\\'
                ||| u.len() == 2 && u[0] == '\\'
            },
    ensures
        is_string_body(units.flatten()),
    decreases units.len(),
{
    if units.len() > 0 {
        let u = units[0];
        let rest = units.drop_first();
        assert forall|i: int| 0 <= i < rest.len() implies {
            let u = #[trigger] rest[i];
            ||| u.len() == 1 && u[0] != '"' && u[0] != '\\'
            ||| u.len() == 2 && u[0] == '\\'
        } by {
            assert(rest[i] == units[i + 1]);
        }
        lemma_units_are_a_body(rest);
        let all = units.flatten();
        assert(all == u + rest.flatten());
        assert(all[0] == u[0]);
        assert(all.skip(u.len() as int) =~= rest.flatten());
    }
}

/// Whether a text leaves a scanner that stands outside of strings with the same
/// brackets open, and outside of strings.
pub open spec fn is_neutral(text: Seq<char>) -> bool {
    forall|st: ScanState|
        !st.in_string && !st.escaped ==> {
            let then = #[trigger] st.run(text);
            then.stack == st.stack && !then.in_string && !then.escaped
        }
}

/// What can stand in an object: nothing, plain text, string literals, objects
/// and lists, one behind the other, to any depth. All of it is neutral; so a
/// `{`, anything made in this way, and a `}` is an object that is handed out, as
/// it is and behind those that are in it, while a list hands out just those that
/// are in it.
pub proof fn law_objects_nest(st: ScanState, a: Seq<char>, b: Seq<char>)
    requires
        is_neutral(a),
        is_neutral(b),
        !st.in_string,
        !st.escaped,
    ensures
        is_neutral(Seq::<char>::empty()),
        is_neutral(a + b),
        is_neutral(seq!['{'] + a + seq!['}']),
        is_neutral(seq!['['] + a + seq![']']),
        st.objects(seq!['{'] + a + seq!['}']) == st.step('{').objects(a).push(
            seq!['{'] + a + seq!['}'],
        ),
        st.objects(seq!['['] + a + seq![']']) == st.step('[').objects(a),
{
    assert forall|s: ScanState| !s.in_string && !s.escaped implies ({
        let then = #[trigger] s.run(a + b);
        then.stack == s.stack && !then.in_string && !then.escaped
    }) by {
        law_chunks(s, a, b);
        let mid = s.run(a);
        assert(mid.run(b).stack == mid.stack);
    }
    assert forall|s: ScanState| !s.in_string && !s.escaped implies ({
        let then = #[trigger] s.run(seq!['{'] + a + seq!['}']);
        then.stack == s.stack && !then.in_string && !then.escaped
    }) by {
        lemma_bracketed(s, '{', a, '}');
    }
    assert forall|s: ScanState| !s.in_string && !s.escaped implies ({
        let then = #[trigger] s.run(seq!['['] + a + seq![']']);
        then.stack == s.stack && !then.in_string && !then.escaped
    }) by {
        lemma_bracketed(s, '[', a, ']');
    }
    let inner = st.step('{');
    assert(inner.run(a).stack == inner.stack);
    law_closed_object_is_handed_out(st, a);
    lemma_bracketed(st, '[', a, ']');
}

proof fn lemma_bracketed(st: ScanState, open: char, body: Seq<char>, close: char)
    requires
        is_neutral(body),
        !st.in_string,
        !st.escaped,
        open == '{' && close == '}' || open == '[' && close == ']',
    ensures
        st.run(seq![open] + body + seq![close]).stack == st.stack,
        !st.run(seq![open] + body + seq![close]).in_string,
        !st.run(seq![open] + body + seq![close]).escaped,
        close == ']' ==> st.objects(seq![open] + body + seq![close]) == st.step(open).objects(body),
{
    let first = seq![open];
    let last = seq![close];
    reveal_with_fuel(ScanState::run, 2);
    reveal_with_fuel(ScanState::objects, 2);
    assert(first.drop_last() =~= Seq::<char>::empty());
    assert(last.drop_last() =~= Seq::<char>::empty());
    let inner = st.step(open);
    assert(st.run(first) == inner);
    assert(st.objects(first) =~= Seq::<Seq<char>>::empty());
    law_chunks(st, first, body);
    law_chunks(st, first + body, last);
    let end = inner.run(body);
    assert(end.stack == inner.stack);
    assert(end.run(last) == end.step(close));
    assert(end.step(close).stack =~= st.stack);
    if close == ']' {
        assert(end.objects(last) =~= Seq::<Seq<char>>::empty());
        assert(st.objects(first + body) =~= inner.objects(body));
        assert(st.objects(first + body + last) =~= inner.objects(body));
    }
}

/// Plain text and string literals are neutral: with them and what nests, every
/// JSON value is.
pub proof fn law_plain_text_and_strings_are_neutral(plain: Seq<char>, units: Seq<Seq<char>>)
    requires
        forall|i: int|
            0 <= i < plain.len() ==> {
                let c = #[trigger] plain[i];
                c != '"' && c != '{' && c != '}' && c != '[' && c != ']'
            },
        forall|i: int|
            0 <= i < units.len() ==> {
                let u = #[trigger] units[i];
                ||| u.len() == 1 && u[0] != '"' && u[0] != '\\'
                ||| u.len() == 2 && u[0] == '\\'
            },
    ensures
        is_neutral(plain),
        is_neutral(seq!['"'] + units.flatten() + seq!['"']),
{
    assert forall|st: ScanState| !st.in_string && !st.escaped implies ({
        let then = #[trigger] st.run(plain);
        then.stack == st.stack && !then.in_string && !then.escaped
    }) by {
        law_plain_text_is_passed_over(st, plain);
    }
    let literal = seq!['"'] + units.flatten() + seq!['"'];
    assert forall|st: ScanState| !st.in_string && !st.escaped implies ({
        let then = #[trigger] st.run(literal);
        then.stack == st.stack && !then.in_string && !then.escaped
    }) by {
        law_a_string_literal_is_passed_over(st, units);
    }
}

/// A bracket that closes nothing is passed over, and one of the other kind
/// closes the innermost open one without handing anything out.
pub proof fn law_stray_brackets_hand_out_nothing(st: ScanState)
    requires
        !st.in_string,
    ensures
        st.stack.len() == 0 ==> st.objects(seq!['}']).len() == 0 && st.run(seq!['}']).stack
            == st.stack,
        st.stack.len() == 0 ==> st.run(seq![']']).stack == st.stack,
        st.objects(seq![']']).len() == 0,
        st.stack.len() > 0 && st.stack.last().0 != '{' ==> st.objects(seq!['}']).len() == 0,
        st.stack.len() > 0 ==> st.run(seq!['}']).stack == st.stack.drop_last(),
        st.stack.len() > 0 ==> st.run(seq![']']).stack == st.stack.drop_last(),
{
    reveal_with_fuel(ScanState::run, 2);
    reveal_with_fuel(ScanState::objects, 2);
    assert(seq!['}'].drop_last() =~= Seq::<char>::empty());
    assert(seq![']'].drop_last() =~= Seq::<char>::empty());
}

/// The objects that `extract_objects` gives stand in the order in which they
/// first close: `at` holds, for each of them, where it first stands in the list
/// of all.
pub proof fn law_objects_stay_in_order(objects: Seq<Seq<char>>) -> (at: Seq<int>)
    ensures
        at.len() == first_occurrences(objects).len(),
        forall|k: int|
            0 <= k < at.len() ==> 0 <= (#[trigger] at[k]) < objects.len() && objects[at[k]]
                == first_occurrences(objects)[k],
        forall|k: int, l: int| 0 <= k < l < at.len() ==> #[trigger] at[k] < #[trigger] at[l],
        forall|k: int, i: int|
            0 <= k < at.len() && 0 <= i < #[trigger] at[k] ==> #[trigger] objects[i]
                != first_occurrences(objects)[k],
    decreases objects.len(),
{
    if objects.len() == 0 {
        Seq::empty()
    } else {
        let front = objects.drop_last();
        let before = law_objects_stay_in_order(front);
        law_each_object_once(front);
        let kept = first_occurrences(front);
        let n = front.len() as int;
        let at = if kept.contains(objects.last()) {
            before
        } else {
            before.push(n)
        };
        assert forall|k: int, i: int|
            0 <= k < at.len() && 0 <= i < #[trigger] at[k] implies #[trigger] objects[i]
            != first_occurrences(objects)[k] by {
            if k < before.len() {
                assert(before[k] == at[k]);
                assert(front[i] == objects[i]);
            } else {
                assert(front[i] == objects[i]);
                assert(front.contains(front[i]));
            }
        }
        at
    }
}

} // verus!
