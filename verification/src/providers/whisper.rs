//! How the tokens of the speech recognizer become a transcript.

use crate::config::{Config, Single};
use crate::error::{AppError, AppErrorView, ErrorKind};
use crate::marks;
use crate::providers::{Transcript, TranscriptView, TranscriptionResult};
use crate::text;
use crate::text::{chars_of, contains_text, trim, trim_start};
use vstd::prelude::*;
use vstd::string::*;
use vstd::utf8::*;

verus! {

/// How many threads the recognizer uses: as many as the machine offers (4 where
/// that is not known), and 8 at most.
pub open spec fn threads_of(available: Option<usize>) -> usize {
    let offered = match available {
        Some(a) => a,
        None => 4,
    };
    if offered < 8 {
        offered
    } else {
        8
    }
}

/// How many threads the recognizer uses.
pub fn thread_count(available: Option<usize>) -> (n: usize)
    ensures
        n == threads_of(available),
{
    let offered: usize = match available {
        Some(a) => a,
        None => 4,
    };
    if offered < 8 {
        offered
    } else {
        8
    }
}

/// How the recognizer is used.
pub struct WhisperProvider {
    pub n_threads: usize,
    pub initial_prompt: String,
    /// Tokens of a lower probability are low-confidence.
    pub low_conf_threshold: Single,
}

/// Why the recognizer gave no tokens.
#[derive(Debug)]
pub enum RecognizerFailure {
    /// The path of the model is no text.
    PathNotText,
    /// The model could not be loaded.
    Load { path: String, message: String },
    /// There is no room to work in.
    State(String),
    /// It gave up on the audio.
    Inference(String),
}

impl RecognizerFailure {
    /// The error that reports the failure.
    pub open spec fn error(self) -> AppErrorView {
        match self {
            RecognizerFailure::PathNotText => AppErrorView {
                kind: ErrorKind::Config,
                detail: "whisper model path not UTF-8"@,
            },
            RecognizerFailure::Load { path, message } => AppErrorView {
                kind: ErrorKind::Config,
                detail: "failed to load whisper model '"@ + path@ + "': "@ + message@,
            },
            RecognizerFailure::State(message) => AppErrorView {
                kind: ErrorKind::Transcription,
                detail: "create state: "@ + message@,
            },
            RecognizerFailure::Inference(message) => AppErrorView {
                kind: ErrorKind::Transcription,
                detail: "inference failed: "@ + message@,
            },
        }
    }

    /// The error that reports the failure.
    pub fn into_error(self) -> (e: AppError)
        ensures
            e@ == self.error(),
    {
        match self {
            RecognizerFailure::PathNotText => AppError::Config(
                "whisper model path not UTF-8".to_owned(),
            ),
            RecognizerFailure::Load { path, message } => AppError::Config(
                "failed to load whisper model '".to_owned().concat(path.as_str()).concat(
                    "': ",
                ).concat(message.as_str()),
            ),
            RecognizerFailure::State(message) => AppError::Transcription(
                "create state: ".to_owned().concat(message.as_str()),
            ),
            RecognizerFailure::Inference(message) => AppError::Transcription(
                "inference failed: ".to_owned().concat(message.as_str()),
            ),
        }
    }
}

impl WhisperProvider {
    /// The recognizer as the configuration sets it up, on a machine that offers
    /// so many threads.
    pub fn new(cfg: &Config, available: Option<usize>) -> (r: WhisperProvider)
        ensures
            r.n_threads == threads_of(available),
            r.initial_prompt@ == cfg.whisper_prompt(),
            r.low_conf_threshold == cfg.whisper_low_conf_threshold,
    {
        WhisperProvider {
            n_threads: thread_count(available),
            initial_prompt: cfg.effective_whisper_prompt(),
            low_conf_threshold: cfg.whisper_low_conf_threshold,
        }
    }

    /// The prompt that the decoder is seeded with, if any.
    pub fn seed(&self) -> (seed: Option<String>)
        ensures
            match seed {
                Some(s) => s@ == self.initial_prompt@ && s@.len() > 0,
                None => self.initial_prompt@.len() == 0,
            },
    {
        if self.initial_prompt.as_str().is_empty() {
            None
        } else {
            Some(self.initial_prompt.clone())
        }
    }
}

/// The transcript of what the recognizer gave.
pub fn transcribed(recognized: Result<Vec<Token>, RecognizerFailure>) -> (r: TranscriptionResult)
    ensures
        match recognized {
            Ok(tokens) => r matches Ok(t) && t@ == transcript_of(token_views(tokens@)),
            Err(failure) => r matches Err(e) && e@ == failure.error(),
        },
{
    match recognized {
        Ok(tokens) => Ok(assemble_transcript(tokens.as_slice())),
        Err(failure) => Err(failure.into_error()),
    }
}

/// A token of the recognizer: its text, and whether its probability is below
/// the threshold.
pub struct Token {
    pub raw: String,
    pub low: bool,
}

/// The mathematical form of a token.
pub struct TokenView {
    pub raw: Seq<char>,
    pub low: bool,
}

impl View for Token {
    type V = TokenView;

    open spec fn view(&self) -> TokenView {
        TokenView { raw: self.raw@, low: self.low }
    }
}

/// The mathematical form of a list of tokens.
pub open spec fn token_views(list: Seq<Token>) -> Seq<TokenView> {
    list.map_values(|t: Token| t@)
}

impl TokenView {
    /// The token's text without the white space in front of it.
    pub open spec fn piece(self) -> Seq<char> {
        text::trimmed_start(self.raw)
    }

    /// Whether the token is part of the transcript: blank ones are not, nor
    /// special ones such as `[_BEG_]` and `<|endoftext|>`.
    pub open spec fn is_spoken(self) -> bool {
        let piece = self.piece();
        piece.len() > 0 && piece[0] != '[' && !text::occurs_in("<|"@, piece)
    }

    /// Whether there is white space in front of the token's text.
    pub open spec fn is_spaced(self) -> bool {
        self.piece().len() < self.raw.len()
    }
}

/// The length of a text in bytes.
pub open spec fn byte_len(s: Seq<char>) -> int {
    encode_utf8(s).len() as int
}

/// The transcript as far as it has been put together: the text, the byte ranges
/// of the finished runs of low-confidence tokens, and the start of the run that
/// is not finished yet, if any.
#[verifier::ext_equal]
pub struct Assembly {
    pub text: Seq<char>,
    pub spans: Seq<(int, int)>,
    pub open_run: Option<int>,
}

impl Assembly {
    pub open spec fn start() -> Assembly {
        Assembly { text: Seq::empty(), spans: Seq::empty(), open_run: None }
    }

    /// The text with the space that goes in front of a token's text, where one
    /// does.
    pub open spec fn spaced_for(self, t: TokenView) -> Seq<char> {
        if t.is_spaced() && !(self.text.len() > 0 && self.text.last() == ' ') {
            self.text.push(' ')
        } else {
            self.text
        }
    }

    /// The finished runs, when the one that is open, if any, ends here.
    pub open spec fn closed_spans(self) -> Seq<(int, int)> {
        match self.open_run {
            Some(start) => self.spans.push((start, byte_len(self.text))),
            None => self.spans,
        }
    }

    /// The transcript with one more token. A run of low-confidence tokens begins
    /// behind the space in front of its first token, and ends before the space
    /// behind its last.
    pub open spec fn add_token(self, t: TokenView) -> Assembly {
        if !t.is_spoken() {
            self
        } else {
            let spaced = self.spaced_for(t);
            Assembly {
                text: spaced + t.piece(),
                spans: if t.low {
                    self.spans
                } else {
                    self.closed_spans()
                },
                open_run: if !t.low {
                    None
                } else if self.open_run is Some {
                    self.open_run
                } else {
                    Some(byte_len(spaced))
                },
            }
        }
    }
}

/// The transcript after these tokens, before its ends are trimmed.
pub open spec fn assembled(tokens: Seq<TokenView>) -> Assembly
    decreases tokens.len(),
{
    if tokens.len() == 0 {
        Assembly::start()
    } else {
        assembled(tokens.drop_last()).add_token(tokens.last())
    }
}

/// Where byte `at` of `s` is in `s` without the white space at its ends: a byte
/// of that white space is put at the near end.
pub open spec fn trimmed_position(s: Seq<char>, at: int) -> int {
    let lead = byte_len(s) - byte_len(text::trimmed_start(s));
    let len = byte_len(text::trimmed(s));
    if at < lead {
        0
    } else if at - lead > len {
        len
    } else {
        at - lead
    }
}

/// Ranges of `s`, as ranges of `s` without the white space at its ends.
pub open spec fn trimmed_spans(s: Seq<char>, spans: Seq<(int, int)>) -> Seq<(usize, usize)> {
    spans.map_values(
        |r: (int, int)| (trimmed_position(s, r.0) as usize, trimmed_position(s, r.1) as usize),
    )
}

/// The transcript of these tokens.
pub open spec fn transcript_of(tokens: Seq<TokenView>) -> TranscriptView {
    let a = assembled(tokens);
    TranscriptView {
        text: text::trimmed(a.text),
        low_confidence_spans: trimmed_spans(a.text, a.closed_spans()),
    }
}

/// The length of a text in bytes.
fn len_in_bytes(s: &str) -> (n: usize)
    ensures
        n == byte_len(s@),
{
    s.as_bytes().len()
}

/// Puts the tokens of the recognizer together to a transcript: their text, and
/// the byte ranges of it that it was unsure about.
pub fn assemble_transcript(tokens: &[Token]) -> (out: Transcript)
    ensures
        out@ == transcript_of(token_views(tokens@)),
{
    let ghost all = token_views(tokens@);
    let mut body = String::new();
    let mut ends_in_space = false;
    let mut spans: Vec<(usize, usize)> = Vec::new();
    let mut in_span = false;
    let mut span_start: usize = 0;
    let mut i: usize = 0;
    proof {
        assert(marks::ranges(spans@) =~= assembled(all.take(0)).spans);
        assert(body@ =~= assembled(all.take(0)).text);
    }
    while i < tokens.len()
        invariant
            i <= tokens@.len(),
            all == token_views(tokens@),
            body@ == assembled(all.take(i as int)).text,
            marks::ranges(spans@) == assembled(all.take(i as int)).spans,
            assembled(all.take(i as int)).open_run == (if in_span {
                Some(span_start as int)
            } else {
                None
            }),
            ends_in_space == (body@.len() > 0 && body@.last() == ' '),
        decreases tokens@.len() - i,
    {
        let ghost before = assembled(all.take(i as int));
        let ghost t = all[i as int];
        proof {
            assert(all.take(i as int + 1).drop_last() =~= all.take(i as int));
            assert(all.take(i as int + 1).last() == t);
            text::lemma_trimmed_start_shape(t.raw);
            reveal_strlit("<|");
        }
        let token = &tokens[i];
        let piece = trim_start(token.raw.as_str());
        let chars = chars_of(piece.as_str());
        i += 1;
        if chars.len() == 0 || chars[0] == '[' || contains_text(piece.as_str(), "<|") {
            continue;
        }
        let spaced = chars.len() < chars_of(token.raw.as_str()).len();
        if !token.low && in_span {
            let end = len_in_bytes(body.as_str());
            spans.push((span_start, end));
            in_span = false;
            assert(marks::ranges(spans@) =~= before.closed_spans());
        }
        if spaced && !ends_in_space {
            body.push(' ');
        }
        assert(body@ == before.spaced_for(t));
        if token.low && !in_span {
            span_start = len_in_bytes(body.as_str());
            in_span = true;
        }
        body.append(piece.as_str());
        ends_in_space = chars[chars.len() - 1] == ' ';
        assert(body@.last() == chars@.last());
    }
    assert(all.take(i as int) =~= all);
    if in_span {
        let ghost before = marks::ranges(spans@);
        let end = len_in_bytes(body.as_str());
        spans.push((span_start, end));
        assert(marks::ranges(spans@) =~= before.push((span_start as int, end as int)));
    }
    let ghost a = assembled(all);
    assert(marks::ranges(spans@) == a.closed_spans());
    let trimmed = trim(body.as_str());
    let body_len = len_in_bytes(body.as_str());
    let from_start = trim_start(body.as_str());
    let start_len = len_in_bytes(from_start.as_str());
    let len = len_in_bytes(trimmed.as_str());
    proof {
        lemma_trimmed_start_len(a.text);
    }
    let lead: usize = body_len - start_len;
    let mut out: Vec<(usize, usize)> = Vec::new();
    let mut k: usize = 0;
    while k < spans.len()
        invariant
            k <= spans@.len(),
            out@.len() == k,
            lead == byte_len(a.text) - byte_len(text::trimmed_start(a.text)),
            len == byte_len(text::trimmed(a.text)),
            marks::ranges(spans@) == a.closed_spans(),
            forall|j: int|
                0 <= j < k ==> #[trigger] out@[j] == trimmed_spans(a.text, a.closed_spans())[j],
        decreases spans@.len() - k,
    {
        let (s, e) = spans[k];
        assert(marks::ranges(spans@)[k as int] == (s as int, e as int));
        out.push((moved(s, lead, len), moved(e, lead, len)));
        k += 1;
    }
    assert(out@ =~= trimmed_spans(a.text, a.closed_spans()));
    Transcript { text: trimmed, low_confidence_spans: out }
}

/// The position `at`, counted from `lead` on, and kept within `0..=len`.
fn moved(at: usize, lead: usize, len: usize) -> (r: usize)
    ensures
        r == if at < lead {
            0
        } else if at - lead > len {
            len as int
        } else {
            at - lead
        },
{
    if at < lead {
        0
    } else if at - lead > len {
        len
    } else {
        at - lead
    }
}

/// The encoding of a text in two parts is that of the one, then that of the
/// other.
pub proof fn lemma_encode_add(a: Seq<char>, b: Seq<char>)
    ensures
        encode_utf8(a + b) == encode_utf8(a) + encode_utf8(b),
    decreases a.len(),
{
    if a.len() == 0 {
        assert(a + b =~= b);
        assert(encode_utf8(a) + encode_utf8(b) =~= encode_utf8(b));
    } else {
        assert((a + b).drop_first() =~= a.drop_first() + b);
        lemma_encode_add(a.drop_first(), b);
        assert(encode_utf8(a + b) =~= encode_utf8(a) + encode_utf8(b));
    }
}

proof fn lemma_trimmed_start_len(s: Seq<char>)
    ensures
        byte_len(text::trimmed_start(s)) <= byte_len(s),
{
    text::lemma_trimmed_start_shape(s);
    let t = text::trimmed_start(s);
    let k = s.len() - t.len();
    lemma_encode_add(s.take(k), t);
    assert(s =~= s.take(k) + t);
}

/// Ranges in ascending order, none reaching into the next, within `0..=len`.
pub open spec fn are_in_order(spans: Seq<(int, int)>, len: int) -> bool {
    &&& forall|i: int|
        0 <= i < spans.len() ==> 0 <= (#[trigger] spans[i]).0 <= spans[i].1 <= len
    &&& forall|i: int, j: int|
        0 <= i < j < spans.len() ==> (#[trigger] spans[i]).1 <= (#[trigger] spans[j]).0
}

proof fn lemma_push_in_order(spans: Seq<(int, int)>, at: int, r: (int, int), len: int)
    requires
        are_in_order(spans, at),
        0 <= at <= r.0 <= r.1 <= len,
    ensures
        are_in_order(spans.push(r), len),
{
    let out = spans.push(r);
    assert forall|i: int| 0 <= i < out.len() implies 0 <= (#[trigger] out[i]).0 <= out[i].1
        <= len by {
        if i < spans.len() {
            assert(out[i] == spans[i]);
        }
    }
    assert forall|i: int, j: int| 0 <= i < j < out.len() implies (#[trigger] out[i]).1 <= (
    #[trigger] out[j]).0 by {
        assert(out[i] == spans[i]);
        if j < spans.len() {
            assert(out[j] == spans[j]);
        }
    }
}

/// What holds of a transcript as far as it has been put together.
spec fn is_sound(a: Assembly) -> bool {
    match a.open_run {
        Some(start) => 0 <= start <= byte_len(a.text) && are_in_order(a.spans, start),
        None => are_in_order(a.spans, byte_len(a.text)),
    }
}

proof fn lemma_closed_in_order(a: Assembly)
    requires
        is_sound(a),
    ensures
        are_in_order(a.closed_spans(), byte_len(a.text)),
{
    if let Some(start) = a.open_run {
        lemma_push_in_order(a.spans, start, (start, byte_len(a.text)), byte_len(a.text));
    }
}

proof fn lemma_add_token_sound(a: Assembly, t: TokenView)
    requires
        is_sound(a),
    ensures
        is_sound(a.add_token(t)),
        byte_len(a.text) <= byte_len(a.spaced_for(t)),
        t.is_spoken() ==> byte_len(a.add_token(t).text) == byte_len(a.spaced_for(t)) + byte_len(
            t.piece(),
        ),
{
    let spaced = a.spaced_for(t);
    if spaced != a.text {
        lemma_encode_add(a.text, seq![' ']);
        assert(spaced =~= a.text + seq![' ']);
    }
    lemma_encode_add(spaced, t.piece());
    lemma_closed_in_order(a);
    if t.is_spoken() {
        let now = a.add_token(t);
        let bound = match now.open_run {
            Some(start) => start,
            None => byte_len(now.text),
        };
        assert forall|i: int| 0 <= i < now.spans.len() implies 0 <= (#[trigger] now.spans[i]).0
            <= now.spans[i].1 <= bound by {}
    }
}

proof fn lemma_assembled_sound(tokens: Seq<TokenView>)
    ensures
        is_sound(assembled(tokens)),
    decreases tokens.len(),
{
    if tokens.len() > 0 {
        lemma_assembled_sound(tokens.drop_last());
        lemma_add_token_sound(assembled(tokens.drop_last()), tokens.last());
    }
}

/// Where the text of the token number `i` stands, as a byte range of the text
/// before its ends are trimmed.
pub open spec fn token_range(tokens: Seq<TokenView>, i: int) -> (int, int) {
    let from = byte_len(assembled(tokens.take(i)).spaced_for(tokens[i]));
    (from, from + byte_len(tokens[i].piece()))
}

/// The range `r` lies in one of the spans.
pub open spec fn lies_in_one(spans: Seq<(int, int)>, r: (int, int)) -> bool {
    exists|k: int| 0 <= k < spans.len() && (#[trigger] spans[k]).0 <= r.0 && r.1 <= spans[k].1
}

/// The range `r` has no byte in common with any of the spans.
pub open spec fn lies_apart(spans: Seq<(int, int)>, r: (int, int)) -> bool {
    forall|k: int| 0 <= k < spans.len() ==> (#[trigger] spans[k]).1 <= r.0 || r.1 <= spans[k].0
}

proof fn lemma_push_keeps(spans: Seq<(int, int)>, last: (int, int), r: (int, int))
    ensures
        lies_in_one(spans, r) ==> lies_in_one(spans.push(last), r),
        last.0 <= r.0 && r.1 <= last.1 ==> lies_in_one(spans.push(last), r),
        lies_apart(spans, r) && (last.1 <= r.0 || r.1 <= last.0) ==> lies_apart(
            spans.push(last),
            r,
        ),
{
    let out = spans.push(last);
    if lies_in_one(spans, r) {
        let k = choose|k: int|
            0 <= k < spans.len() && (#[trigger] spans[k]).0 <= r.0 && r.1 <= spans[k].1;
        assert(out[k] == spans[k]);
    }
    assert(out[spans.len() as int] == last);
    if lies_apart(spans, r) && (last.1 <= r.0 || r.1 <= last.0) {
        assert forall|k: int| 0 <= k < out.len() implies (#[trigger] out[k]).1 <= r.0 || r.1
            <= out[k].0 by {
            if k < spans.len() {
                assert(out[k] == spans[k]);
            }
        }
    }
}

proof fn lemma_token_and_spans(tokens: Seq<TokenView>, i: int)
    requires
        0 <= i < tokens.len(),
        tokens[i].is_spoken(),
    ensures
        ({
            let a = assembled(tokens);
            let r = token_range(tokens, i);
            &&& 0 <= r.0 <= r.1 <= byte_len(a.text)
            &&& encode_utf8(a.text).subrange(r.0, r.1) == encode_utf8(tokens[i].piece())
            &&& tokens[i].low ==> lies_in_one(a.spans, r) || (a.open_run matches Some(s) && s
                <= r.0)
            &&& !tokens[i].low ==> lies_apart(a.spans, r) && (a.open_run matches Some(s) ==> r.1
                <= s)
        }),
    decreases tokens.len(),
{
    let n = tokens.len() - 1;
    let front = tokens.drop_last();
    let t = tokens.last();
    let before = assembled(front);
    let now = assembled(tokens);
    let r = token_range(tokens, i);
    lemma_assembled_sound(front);
    lemma_add_token_sound(before, t);
    lemma_closed_in_order(before);
    let spaced = before.spaced_for(t);
    lemma_encode_add(spaced, t.piece());
    if i == n {
        assert(tokens.take(i) =~= front);
        assert(encode_utf8(now.text).subrange(r.0, r.1) =~= encode_utf8(t.piece()));
        if !t.low {
            assert forall|k: int| 0 <= k < now.spans.len() implies (#[trigger] now.spans[k]).1
                <= r.0 || r.1 <= now.spans[k].0 by {}
        }
    } else {
        assert(tokens.take(i) =~= front.take(i));
        assert(front[i] == tokens[i]);
        lemma_token_and_spans(front, i);
        if t.is_spoken() {
            if spaced != before.text {
                lemma_encode_add(before.text, seq![' ']);
                assert(spaced =~= before.text + seq![' ']);
            }
            assert(encode_utf8(now.text).subrange(r.0, r.1) =~= encode_utf8(
                before.text,
            ).subrange(r.0, r.1));
            if let Some(start) = before.open_run {
                lemma_push_keeps(before.spans, (start, byte_len(before.text)), r);
            }
        }
    }
}

proof fn lemma_trimmed_position_monotone(s: Seq<char>, a: int, b: int)
    requires
        a <= b,
    ensures
        0 <= trimmed_position(s, a) <= trimmed_position(s, b) <= byte_len(text::trimmed(s)),
{
}

proof fn lemma_trimmed_len(s: Seq<char>)
    ensures
        byte_len(text::trimmed(s)) <= byte_len(s),
{
    lemma_trimmed_start_len(s);
    let t = text::trimmed_start(s);
    text::lemma_trimmed_end_shape(t);
    let k = text::trimmed_end(t).len() as int;
    lemma_encode_add(t.take(k), t.skip(k));
    assert(t =~= t.take(k) + t.skip(k));
}

/// The spans of a transcript are byte ranges of its text, in ascending order,
/// none reaching into the next.
pub proof fn law_spans_are_ranges_of_the_text(tokens: Seq<TokenView>)
    requires
        byte_len(assembled(tokens).text) <= usize::MAX,
    ensures
        are_in_order(
            marks::ranges(transcript_of(tokens).low_confidence_spans),
            byte_len(transcript_of(tokens).text),
        ),
{
    let a = assembled(tokens);
    let spans = a.closed_spans();
    let out = marks::ranges(transcript_of(tokens).low_confidence_spans);
    lemma_assembled_sound(tokens);
    lemma_closed_in_order(a);
    lemma_trimmed_len(a.text);
    assert forall|i: int| 0 <= i < out.len() implies 0 <= (#[trigger] out[i]).0 <= out[i].1
        <= byte_len(text::trimmed(a.text)) by {
        lemma_trimmed_position_monotone(a.text, spans[i].0, spans[i].1);
    }
    assert forall|i: int, j: int| 0 <= i < j < out.len() implies (#[trigger] out[i]).1 <= (
    #[trigger] out[j]).0 by {
        lemma_trimmed_position_monotone(a.text, spans[i].1, spans[j].0);
        lemma_trimmed_position_monotone(a.text, spans[i].0, spans[i].1);
        lemma_trimmed_position_monotone(a.text, spans[j].0, spans[j].1);
    }
}

/// The spans of a transcript are exactly what the recognizer was unsure about:
/// the text of every token of low confidence lies in a span, and that of every
/// other token has nothing in common with any.
pub proof fn law_spans_are_the_doubted_tokens(tokens: Seq<TokenView>, i: int)
    requires
        byte_len(assembled(tokens).text) <= usize::MAX,
        0 <= i < tokens.len(),
        tokens[i].is_spoken(),
    ensures
        ({
            let body = assembled(tokens).text;
            let spans = marks::ranges(transcript_of(tokens).low_confidence_spans);
            let r = token_range(tokens, i);
            let shown = (trimmed_position(body, r.0), trimmed_position(body, r.1));
            &&& encode_utf8(body).subrange(r.0, r.1) == encode_utf8(tokens[i].piece())
            &&& tokens[i].low ==> lies_in_one(spans, shown)
            &&& !tokens[i].low ==> lies_apart(spans, shown)
        }),
{
    let a = assembled(tokens);
    let r = token_range(tokens, i);
    let spans = a.closed_spans();
    let out = marks::ranges(transcript_of(tokens).low_confidence_spans);
    lemma_token_and_spans(tokens, i);
    lemma_assembled_sound(tokens);
    lemma_closed_in_order(a);
    lemma_trimmed_len(a.text);
    if let Some(start) = a.open_run {
        lemma_push_keeps(a.spans, (start, byte_len(a.text)), r);
    }
    assert forall|k: int| 0 <= k < out.len() implies #[trigger] out[k] == (
        trimmed_position(a.text, spans[k].0),
        trimmed_position(a.text, spans[k].1),
    ) by {
        lemma_trimmed_position_monotone(a.text, spans[k].0, spans[k].1);
    }
    if tokens[i].low {
        let k = choose|k: int|
            0 <= k < spans.len() && (#[trigger] spans[k]).0 <= r.0 && r.1 <= spans[k].1;
        lemma_trimmed_position_monotone(a.text, spans[k].0, r.0);
        lemma_trimmed_position_monotone(a.text, r.1, spans[k].1);
        let shown = (trimmed_position(a.text, r.0), trimmed_position(a.text, r.1));
        assert(out[k].0 <= shown.0 && shown.1 <= out[k].1);
    } else {
        let shown = (trimmed_position(a.text, r.0), trimmed_position(a.text, r.1));
        assert forall|k: int| 0 <= k < out.len() implies (#[trigger] out[k]).1 <= shown.0
            || shown.1 <= out[k].0 by {
            if spans[k].1 <= r.0 {
                lemma_trimmed_position_monotone(a.text, spans[k].1, r.0);
            } else {
                lemma_trimmed_position_monotone(a.text, r.1, spans[k].0);
            }
        }
    }
}

/// What the analyzer is handed is the transcript with every word marked that
/// the recognizer was unsure about; without the marks it is the transcript as
/// it is shown.
pub proof fn law_analyzer_sees_what_is_doubted(tokens: Seq<TokenView>, k: int)
    requires
        0 <= k < transcript_of(tokens).low_confidence_spans.len(),
    ensures
        ({
            let t = transcript_of(tokens);
            let bytes = encode_utf8(t.text);
            let regions = marks::regions_of(bytes, t.low_confidence_spans);
            &&& t.analysis_text() == marks::wrapped(bytes, regions, 0)
            &&& marks::snapped(bytes, t.low_confidence_spans[k]) matches Some(words)
                ==> marks::covered(regions, words)
            &&& marks::unmarked(t.analysis_text()) == marks::unmarked(t.text)
        }),
{
    let t = transcript_of(tokens);
    marks::law_every_doubted_word_is_marked(encode_utf8(t.text), t.low_confidence_spans, k);
    marks::law_marks_can_be_removed(t.text, t.low_confidence_spans);
}

/// The first `n` characters of a token's text are all the white space that is in
/// front of it.
pub open spec fn is_lead(raw: Seq<char>, n: int) -> bool {
    &&& 0 <= n <= raw.len()
    &&& forall|i: int| 0 <= i < n ==> text::white_space(#[trigger] raw[i])
    &&& n < raw.len() ==> !text::white_space(raw[n])
}

/// `part` is what a token adds to a transcript that reads `before`: all of its
/// text, with one space in front exactly where the token had white space there
/// and the transcript does not end with a space already. Nothing is added only
/// by a token that is blank, begins with `[`, or has a `<` before a `|` in it.
pub open spec fn is_part_of(raw: Seq<char>, before: Seq<char>, part: Seq<char>) -> bool {
    forall|n: int| #[trigger]
        is_lead(raw, n) ==> {
            let word = raw.skip(n);
            if word.len() == 0 || word[0] == '[' || (exists|k: int|
                0 <= k < word.len() - 1 && #[trigger] word[k] == '<' && word[k + 1] == '|') {
                part.len() == 0
            } else if n > 0 && !(before.len() > 0 && before.last() == ' ') {
                part == seq![' '] + word
            } else {
                part == word
            }
        }
}

/// Each of `parts` is what the token of the same number adds.
spec fn are_parts(tokens: Seq<TokenView>, parts: Seq<Seq<char>>) -> bool {
    &&& parts.len() == tokens.len()
    &&& forall|i: int|
        0 <= i < tokens.len() ==> is_part_of(
            tokens[i].raw,
            parts.take(i).flatten(),
            #[trigger] parts[i],
        )
}

/// Where the part number `i` begins in the text, behind the space in front of
/// it, in bytes.
pub open spec fn starts_at(parts: Seq<Seq<char>>, i: int) -> int {
    encode_utf8(parts.take(i).flatten()).len() + if parts[i].first() == ' ' {
        1int
    } else {
        0int
    }
}

/// Where the part number `i` ends in the text, in bytes.
pub open spec fn ends_at(parts: Seq<Seq<char>>, i: int) -> int {
    encode_utf8(parts.take(i + 1).flatten()).len() as int
}

/// `runs` are the longest runs of parts that were doubted, each from its first
/// part to its last: what adds nothing does not interrupt a run, and a part that
/// was not doubted stands between any two of them.
pub open spec fn are_runs(
    parts: Seq<Seq<char>>,
    low: Seq<bool>,
    runs: Seq<(int, int)>,
) -> bool {
    &&& forall|k: int|
        0 <= k < runs.len() ==> {
            let r = #[trigger] runs[k];
            &&& 0 <= r.0 <= r.1 < parts.len()
            &&& parts[r.0].len() > 0 && parts[r.1].len() > 0
        }
    &&& forall|k: int, i: int|
        0 <= k < runs.len() && (#[trigger] runs[k]).0 <= i <= runs[k].1 && (
        #[trigger] parts[i]).len() > 0 ==> low[i]
    &&& forall|k: int, l: int|
        0 <= k < l < runs.len() ==> has_sure(
            parts,
            low,
            (#[trigger] runs[k]).1,
            (#[trigger] runs[l]).0,
        )
    &&& forall|i: int|
        0 <= i < parts.len() && (#[trigger] parts[i]).len() > 0 && low[i] ==> lies_in_a_run(runs, i)
}

/// The part number `i` lies in one of the runs.
#[verifier::opaque]
pub open spec fn lies_in_a_run(runs: Seq<(int, int)>, i: int) -> bool {
    exists|k: int| 0 <= k < runs.len() && (#[trigger] runs[k]).0 <= i <= runs[k].1
}

/// Between the parts number `i` and `j` there is one that was not doubted.
#[verifier::opaque]
pub open spec fn has_sure(parts: Seq<Seq<char>>, low: Seq<bool>, i: int, j: int) -> bool {
    exists|m: int| i < m < j && (#[trigger] parts[m]).len() > 0 && !low[m]
}

/// The byte ranges of these runs.
spec fn run_ranges(parts: Seq<Seq<char>>, runs: Seq<(int, int)>) -> Seq<(int, int)> {
    runs.map_values(|r: (int, int)| (starts_at(parts, r.0), ends_at(parts, r.1)))
}

/// Whether each token was doubted.
spec fn doubts(tokens: Seq<TokenView>) -> Seq<bool> {
    tokens.map_values(|t: TokenView| t.low)
}

/// What holds of a transcript as far as it has been put together, of the parts
/// that it was put together from, and of the runs among them.
spec fn tells(
    tokens: Seq<TokenView>,
    parts: Seq<Seq<char>>,
    runs: Seq<(int, int)>,
    a: Assembly,
) -> bool {
    &&& are_parts(tokens, parts)
    &&& are_runs(parts, doubts(tokens), runs)
    &&& a.text == parts.flatten()
    &&& match a.open_run {
        Some(start) => {
            &&& runs.len() > 0
            &&& start == starts_at(parts, runs.last().0)
            &&& a.spans == run_ranges(parts, runs.drop_last())
            &&& forall|i: int| runs.last().1 < i < parts.len() ==> (#[trigger] parts[i]).len() == 0
        },
        None => {
            &&& a.spans == run_ranges(parts, runs)
            &&& runs.len() > 0 ==> has_sure(
                parts,
                doubts(tokens),
                runs.last().1,
                parts.len() as int,
            )
        },
    }
}

proof fn lemma_flatten_push(parts: Seq<Seq<char>>, part: Seq<char>)
    ensures
        parts.push(part).flatten() == parts.flatten() + part,
{
    let all = parts.push(part);
    all.lemma_flatten_and_flatten_alt_are_equivalent();
    parts.lemma_flatten_and_flatten_alt_are_equivalent();
    assert(all.drop_last() =~= parts);
}

/// Parts that are empty add nothing.
proof fn lemma_flatten_empty_tail(parts: Seq<Seq<char>>, n: int)
    requires
        0 <= n <= parts.len(),
        forall|i: int| n <= i < parts.len() ==> (#[trigger] parts[i]).len() == 0,
    ensures
        parts.take(n).flatten() == parts.flatten(),
    decreases parts.len() - n,
{
    if n == parts.len() {
        assert(parts.take(n) =~= parts);
    } else {
        assert(parts[n].len() == 0);
        lemma_flatten_empty_tail(parts, n + 1);
        assert(parts.take(n + 1) =~= parts.take(n).push(parts[n]));
        lemma_flatten_push(parts.take(n), parts[n]);
        assert(parts.take(n).flatten() + parts[n] =~= parts.take(n).flatten());
    }
}

/// A token is heard unless it is blank, begins with `[`, or has a `<` before a
/// `|` in it, and its piece is what is behind its white space.
proof fn lemma_token_by_its_lead(t: TokenView, n: int)
    requires
        is_lead(t.raw, n),
    ensures
        t.piece() == t.raw.skip(n),
        t.is_spaced() <==> n > 0,
        t.is_spoken() <==> !(t.raw.skip(n).len() == 0 || t.raw.skip(n)[0] == '[' || (exists|k: int|
            0 <= k < t.raw.skip(n).len() - 1 && #[trigger] t.raw.skip(n)[k] == '<' && t.raw.skip(
                n,
            )[k + 1] == '|')),
{
    let word = t.raw.skip(n);
    let lead = t.raw.take(n);
    assert(t.raw =~= lead + word);
    text::law_trimming_the_start(lead, word);
    reveal_strlit("<|");
    if text::occurs_in("<|"@, word) {
        let k = choose|k: int| text::stands_at("<|"@, word, k);
        assert(word.subrange(k, k + 2)[0] == '<' && word.subrange(k, k + 2)[1] == '|');
        assert(word[k] == '<' && word[k + 1] == '|');
    }
    if exists|k: int| 0 <= k < word.len() - 1 && #[trigger] word[k] == '<' && word[k + 1] == '|' {
        let k = choose|k: int|
            0 <= k < word.len() - 1 && #[trigger] word[k] == '<' && word[k + 1] == '|';
        assert(word.subrange(k, k + 2) =~= "<|"@);
        assert(text::stands_at("<|"@, word, k));
    }
}

/// The part that a token adds to a transcript.
spec fn part_for(a: Assembly, t: TokenView) -> Seq<char> {
    if !t.is_spoken() {
        Seq::empty()
    } else if a.spaced_for(t) != a.text {
        seq![' '] + t.piece()
    } else {
        t.piece()
    }
}

proof fn lemma_part_for(a: Assembly, t: TokenView)
    ensures
        is_part_of(t.raw, a.text, part_for(a, t)),
        a.add_token(t).text == a.text + part_for(a, t),
        t.is_spoken() <==> part_for(a, t).len() > 0,
        t.is_spoken() ==> byte_len(a.spaced_for(t)) == byte_len(a.text) + if part_for(a, t).first()
            == ' ' {
            1int
        } else {
            0int
        },
{
    let part = part_for(a, t);
    let spaced = a.spaced_for(t);
    text::lemma_trimmed_start_shape(t.raw);
    assert(a.text.push(' ') != a.text) by {
        assert(a.text.push(' ').len() == a.text.len() + 1);
    }
    assert forall|n: int| #[trigger] is_lead(t.raw, n) implies ({
        let word = t.raw.skip(n);
        if word.len() == 0 || word[0] == '[' || (exists|k: int|
            0 <= k < word.len() - 1 && #[trigger] word[k] == '<' && word[k + 1] == '|') {
            part.len() == 0
        } else if n > 0 && !(a.text.len() > 0 && a.text.last() == ' ') {
            part == seq![' '] + word
        } else {
            part == word
        }
    }) by {
        lemma_token_by_its_lead(t, n);
    }
    if t.is_spoken() {
        assert(!text::white_space(t.piece().first()));
        if spaced != a.text {
            assert(spaced + t.piece() =~= a.text + part);
            assert(part.first() == ' ');
            lemma_encode_add(a.text, seq![' ']);
            assert(spaced =~= a.text + seq![' ']);
            assert(byte_len(seq![' ']) == 1) by {
                reveal_with_fuel(encode_utf8, 2);
            }
        }
    } else {
        assert(a.text + part =~= a.text);
    }
}

/// Old parts are where they were when one more comes behind them.
proof fn lemma_ranges_stay(parts: Seq<Seq<char>>, part: Seq<char>, runs: Seq<(int, int)>)
    requires
        forall|k: int|
            0 <= k < runs.len() ==> 0 <= (#[trigger] runs[k]).0 <= runs[k].1 < parts.len(),
    ensures
        run_ranges(parts.push(part), runs) == run_ranges(parts, runs),
{
    let all = parts.push(part);
    assert forall|k: int| 0 <= k < runs.len() implies run_ranges(all, runs)[k] == (
    #[trigger] run_ranges(parts, runs)[k]) by {
        let r = runs[k];
        assert(all.take(r.0) =~= parts.take(r.0));
        assert(all.take(r.1 + 1) =~= parts.take(r.1 + 1));
        assert(all[r.0] == parts[r.0]);
    }
    assert(run_ranges(all, runs) =~= run_ranges(parts, runs));
}

proof fn lemma_sure_stays(
    parts: Seq<Seq<char>>,
    low: Seq<bool>,
    part: Seq<char>,
    l: bool,
    i: int,
    j: int,
)
    requires
        low.len() == parts.len(),
        has_sure(parts, low, i, j),
        0 <= i,
        j <= parts.len(),
    ensures
        has_sure(parts.push(part), low.push(l), i, j),
{
    reveal(has_sure);
    let m = choose|m: int| i < m < j && (#[trigger] parts[m]).len() > 0 && !low[m];
    assert(parts.push(part)[m] == parts[m] && low.push(l)[m] == low[m]);
}

proof fn lemma_sure_between(parts: Seq<Seq<char>>, low: Seq<bool>, i: int, j: int)
    requires
        has_sure(parts, low, i, j),
    ensures
        i < j,
{
    reveal(has_sure);
}

proof fn lemma_sure_reaches(parts: Seq<Seq<char>>, low: Seq<bool>, i: int, j: int, n: int)
    requires
        i <= j,
        has_sure(parts, low, j, n),
    ensures
        has_sure(parts, low, i, n),
{
    reveal(has_sure);
    let m = choose|m: int| j < m < n && (#[trigger] parts[m]).len() > 0 && !low[m];
    assert(i < m < n && parts[m].len() > 0 && !low[m]);
}

/// The runs after one more part: one that was doubted goes on with the run that
/// is open, or begins one.
spec fn runs_after(
    runs: Seq<(int, int)>,
    open: bool,
    doubted: bool,
    n: int,
) -> Seq<(int, int)> {
    if !doubted {
        runs
    } else if open {
        runs.drop_last().push((runs.last().0, n))
    } else {
        runs.push((n, n))
    }
}

proof fn lemma_runs_grow(runs: Seq<(int, int)>, next: Seq<(int, int)>, i: int)
    requires
        lies_in_a_run(runs, i),
        runs.len() <= next.len(),
        forall|k: int|
            0 <= k < runs.len() ==> (#[trigger] next[k]).0 == runs[k].0 && runs[k].1 <= next[k].1,
    ensures
        lies_in_a_run(next, i),
{
    reveal(lies_in_a_run);
    let k = choose|k: int| 0 <= k < runs.len() && (#[trigger] runs[k]).0 <= i <= runs[k].1;
    assert(next[k].0 <= i <= next[k].1);
}

proof fn lemma_lies_in_the_run(runs: Seq<(int, int)>, k: int, i: int)
    requires
        0 <= k < runs.len(),
        runs[k].0 <= i <= runs[k].1,
    ensures
        lies_in_a_run(runs, i),
{
    reveal(lies_in_a_run);
}

proof fn lemma_runs_step(
    parts: Seq<Seq<char>>,
    low: Seq<bool>,
    runs: Seq<(int, int)>,
    open: bool,
    part: Seq<char>,
    l: bool,
)
    requires
        low.len() == parts.len(),
        are_runs(parts, low, runs),
        open ==> runs.len() > 0,
        open ==> forall|i: int|
            runs.last().1 < i < parts.len() ==> (#[trigger] parts[i]).len() == 0,
        !open && runs.len() > 0 ==> has_sure(parts, low, runs.last().1, parts.len() as int),
    ensures
        are_runs(
            parts.push(part),
            low.push(l),
            runs_after(runs, open, part.len() > 0 && l, parts.len() as int),
        ),
{
    let all = parts.push(part);
    let lows = low.push(l);
    let n = parts.len() as int;
    let next = runs_after(runs, open, part.len() > 0 && l, n);
    assert forall|k: int| 0 <= k < next.len() implies {
        let r = #[trigger] next[k];
        &&& 0 <= r.0 <= r.1 < all.len()
        &&& all[r.0].len() > 0 && all[r.1].len() > 0
    } by {
        if k < runs.len() {
            let r = runs[k];
            assert(all[r.0] == parts[r.0] && all[r.1] == parts[r.1]);
        }
    }
    assert forall|k: int, i: int|
        0 <= k < next.len() && (#[trigger] next[k]).0 <= i <= next[k].1 && (
        #[trigger] all[i]).len() > 0 implies lows[i] by {
        if i < n {
            assert(all[i] == parts[i]);
            if k < runs.len() {
                let r = runs[k];
                if i <= r.1 {
                    assert(r.0 <= i);
                    assert(low[i]);
                }
            }
        }
    }
    assert forall|k: int, m: int| 0 <= k < m < next.len() implies has_sure(
        all,
        lows,
        (#[trigger] next[k]).1,
        (#[trigger] next[m]).0,
    ) by {
        assert(next[k] == runs[k]);
        let r = runs[k];
        if m < runs.len() {
            let q = runs[m];
            assert(next[m].0 == q.0);
            lemma_sure_stays(parts, low, part, l, r.1, q.0);
        } else {
            let z = runs[runs.len() - 1];
            if k < runs.len() - 1 {
                lemma_sure_between(parts, low, r.1, z.0);
            }
            lemma_sure_reaches(parts, low, r.1, z.1, n);
            lemma_sure_stays(parts, low, part, l, r.1, n);
        }
    }
    assert forall|i: int|
        0 <= i < all.len() && (#[trigger] all[i]).len() > 0 && lows[i] implies lies_in_a_run(
        next,
        i,
    ) by {
        if i < n {
            assert(parts[i].len() > 0 && low[i]);
            lemma_runs_grow(runs, next, i);
        } else {
            lemma_lies_in_the_run(next, next.len() - 1, i);
        }
    }
}

proof fn lemma_parts_step(
    tokens: Seq<TokenView>,
    parts: Seq<Seq<char>>,
    t: TokenView,
    part: Seq<char>,
)
    requires
        are_parts(tokens, parts),
        is_part_of(t.raw, parts.flatten(), part),
    ensures
        are_parts(tokens.push(t), parts.push(part)),
{
    let all = parts.push(part);
    let n = parts.len() as int;
    assert forall|i: int| 0 <= i < all.len() implies is_part_of(
        tokens.push(t)[i].raw,
        all.take(i).flatten(),
        #[trigger] all[i],
    ) by {
        if i < n {
            assert(all[i] == parts[i]);
            assert(all.take(i) =~= parts.take(i));
        } else {
            assert(all.take(n) =~= parts);
        }
    }
}

/// The byte ranges of the runs after one more part.
proof fn lemma_ranges_step(
    tokens: Seq<TokenView>,
    parts: Seq<Seq<char>>,
    runs: Seq<(int, int)>,
    a: Assembly,
    t: TokenView,
)
    requires
        tells(tokens, parts, runs, a),
    ensures
        ({
            let all = parts.push(part_for(a, t));
            let now = a.add_token(t);
            let next = runs_after(
                runs,
                a.open_run is Some,
                t.is_spoken() && t.low,
                parts.len() as int,
            );
            &&& now.text == all.flatten()
            &&& now.open_run matches Some(start) ==> next.len() > 0 && start == starts_at(
                all,
                next.last().0,
            ) && now.spans == run_ranges(all, next.drop_last())
            &&& now.open_run is None ==> now.spans == run_ranges(all, next)
        }),
{
    let part = part_for(a, t);
    let all = parts.push(part);
    let n = parts.len() as int;
    lemma_part_for(a, t);
    lemma_flatten_push(parts, part);
    assert(all.take(n) =~= parts);
    lemma_ranges_stay(parts, part, runs);
    if runs.len() > 0 {
        assert(runs[runs.len() - 1] == runs.last());
        let front = runs.drop_last();
        assert forall|k: int| 0 <= k < front.len() implies 0 <= (#[trigger] front[k]).0
            <= front[k].1 < parts.len() by {
            assert(front[k] == runs[k]);
        }
        lemma_ranges_stay(parts, part, front);
        let first = runs.last().0;
        assert(all.take(first) =~= parts.take(first));
        assert(all[first] == parts[first]);
    }
    lemma_closed_are_ranges(tokens, parts, runs, a);
    let next = runs_after(runs, a.open_run is Some, t.is_spoken() && t.low, n);
    if t.is_spoken() && t.low {
        if a.open_run is Some {
            assert(next.drop_last() =~= runs.drop_last());
        } else {
            assert(next.drop_last() =~= runs);
        }
    }
}

/// The finished runs are those of the parts, the last one ending with the text.
proof fn lemma_closed_are_ranges(
    tokens: Seq<TokenView>,
    parts: Seq<Seq<char>>,
    runs: Seq<(int, int)>,
    a: Assembly,
)
    requires
        tells(tokens, parts, runs, a),
    ensures
        a.closed_spans() == run_ranges(parts, runs),
{
    if a.open_run is Some {
        assert(runs[runs.len() - 1] == runs.last());
        lemma_flatten_empty_tail(parts, runs.last().1 + 1);
        assert(run_ranges(parts, runs.drop_last()).push(
            (starts_at(parts, runs.last().0), ends_at(parts, runs.last().1)),
        ) =~= run_ranges(parts, runs));
    }
}

proof fn lemma_tells_step(
    tokens: Seq<TokenView>,
    parts: Seq<Seq<char>>,
    runs: Seq<(int, int)>,
    a: Assembly,
    t: TokenView,
) -> (next: Seq<(int, int)>)
    requires
        tells(tokens, parts, runs, a),
    ensures
        tells(tokens.push(t), parts.push(part_for(a, t)), next, a.add_token(t)),
{
    let part = part_for(a, t);
    let all = parts.push(part);
    let n = parts.len() as int;
    let low = doubts(tokens);
    let lows = doubts(tokens.push(t));
    let open = a.open_run is Some;
    assert(lows =~= low.push(t.low));
    lemma_part_for(a, t);
    lemma_parts_step(tokens, parts, t, part);
    lemma_runs_step(parts, low, runs, open, part, t.low);
    lemma_ranges_step(tokens, parts, runs, a, t);
    let next = runs_after(runs, open, t.is_spoken() && t.low, n);
    let now = a.add_token(t);
    if now.open_run is Some {
        assert forall|i: int| next.last().1 < i < all.len() implies (
        #[trigger] all[i]).len() == 0 by {
            if i < n {
                assert(all[i] == parts[i]);
            }
        }
    } else if next.len() > 0 {
        assert(runs[runs.len() - 1] == runs.last());
        if !t.is_spoken() {
            lemma_sure_stays(parts, low, part, t.low, runs.last().1, n);
        }
        assert(has_sure(all, lows, next.last().1, n + 1)) by {
            reveal(has_sure);
            if t.is_spoken() {
                assert(all[n].len() > 0 && !lows[n]);
            } else {
                let m = choose|m: int|
                    runs.last().1 < m < n && (#[trigger] all[m]).len() > 0 && !lows[m];
                assert(all[m].len() > 0 && !lows[m]);
            }
        }
    }
    next
}

proof fn lemma_assembled_tells(tokens: Seq<TokenView>) -> (r: (Seq<Seq<char>>, Seq<(int, int)>))
    ensures
        tells(tokens, r.0, r.1, assembled(tokens)),
    decreases tokens.len(),
{
    if tokens.len() == 0 {
        let parts = Seq::<Seq<char>>::empty();
        let runs = Seq::<(int, int)>::empty();
        assert(assembled(tokens).spans =~= run_ranges(parts, runs));
        assert(assembled(tokens).text =~= parts.flatten());
        (parts, runs)
    } else {
        let front = tokens.drop_last();
        let a = assembled(front);
        let (parts, runs) = lemma_assembled_tells(front);
        let next = lemma_tells_step(front, parts, runs, a, tokens.last());
        assert(front.push(tokens.last()) =~= tokens);
        (parts.push(part_for(a, tokens.last())), next)
    }
}

/// No word is lost, and nothing is made up: the transcript is what the tokens
/// add, in their order, without the white space around it. Every token whose
/// text is not blank, does not begin with `[` and holds no `<|` adds all of its
/// text, whatever else it is, with a single space in front where it had white
/// space.
pub proof fn law_no_word_is_lost(tokens: &[Token], out: Transcript) -> (parts: Seq<Seq<char>>)
    requires
        call_ensures(assemble_transcript, (tokens,), out),
    ensures
        parts.len() == tokens@.len(),
        forall|i: int|
            0 <= i < tokens@.len() ==> is_part_of(
                tokens@[i].raw@,
                parts.take(i).flatten(),
                #[trigger] parts[i],
            ),
        out.text@ == text::trimmed(parts.flatten()),
{
    let all = token_views(tokens@);
    let (parts, runs) = lemma_assembled_tells(all);
    assert forall|i: int| 0 <= i < tokens@.len() implies is_part_of(
        tokens@[i].raw@,
        parts.take(i).flatten(),
        #[trigger] parts[i],
    ) by {
        assert(all[i].raw == tokens@[i].raw@);
    }
    parts
}

/// The spans are the longest runs of what was doubted, in order: each from where
/// the text of the run's first token begins to where that of its last ends, in
/// bytes of the transcript as it is shown.
pub proof fn law_spans_are_the_doubted_runs(tokens: &[Token], out: Transcript) -> (r: (
    Seq<Seq<char>>,
    Seq<(int, int)>,
))
    requires
        call_ensures(assemble_transcript, (tokens,), out),
    ensures
        r.0.len() == tokens@.len(),
        forall|i: int|
            0 <= i < tokens@.len() ==> is_part_of(
                tokens@[i].raw@,
                r.0.take(i).flatten(),
                #[trigger] r.0[i],
            ),
        are_runs(r.0, tokens@.map_values(|t: Token| t.low), r.1),
        out.low_confidence_spans@.len() == r.1.len(),
        ({
            let body = r.0.flatten();
            let lead = encode_utf8(body).len() - encode_utf8(text::trimmed_start(body)).len();
            let len = encode_utf8(out.text@).len() as int;
            let shown = |at: int|
                if at <= lead {
                    0
                } else if at >= lead + len {
                    len
                } else {
                    at - lead
                };
            encode_utf8(body).len() <= usize::MAX ==> forall|k: int|
                0 <= k < r.1.len() ==> {
                    &&& (#[trigger] out.low_confidence_spans@[k]).0 == shown(
                        starts_at(r.0, r.1[k].0),
                    )
                    &&& out.low_confidence_spans@[k].1 == shown(ends_at(r.0, r.1[k].1))
                }
        }),
{
    let all = token_views(tokens@);
    let a = assembled(all);
    let (parts, runs) = lemma_assembled_tells(all);
    assert(doubts(all) =~= tokens@.map_values(|t: Token| t.low));
    assert forall|i: int| 0 <= i < tokens@.len() implies is_part_of(
        tokens@[i].raw@,
        parts.take(i).flatten(),
        #[trigger] parts[i],
    ) by {
        assert(all[i].raw == tokens@[i].raw@);
    }
    lemma_closed_are_ranges(all, parts, runs, a);
    let spans = a.closed_spans();
    lemma_trimmed_start_len(a.text);
    lemma_trimmed_len(a.text);
    if encode_utf8(parts.flatten()).len() <= usize::MAX {
        assert forall|k: int| 0 <= k < runs.len() implies (
        #[trigger] out.low_confidence_spans@[k]).0 == trimmed_position(
            a.text,
            starts_at(parts, runs[k].0),
        ) && out.low_confidence_spans@[k].1 == trimmed_position(
            a.text,
            ends_at(parts, runs[k].1),
        ) by {
            assert(spans[k] == (starts_at(parts, runs[k].0), ends_at(parts, runs[k].1)));
            lemma_trimmed_position_monotone(a.text, spans[k].0, spans[k].0);
            lemma_trimmed_position_monotone(a.text, spans[k].1, spans[k].1);
        }
    }
    (parts, runs)
}

/// What was recognized is reported as the transcript of all its tokens, and a
/// failure as the error of its kind with the recognizer's message as it is.
pub proof fn law_recognition_is_reported(
    recognized: Result<Vec<Token>, RecognizerFailure>,
    tokens: &[Token],
    assembled: Transcript,
    r: TranscriptionResult,
)
    requires
        call_ensures(transcribed, (recognized,), r),
        call_ensures(assemble_transcript, (tokens,), assembled),
    ensures
        match recognized {
            Ok(list) => list@ == tokens@ ==> (r matches Ok(t) && t.text@ == assembled.text@
                && t.low_confidence_spans@ == assembled.low_confidence_spans@),
            Err(RecognizerFailure::PathNotText) => r matches Err(AppError::Config(d)) && d@
                == "whisper model path not UTF-8"@,
            Err(RecognizerFailure::Load { path, message }) => r matches Err(AppError::Config(d))
                && d@ == "failed to load whisper model '"@ + path@ + "': "@ + message@,
            Err(RecognizerFailure::State(message)) => r matches Err(AppError::Transcription(d))
                && d@ == "create state: "@ + message@,
            Err(RecognizerFailure::Inference(message)) => r matches Err(
                AppError::Transcription(d),
            ) && d@ == "inference failed: "@ + message@,
        },
{
}

/// The recognizer uses what the machine offers, up to eight threads.
pub proof fn law_threads_are_bounded(available: Option<usize>, n: usize)
    requires
        call_ensures(thread_count, (available,), n),
    ensures
        n <= 8,
        available matches Some(a) ==> n <= a && (n == a || n == 8),
        available is None ==> n == 4,
{
}

} // verus!
