//! Local LLM analysis via Ollama: what is sent to the model, when a request is
//! tried again, and how the model's answer becomes an `Analysis`.
//!
//! The model is prompted to return one JSON object. Its answer is parsed and
//! validated, never passed straight through to the user interface.

use crate::config::{Config, Single};
use crate::error::{AppError, AppErrorView, ErrorKind};
use crate::marks;
use crate::marks::strip_markers;
use crate::providers;
use crate::providers::{Analysis, AnalysisResult, AnalysisView, ErrorItem, ErrorItemView};
use crate::text;
use crate::text::{
    begins_with, chars_of, contains_text, finishes_with, same_ignoring_case, same_text, string_of,
    to_lower, trim,
};
use vstd::prelude::*;
use vstd::string::*;

verus! {

/// The instructions that every request begins with.
pub const SYSTEM_PROMPT: &'static str = r#"You are an exacting but fair English teacher for a non-native speaker practicing spoken English. The input is an automatic transcription of their speech and may contain mis-transcribed technical words.

Your job: report ONLY genuine grammatical and vocabulary errors — the kind a proficient native speaker would actually correct out loud. You are scored on precision: a transcription that is grammatically fine should produce an empty "errors" array, and every non-error you report counts against you. So:
- Never flag style, formality, punctuation, sentence flow, or "more formal" phrasing (e.g. "a lot", "every day", "with X", "instead of", "consisted", "daily" are all fine).
- Never flag product names or technical terms as vocabulary errors. If a term in the transcript looks misspelled or invented, flag it at most once with criticality 1-2 as category "other" and note it may be a transcription artifact.
- Never invent errors or quote words that do not appear in the transcript.

Low-confidence spans: some words are wrapped in guillemets, e.g. «NestJS» or «Louisa Labs». Those come from the transcriber, not the speaker: it was unsure what was actually said (typically product names, people names, or specialized jargon). Treat them as PROBABLE transcription artifacts:
- Never build a grammar error, a full-sentence correction, or a rewrite around a marked span.
- If a marked span forms no coherent, plausible phrase, omit it entirely or, at most, report it once as category "other" with criticality 1-2.
- An unmarked word next to a marked span that is genuinely wrong in itself can still be reported normally.

Real errors to catch — criticality 4-5 when they blur meaning:
- wrong verb tense/form or subject-verb agreement
- missing or wrong articles or prepositions
- missing, duplicated, or misordered words
- a word used with the wrong meaning
- phrasing so awkward it would genuinely trip a native listener

For each error include:
   - "text": the exact incorrect wording as it appears in the transcript
   - "suggestion": a complete, correct, grammatical replacement
   - "category": one of "grammar", "vocabulary", "pronunciation", "awkward", "other"
   - "criticality": 1-5 (1-2 for minor nits, 4-5 for meaning-breaking errors)
   - "context": the sentence the error appears in (quote it roughly as spoken)
   - "explanation": a short plain-English reason, written to help them learn. It must describe the defect that genuinely exists in the original "text" AND be fixed by applying "suggestion". Before returning each item, re-check the explanation against the correction: if the explanation claims a change the correction does not actually make (e.g. the suggestion stays in the same tense or the same word order), adjust it until they agree.

Then estimate a rough CEFR level (A1, A2, B1, B2, C1, or C2) and justify it in one sentence ("cefr_justification").

Respond with ONLY a single JSON object, no prose, no markdown code fences. Schema:
{
  "cefr_level": "B1",
  "cefr_justification": "...",
  "errors": [
    { "text": "...", "suggestion": "...", "category": "grammar", "criticality": 5, "context": "...", "explanation": "..." }
  ]
}"#;

/// How often a request is sent at most.
pub const MAX_ATTEMPTS: u32 = 3;

/// How long to wait before a request is sent again, in milliseconds.
pub const WARMUP_MS: u64 = 1500;

/// How long a request may take in all, in seconds: a full analysis routinely
/// takes more than a minute.
pub const REQUEST_TIMEOUT_SECS: u64 = 300;

/// The model, its server, and its sampling temperature.
pub struct OllamaProvider {
    pub base_url: String,
    pub model: String,
    pub temperature: Single,
}

/// One message of a chat.
pub struct ChatMessage {
    pub role: String,
    pub content: String,
}

/// A request that is answered in one piece.
pub struct ChatRequest {
    pub model: String,
    pub temperature: Single,
    pub stream: bool,
    pub messages: Vec<ChatMessage>,
    /// The `type` of the response format.
    pub response_format: String,
}

/// A request whose answer is streamed.
pub struct StreamRequest {
    pub model: String,
    pub stream: bool,
    pub format: String,
    pub temperature: Single,
    pub messages: Vec<ChatMessage>,
}

/// `url` without the slashes at its end.
pub open spec fn without_trailing_slashes(url: Seq<char>) -> Seq<char>
    decreases url.len(),
{
    if url.len() > 0 && url.last() == '/' {
        without_trailing_slashes(url.drop_last())
    } else {
        url
    }
}

fn trim_slashes(url: &str) -> (out: String)
    ensures
        out@ == without_trailing_slashes(url@),
{
    let chars = chars_of(url);
    let mut to: usize = chars.len();
    assert(chars@.take(to as int) =~= url@);
    while to > 0 && chars[to - 1] == '/'
        invariant
            to <= chars@.len(),
            without_trailing_slashes(url@) == without_trailing_slashes(chars@.take(to as int)),
        decreases to,
    {
        assert(chars@.take(to as int).drop_last() =~= chars@.take(to - 1));
        to -= 1;
    }
    assert(chars@.take(to as int) =~= chars@.subrange(0, to as int));
    assert(to > 0 ==> chars@.take(to as int).last() == chars@[to - 1]);
    string_of(chars.as_slice(), 0, to)
}

/// The request's own text: the transcript between two lines of quotes, and what
/// to do with it.
pub open spec fn user_prompt_of(transcript: Seq<char>) -> Seq<char> {
    "Here is the transcript of what I spoke to practice English:\n\n\"\"\"\n"@ + transcript
        + "\n\"\"\"\n\nAnalyze it as instructed and return the JSON object."@
}

/// The two messages of every request: the instructions, then the transcript.
pub open spec fn are_messages_for(messages: Seq<ChatMessage>, transcript: Seq<char>) -> bool {
    &&& messages.len() == 2
    &&& messages[0].role@ == "system"@
    &&& messages[0].content@ == SYSTEM_PROMPT@
    &&& messages[1].role@ == "user"@
    &&& messages[1].content@ == user_prompt_of(transcript)
}

impl OllamaProvider {
    pub fn new(cfg: &Config) -> (r: Self)
        ensures
            r.base_url@ == without_trailing_slashes(cfg.ollama_url@),
            r.model@ == cfg.llm_model@,
            r.temperature == cfg.llm_temperature,
    {
        OllamaProvider {
            base_url: trim_slashes(cfg.ollama_url.as_str()),
            model: cfg.llm_model.clone(),
            temperature: cfg.llm_temperature,
        }
    }

    /// Where requests that are answered in one piece go.
    pub fn chat_url(&self) -> (out: String)
        ensures
            out@ == self.base_url@ + "/v1/chat/completions"@,
    {
        self.base_url.clone().concat("/v1/chat/completions")
    }

    /// Where requests whose answer is streamed go.
    pub fn stream_url(&self) -> (out: String)
        ensures
            out@ == self.base_url@ + "/api/chat"@,
    {
        self.base_url.clone().concat("/api/chat")
    }

    /// The request's own text.
    pub fn user_prompt(transcript: &str) -> (out: String)
        ensures
            out@ == user_prompt_of(transcript@),
    {
        "Here is the transcript of what I spoke to practice English:\n\n\"\"\"\n".to_owned().concat(
            transcript,
        ).concat("\n\"\"\"\n\nAnalyze it as instructed and return the JSON object.")
    }

    fn messages(transcript: &str) -> (out: Vec<ChatMessage>)
        ensures
            are_messages_for(out@, transcript@),
    {
        let mut out: Vec<ChatMessage> = Vec::new();
        out.push(ChatMessage { role: "system".to_owned(), content: SYSTEM_PROMPT.to_owned() });
        out.push(
            ChatMessage { role: "user".to_owned(), content: Self::user_prompt(transcript) },
        );
        out
    }

    /// The request for an answer in one piece.
    pub fn build_request(&self, transcript: &str) -> (r: ChatRequest)
        ensures
            r.model@ == self.model@,
            r.temperature == self.temperature,
            !r.stream,
            are_messages_for(r.messages@, transcript@),
            r.response_format@ == "json_object"@,
    {
        ChatRequest {
            model: self.model.clone(),
            temperature: self.temperature,
            stream: false,
            messages: Self::messages(transcript),
            response_format: "json_object".to_owned(),
        }
    }

    /// The request for a streamed answer.
    pub fn build_stream_request(&self, transcript: &str) -> (r: StreamRequest)
        ensures
            r.model@ == self.model@,
            r.stream,
            r.format@ == "json"@,
            r.temperature == self.temperature,
            are_messages_for(r.messages@, transcript@),
    {
        StreamRequest {
            model: self.model.clone(),
            stream: true,
            format: "json".to_owned(),
            temperature: self.temperature,
            messages: Self::messages(transcript),
        }
    }
}

/// How a request is answered.
#[derive(Clone, Copy, Debug, PartialEq, Eq, Structural)]
pub enum RequestKind {
    /// In one piece.
    Chat,
    /// Streamed.
    Stream,
}

impl RequestKind {
    /// The words that report the failure of such a request.
    pub open spec fn failure(self) -> Seq<char> {
        match self {
            RequestKind::Chat => "llm request failed: "@,
            RequestKind::Stream => "llm stream request failed: "@,
        }
    }
}

/// What became of one attempt to send a request.
pub enum SendOutcome {
    /// A response came, whatever its status.
    Answered,
    /// The request could not be sent.
    Failed {
        /// The transport's own message.
        message: String,
        /// Whether connecting or sending itself failed, so that a stale
        /// connection may be the cause.
        retryable: bool,
    },
}

/// What to do after an attempt.
pub enum SendStep {
    /// Go on with the response.
    Handle,
    /// Wait for `WARMUP_MS` milliseconds, then send again.
    Retry,
    /// Report the failure.
    GiveUp(AppError),
}

/// Whether a request is sent again after its attempt number `attempt` (the
/// first is 0) could not be sent.
pub open spec fn is_retried(attempt: u32, retryable: bool) -> bool {
    attempt + 1 < MAX_ATTEMPTS && retryable
}

/// Decides what follows the attempt number `attempt` (the first is 0).
///
/// The model server closes idle connections whenever it loads or unloads a
/// model, so a pooled connection can be stale. That shows as a transport error,
/// and the request is sent again, a few times. Responses with an error status
/// are not: they count as an answer.
pub fn after_attempt(kind: RequestKind, attempt: u32, outcome: SendOutcome) -> (step: SendStep)
    requires
        attempt < MAX_ATTEMPTS,
    ensures
        match outcome {
            SendOutcome::Answered => step is Handle,
            SendOutcome::Failed { message, retryable } => if is_retried(attempt, retryable) {
                step is Retry
            } else {
                step matches SendStep::GiveUp(e) && e@ == (AppErrorView {
                    kind: ErrorKind::Analysis,
                    detail: kind.failure() + message@,
                })
            },
        },
{
    match outcome {
        SendOutcome::Answered => SendStep::Handle,
        SendOutcome::Failed { message, retryable } => {
            if attempt + 1 < MAX_ATTEMPTS && retryable {
                SendStep::Retry
            } else {
                let detail = match kind {
                    RequestKind::Chat => "llm request failed: ".to_owned().concat(message.as_str()),
                    RequestKind::Stream => "llm stream request failed: ".to_owned().concat(
                        message.as_str(),
                    ),
                };
                SendStep::GiveUp(AppError::Analysis(detail))
            }
        },
    }
}

/// How many attempts are made when the attempts end as `outcomes` says: each
/// `Some(retryable)` for one that could not be sent, `None` for an answer.
pub open spec fn attempts_made(outcomes: spec_fn(nat) -> Option<bool>, attempt: nat) -> nat
    decreases MAX_ATTEMPTS - attempt,
{
    if attempt >= MAX_ATTEMPTS {
        attempt
    } else {
        match outcomes(attempt) {
            Some(retryable) => if is_retried(attempt as u32, retryable) {
                attempts_made(outcomes, attempt + 1)
            } else {
                attempt + 1
            },
            None => attempt + 1,
        }
    }
}

/// However the attempts end, at least one and at most `MAX_ATTEMPTS` are made,
/// and all but the last of them failed in a way that may pass.
pub proof fn law_attempts_are_bounded(outcomes: spec_fn(nat) -> Option<bool>, attempt: nat)
    requires
        attempt < MAX_ATTEMPTS,
    ensures
        attempt < attempts_made(outcomes, attempt) <= MAX_ATTEMPTS,
        forall|k: nat|
            attempt <= k < attempts_made(outcomes, attempt) - 1 ==> #[trigger] outcomes(k) == Some(
                true,
            ),
    decreases MAX_ATTEMPTS - attempt,
{
    if let Some(retryable) = outcomes(attempt) {
        if is_retried(attempt as u32, retryable) {
            law_attempts_are_bounded(outcomes, attempt + 1);
        }
    }
}

/// A response to a request that is answered in one piece.
pub enum LlmReply {
    /// The status is not a success.
    Refused { status: String, body: String },
    /// The body is not what a chat completion looks like.
    Unreadable(String),
    /// The contents of the choices, in order.
    Choices(Vec<String>),
}

/// The model's own text in a reply, or the failure that the reply reports.
pub fn handle_response(reply: LlmReply) -> (r: Result<String, AppError>)
    ensures
        match reply {
            LlmReply::Refused { status, body } => r matches Err(e) && e@ == (AppErrorView {
                kind: ErrorKind::Analysis,
                detail: "llm returned "@ + status@ + ": "@ + body@,
            }),
            LlmReply::Unreadable(message) => r matches Err(e) && e@ == (AppErrorView {
                kind: ErrorKind::Analysis,
                detail: "llm response not parseable: "@ + message@,
            }),
            LlmReply::Choices(contents) => if contents@.len() == 0 {
                r matches Err(e) && e@ == (AppErrorView {
                    kind: ErrorKind::Analysis,
                    detail: "llm returned no choices"@,
                })
            } else {
                r matches Ok(content) && content@ == contents@[0]@
            },
        },
{
    match reply {
        LlmReply::Refused { status, body } => Err(refusal(status.as_str(), body.as_str())),
        LlmReply::Unreadable(message) => Err(
            AppError::Analysis("llm response not parseable: ".to_owned().concat(message.as_str())),
        ),
        LlmReply::Choices(contents) => if contents.len() == 0 {
            Err(AppError::Analysis("llm returned no choices".to_owned()))
        } else {
            Ok(contents[0].clone())
        },
    }
}

/// The failure that a response with an error status reports.
pub fn refusal(status: &str, body: &str) -> (e: AppError)
    ensures
        e@ == (AppErrorView {
            kind: ErrorKind::Analysis,
            detail: "llm returned "@ + status@ + ": "@ + body@,
        }),
{
    AppError::Analysis("llm returned ".to_owned().concat(status).concat(": ").concat(body))
}

/// The failure that an interrupted stream reports.
pub fn broken_stream(message: &str) -> (e: AppError)
    ensures
        e@ == (AppErrorView {
            kind: ErrorKind::Analysis,
            detail: "reading llm stream failed: "@ + message@,
        }),
{
    AppError::Analysis("reading llm stream failed: ".to_owned().concat(message))
}

/// One line of a streamed answer.
pub struct OllamaStreamChunk {
    pub message: Option<OllamaStreamMessage>,
    pub done: bool,
}

pub struct OllamaStreamMessage {
    pub content: Option<String>,
}

impl OllamaStreamChunk {
    /// The text that the line adds to the answer: empty where it holds none.
    pub open spec fn delta(self) -> Seq<char> {
        match self.message {
            Some(m) => match m.content {
                Some(c) => c@,
                None => Seq::empty(),
            },
            None => Seq::empty(),
        }
    }
}

/// What to do with a line of a streamed answer.
pub enum LineStep {
    /// Nothing: the line is blank.
    Skip,
    /// End the answer here.
    Stop,
    /// Parse this text, the line without white space at its ends.
    Parse(String),
}

/// The mathematical form of what to do with a line.
pub enum LineStepView {
    Skip,
    Stop,
    Parse(Seq<char>),
}

impl View for LineStep {
    type V = LineStepView;

    open spec fn view(&self) -> LineStepView {
        match self {
            LineStep::Skip => LineStepView::Skip,
            LineStep::Stop => LineStepView::Stop,
            LineStep::Parse(body) => LineStepView::Parse(body@),
        }
    }
}

/// What to do with a line of a streamed answer. A bare `done` line ends the
/// answer, as older servers do it.
pub open spec fn line_step(line: Seq<char>) -> LineStepView {
    let body = text::trimmed(line);
    if body.len() == 0 {
        LineStepView::Skip
    } else if body == "done"@ {
        LineStepView::Stop
    } else {
        LineStepView::Parse(body)
    }
}

/// Decides what to do with a line of a streamed answer.
pub fn on_line(line: &str) -> (step: LineStep)
    ensures
        step@ == line_step(line@),
{
    let body = trim(line);
    if body.as_str().is_empty() {
        LineStep::Skip
    } else if same_text(body.as_str(), "done") {
        LineStep::Stop
    } else {
        LineStep::Parse(body)
    }
}

/// What follows a parsed line: the text to report, if any, and whether the
/// answer ends.
pub struct ChunkStep {
    pub delta: Option<String>,
    pub stop: bool,
}

/// The text of a streamed answer, as far as it has come.
pub struct StreamedAnswer {
    pub content: String,
}

impl StreamedAnswer {
    pub fn new() -> (r: Self)
        ensures
            r.content@ == Seq::<char>::empty(),
    {
        StreamedAnswer { content: String::new() }
    }

    /// Takes in a line, `None` where it could not be parsed: such a line is
    /// passed over. Text is reported when there is any.
    pub fn on_chunk(&mut self, chunk: Option<OllamaStreamChunk>) -> (step: ChunkStep)
        ensures
            final(self).content@ == old(self).content@ + delta_of(chunk),
            step.stop == (chunk matches Some(c) && c.done),
            match step.delta {
                Some(d) => d@.len() > 0 && d@ == delta_of(chunk),
                None => delta_of(chunk).len() == 0,
            },
            chunk matches Some(OllamaStreamChunk {
                message: Some(OllamaStreamMessage { content: Some(text) }),
                ..
            }) ==> {
                &&& final(self).content@ == old(self).content@ + text@
                &&& text@.len() > 0 ==> (step.delta matches Some(d) && d@ == text@)
                &&& text@.len() == 0 ==> step.delta is None
            },
    {
        let ghost before = self.content@;
        match chunk {
            Some(c) => {
                let stop = c.done;
                match c.message {
                    Some(OllamaStreamMessage { content: Some(text) }) => {
                        if text.as_str().is_empty() {
                            assert(before + text@ =~= before);
                            ChunkStep { delta: None, stop }
                        } else {
                            self.content.append(text.as_str());
                            ChunkStep { delta: Some(text), stop }
                        }
                    },
                    _ => {
                        assert(before + Seq::<char>::empty() =~= before);
                        ChunkStep { delta: None, stop }
                    },
                }
            },
            None => {
                assert(before + Seq::<char>::empty() =~= before);
                ChunkStep { delta: None, stop: false }
            },
        }
    }
}

/// The text that a line, parsed or not, adds to the answer.
pub open spec fn delta_of(chunk: Option<OllamaStreamChunk>) -> Seq<char> {
    match chunk {
        Some(c) => c.delta(),
        None => Seq::empty(),
    }
}

/// A streamed answer as far as it has been read: its text, the texts that were
/// reported, and whether it has ended.
#[verifier::ext_equal]
pub struct AnswerView {
    pub content: Seq<char>,
    pub reported: Seq<Seq<char>>,
    pub ended: bool,
}

impl AnswerView {
    /// Before the first line.
    pub open spec fn start() -> AnswerView {
        AnswerView { content: Seq::empty(), reported: Seq::empty(), ended: false }
    }

    /// After one more parsed line. A line that did not parse changes nothing,
    /// and only text that is there is reported.
    pub open spec fn with_chunk(self, chunk: Option<OllamaStreamChunk>) -> AnswerView {
        let delta = delta_of(chunk);
        AnswerView {
            content: self.content + delta,
            reported: if delta.len() == 0 {
                self.reported
            } else {
                self.reported.push(delta)
            },
            ended: chunk matches Some(c) && c.done,
        }
    }

    /// After one more line, where `parse` reads the text of a line. Nothing is
    /// read once the answer has ended.
    pub open spec fn with_line(self, line: Seq<char>, parse: LineParser) -> AnswerView {
        if self.ended {
            self
        } else {
            match line_step(line) {
                LineStepView::Skip => self,
                LineStepView::Stop => AnswerView { ended: true, ..self },
                LineStepView::Parse(body) => self.with_chunk(parse(body)),
            }
        }
    }
}

/// What the text of a line parses to, if to anything.
pub type LineParser = spec_fn(Seq<char>) -> Option<OllamaStreamChunk>;

/// The answer that is read from these lines.
pub open spec fn answer_of(lines: Seq<Seq<char>>, parse: LineParser) -> AnswerView
    decreases lines.len(),
{
    if lines.len() == 0 {
        AnswerView::start()
    } else {
        answer_of(lines.drop_last(), parse).with_line(lines.last(), parse)
    }
}

/// A line ends the answer: it is a bare `done`, or a chunk marked as done.
pub open spec fn is_last_line(line: Seq<char>, parse: LineParser) -> bool {
    match line_step(line) {
        LineStepView::Skip => false,
        LineStepView::Stop => true,
        LineStepView::Parse(body) => parse(body) matches Some(c) && c.done,
    }
}

/// The text that a line adds to the answer.
pub open spec fn line_text(line: Seq<char>, parse: LineParser) -> Seq<char> {
    match line_step(line) {
        LineStepView::Parse(body) => delta_of(parse(body)),
        _ => Seq::empty(),
    }
}

/// The texts of these lines, joined.
pub open spec fn lines_text(lines: Seq<Seq<char>>, parse: LineParser) -> Seq<char>
    decreases lines.len(),
{
    if lines.len() == 0 {
        Seq::empty()
    } else {
        lines_text(lines.drop_last(), parse) + line_text(lines.last(), parse)
    }
}

/// As long as no line ends the answer, its text is the texts of all the lines.
pub proof fn law_answer_is_the_lines(lines: Seq<Seq<char>>, parse: LineParser)
    requires
        forall|k: int| 0 <= k < lines.len() ==> !is_last_line(#[trigger] lines[k], parse),
    ensures
        answer_of(lines, parse).content == lines_text(lines, parse),
        !answer_of(lines, parse).ended,
    decreases lines.len(),
{
    if lines.len() > 0 {
        let front = lines.drop_last();
        assert forall|k: int| 0 <= k < front.len() implies !is_last_line(
            #[trigger] front[k],
            parse,
        ) by {
            assert(front[k] == lines[k]);
        }
        law_answer_is_the_lines(front, parse);
        assert(!is_last_line(lines[lines.len() - 1], parse));
        let before = lines_text(front, parse);
        assert(before + Seq::<char>::empty() =~= before);
    }
}

/// Reading ends at the first bare `done` line or the first chunk marked as done:
/// where line number `n` is the first such line, the answer is the texts up to
/// it, its own included, and nothing that comes after it counts.
pub proof fn law_answer_ends_at_the_last_line(
    lines: Seq<Seq<char>>,
    parse: LineParser,
    n: int,
)
    requires
        0 <= n < lines.len(),
        is_last_line(lines[n], parse),
        forall|k: int| 0 <= k < n ==> !is_last_line(#[trigger] lines[k], parse),
    ensures
        answer_of(lines, parse) == answer_of(lines.take(n + 1), parse),
        answer_of(lines, parse).content == lines_text(lines.take(n + 1), parse),
        answer_of(lines, parse).ended,
    decreases lines.len(),
{
    if n + 1 == lines.len() {
        let front = lines.drop_last();
        assert(lines.take(n + 1) =~= lines);
        assert forall|k: int| 0 <= k < front.len() implies !is_last_line(
            #[trigger] front[k],
            parse,
        ) by {
            assert(front[k] == lines[k]);
        }
        law_answer_is_the_lines(front, parse);
        let before = lines_text(front, parse);
        assert(before + Seq::<char>::empty() =~= before);
    } else {
        let front = lines.drop_last();
        assert(front[n] == lines[n]);
        assert forall|k: int| 0 <= k < n implies !is_last_line(#[trigger] front[k], parse) by {
            assert(front[k] == lines[k]);
        }
        law_answer_ends_at_the_last_line(front, parse, n);
        assert(front.take(n + 1) =~= lines.take(n + 1));
    }
}

/// The answer is exactly the texts that were reported while it came, joined,
/// and no reported text is empty.
pub proof fn law_answer_is_the_reported_texts(lines: Seq<Seq<char>>, parse: LineParser)
    ensures
        answer_of(lines, parse).content == answer_of(lines, parse).reported.flatten(),
        forall|i: int|
            0 <= i < answer_of(lines, parse).reported.len() ==> (#[trigger] answer_of(
                lines,
                parse,
            ).reported[i]).len() > 0,
    decreases lines.len(),
{
    if lines.len() > 0 {
        let front = lines.drop_last();
        law_answer_is_the_reported_texts(front, parse);
        let before = answer_of(front, parse);
        let d = line_text(lines.last(), parse);
        if d.len() == 0 {
            assert(before.content + d =~= before.content);
        } else {
            let then = before.reported.push(d);
            then.lemma_flatten_and_flatten_alt_are_equivalent();
            before.reported.lemma_flatten_and_flatten_alt_are_equivalent();
            assert(then.drop_last() =~= before.reported);
        }
    }
}

/// An error as the model writes it; fields other than the first two may be
/// missing in its output, and are then empty or 0.
pub struct ErrorJson {
    pub text: String,
    pub suggestion: String,
    pub category: String,
    pub criticality: u32,
    pub context: String,
    pub explanation: String,
}

impl View for ErrorJson {
    type V = ErrorItemView;

    open spec fn view(&self) -> ErrorItemView {
        ErrorItemView {
            text: self.text@,
            suggestion: self.suggestion@,
            category: self.category@,
            criticality: self.criticality,
            context: self.context@,
            explanation: self.explanation@,
        }
    }
}

/// The model's whole answer.
pub struct AnalysisJson {
    pub cefr_level: String,
    pub cefr_justification: String,
    pub errors: Vec<ErrorJson>,
}

/// A text of the model as it is shown: without marks, and without white space
/// at its ends.
pub open spec fn shown(s: Seq<char>) -> Seq<char> {
    text::trimmed(marks::unmarked(s))
}

/// A category of the model as it is shown: without marks, and "other" where
/// there is none.
pub open spec fn shown_category(s: Seq<char>) -> Seq<char> {
    if marks::unmarked(s).len() == 0 {
        "other"@
    } else {
        marks::unmarked(s)
    }
}

/// An error of the model as it is shown.
pub open spec fn normalized(e: ErrorItemView) -> ErrorItemView {
    ErrorItemView {
        text: shown(e.text),
        suggestion: shown(e.suggestion),
        category: shown_category(e.category),
        criticality: e.criticality,
        context: shown(e.context),
        explanation: shown(e.explanation),
    }
}

fn show(s: &str) -> (out: String)
    ensures
        out@ == shown(s@),
{
    trim(strip_markers(s).as_str())
}

/// Makes an error of the model fit to be shown. The model may quote marked
/// words back; no mark of the transcriber leaks into the user interface.
pub fn map_error_json(e: ErrorJson) -> (item: ErrorItem)
    ensures
        item@ == normalized(e@),
{
    let category = strip_markers(e.category.as_str());
    ErrorItem {
        text: show(e.text.as_str()),
        suggestion: show(e.suggestion.as_str()),
        category: if category.as_str().is_empty() {
            "other".to_owned()
        } else {
            category
        },
        criticality: e.criticality,
        context: show(e.context.as_str()),
        explanation: show(e.explanation.as_str()),
    }
}

/// Whether `s`, given in lower case, holds one of the acceptable phrasings that
/// local models persistently flag.
pub open spec fn holds_fine_phrase(s: Seq<char>) -> bool {
    ||| text::occurs_in("a lot"@, s)
    ||| text::occurs_in("consisted"@, s)
    ||| text::occurs_in("consisting of"@, s)
    ||| text::occurs_in("every day"@, s)
    ||| text::occurs_in("daily"@, s)
    ||| text::occurs_in("instead of"@, s)
    ||| text::occurs_in("with one click"@, s)
    ||| text::occurs_in("with docker"@, s)
    ||| text::occurs_in("with pricing"@, s)
    ||| text::occurs_in("for the core"@, s)
    ||| text::occurs_in("the core"@, s)
    ||| text::occurs_in("the process is more agile"@, s)
}

fn has_fine_phrase(s: &str) -> (yes: bool)
    ensures
        yes == holds_fine_phrase(s@),
{
    contains_text(s, "a lot") || contains_text(s, "consisted") || contains_text(s, "consisting of")
        || contains_text(s, "every day") || contains_text(s, "daily") || contains_text(
        s,
        "instead of",
    ) || contains_text(s, "with one click") || contains_text(s, "with docker") || contains_text(
        s,
        "with pricing",
    ) || contains_text(s, "for the core") || contains_text(s, "the core") || contains_text(
        s,
        "the process is more agile",
    )
}

/// Whether a category has this name, in any case of its ASCII letters.
pub open spec fn is_category(category: Seq<char>, name: Seq<char>) -> bool {
    text::lower(category) == text::lower(name)
}

/// Whether an error is worth showing: those of grammar and pronunciation always
/// are, others unless they take offence at an acceptable phrasing.
pub open spec fn is_kept(e: ErrorItemView) -> bool {
    ||| is_category(e.category, "grammar"@)
    ||| is_category(e.category, "pronunciation"@)
    ||| !holds_fine_phrase(text::lower(e.text)) && !holds_fine_phrase(text::lower(e.suggestion))
}

/// An error with its criticality capped where it is a matter of style: then it
/// cannot outrank real errors.
pub open spec fn capped(e: ErrorItemView) -> ErrorItemView {
    if is_category(e.category, "awkward"@) && e.criticality > 2 {
        ErrorItemView { criticality: 2, ..e }
    } else {
        e
    }
}

/// What is shown of an error, if anything.
pub open spec fn filtered_item(e: ErrorItemView) -> Option<ErrorItemView> {
    if is_kept(e) {
        Some(capped(e))
    } else {
        None
    }
}

/// What is shown of a list of errors, in the same order.
pub open spec fn filtered(list: Seq<ErrorItemView>) -> Seq<ErrorItemView> {
    list.filter_map(|e: ErrorItemView| filtered_item(e))
}

fn filter_item(e: ErrorItem) -> (out: Option<ErrorItem>)
    ensures
        match out {
            Some(item) => filtered_item(e@) == Some(item@),
            None => filtered_item(e@) is None,
        },
{
    let genuine = same_ignoring_case(e.category.as_str(), "grammar") || same_ignoring_case(
        e.category.as_str(),
        "pronunciation",
    );
    if !genuine && (has_fine_phrase(to_lower(e.text.as_str()).as_str()) || has_fine_phrase(
        to_lower(e.suggestion.as_str()).as_str(),
    )) {
        return None;
    }
    if same_ignoring_case(e.category.as_str(), "awkward") && e.criticality > 2 {
        Some(ErrorItem { criticality: 2, ..e })
    } else {
        Some(e)
    }
}

/// Removes common false positives.
///
/// Local tutor models persistently flag acceptable conversational phrasing as
/// "vocabulary" or "awkward" errors. These are suppressed only when the model
/// did not classify them as a grammar or pronunciation defect. What is "awkward"
/// is a stylistic judgment, and its criticality is capped at 2.
pub fn filter_style_false_positives(errors: Vec<ErrorItem>) -> (out: Vec<ErrorItem>)
    ensures
        providers::items(out@) == filtered(providers::items(errors@)),
{
    let ghost all = providers::items(errors@);
    let mut out: Vec<ErrorItem> = Vec::new();
    assert(providers::items(out@) =~= filtered(all.take(0)));
    for e in it: errors
        invariant
            it.seq() == errors@,
            all == providers::items(errors@),
            providers::items(out@) == filtered(all.take(it.index() as int)),
    {
        let ghost before = providers::items(out@);
        let ghost i = it.index() as int;
        proof {
            assert(all[i] == e@);
            all.lemma_filter_map_take_succ(|e: ErrorItemView| filtered_item(e), i);
        }
        if let Some(item) = filter_item(e) {
            out.push(item);
            assert(providers::items(out@) =~= before + seq![item@]);
        }
        assert(providers::items(out@) =~= filtered(all.take(i + 1)));
    }
    assert(all.take(all.len() as int) =~= all);
    out
}

/// Whether a list is ordered by criticality, the most critical first.
pub open spec fn most_critical_first(list: Seq<ErrorItemView>) -> bool {
    forall|i: int, j: int|
        0 <= i <= j < list.len() ==> (#[trigger] list[i]).criticality >= (
        #[trigger] list[j]).criticality
}

/// The entries of one criticality, in order.
pub open spec fn of_criticality(list: Seq<ErrorItemView>, k: u32) -> Seq<ErrorItemView> {
    list.filter(|e: ErrorItemView| e.criticality == k)
}

/// Whether `out` holds what `list` holds, the most critical first, and those of
/// the same criticality in the order they had.
pub open spec fn is_prioritized(out: Seq<ErrorItemView>, list: Seq<ErrorItemView>) -> bool {
    &&& most_critical_first(out)
    &&& out.to_multiset() == list.to_multiset()
    &&& forall|k: u32| #[trigger] of_criticality(out, k) == of_criticality(list, k)
}

proof fn lemma_of_criticality_insert(list: Seq<ErrorItemView>, at: int, e: ErrorItemView, k: u32)
    requires
        0 <= at <= list.len(),
        forall|i: int| at <= i < list.len() ==> (#[trigger] list[i]).criticality < e.criticality,
    ensures
        of_criticality(list.insert(at, e), k) == of_criticality(list.push(e), k),
{
    let pred = |x: ErrorItemView| x.criticality == k;
    let a = list.take(at);
    let b = list.skip(at);
    let one = seq![e];
    assert(list.insert(at, e) =~= a + one + b);
    assert(list.push(e) =~= a + b + one);
    Seq::filter_distributes_over_add(a + one, b, pred);
    Seq::filter_distributes_over_add(a, one, pred);
    Seq::filter_distributes_over_add(a + b, one, pred);
    Seq::filter_distributes_over_add(a, b, pred);
    reveal_with_fuel(Seq::filter, 2);
    assert(one.drop_last() =~= Seq::<ErrorItemView>::empty());
    if e.criticality == k {
        assert(b.filter(pred) =~= Seq::<ErrorItemView>::empty()) by {
            if b.filter(pred).len() > 0 {
                b.lemma_filter_pred(pred, 0);
                b.lemma_filter_contains_rev(pred, b.filter(pred)[0]);
                let j = choose|j: int| 0 <= j < b.len() && b[j] == b.filter(pred)[0];
                assert(list[at + j] == b[j]);
            }
        }
    } else {
        assert(one.filter(pred) =~= Seq::<ErrorItemView>::empty());
    }
    assert(list.insert(at, e).filter(pred) =~= list.push(e).filter(pred));
}

/// Orders a list by criticality, the most critical first; those of the same
/// criticality keep their order.
fn prioritize(errors: Vec<ErrorItem>) -> (out: Vec<ErrorItem>)
    ensures
        is_prioritized(providers::items(out@), providers::items(errors@)),
{
    let ghost all = providers::items(errors@);
    let mut out: Vec<ErrorItem> = Vec::new();
    assert(providers::items(out@) =~= all.take(0));
    for e in it: errors
        invariant
            it.seq() == errors@,
            all == providers::items(errors@),
            is_prioritized(providers::items(out@), all.take(it.index() as int)),
    {
        let ghost before = providers::items(out@);
        let ghost i = it.index() as int;
        let ghost item = e@;
        assert(all[i] == item);
        assert(all.take(i + 1) =~= all.take(i).push(item));
        let mut at: usize = 0;
        while at < out.len() && out[at].criticality >= e.criticality
            invariant
                at <= out@.len(),
                before == providers::items(out@),
                forall|j: int| 0 <= j < at ==> (#[trigger] before[j]).criticality >= e.criticality,
            decreases out@.len() - at,
        {
            assert(before[at as int].criticality == out@[at as int].criticality);
            at += 1;
        }
        proof {
            if at < before.len() {
                assert(before[at as int].criticality == out@[at as int].criticality);
                assert forall|j: int| at <= j < before.len() implies (
                #[trigger] before[j]).criticality < item.criticality by {
                    assert(before[at as int].criticality >= before[j].criticality);
                }
            }
        }
        out.insert(at, e);
        proof {
            let now = providers::items(out@);
            assert(now =~= before.insert(at as int, item));
            now.to_multiset_ensures();
            assert(now.remove(at as int) =~= before);
            assert(now[at as int] == item);
            assert(now.contains(item));
            assert(now.to_multiset() =~= before.to_multiset().insert(item));
            all.take(i).to_multiset_ensures();
            assert forall|a: int, b: int| 0 <= a <= b < now.len() implies (
            #[trigger] now[a]).criticality >= (#[trigger] now[b]).criticality by {
                let a2 = if a > at {
                    a - 1
                } else {
                    a
                };
                let b2 = if b > at {
                    b - 1
                } else {
                    b
                };
                if a == at && b == at {
                } else if a == at {
                    assert(now[b] == before[b2]);
                } else if b == at {
                    assert(now[a] == before[a2]);
                } else {
                    assert(now[a] == before[a2] && now[b] == before[b2]);
                }
            }
            assert forall|k: u32| #[trigger] of_criticality(now, k) == of_criticality(
                all.take(i + 1),
                k,
            ) by {
                lemma_of_criticality_insert(before, at as int, item, k);
                let pred = |x: ErrorItemView| x.criticality == k;
                before.lemma_filter_push(item, pred);
                all.take(i).lemma_filter_push(item, pred);
                assert(of_criticality(before, k) == of_criticality(all.take(i), k));
            }
        }
    }
    assert(all.take(all.len() as int) =~= all);
    out
}

/// The upper case of an ASCII letter; any other character is kept.
pub open spec fn upper_char(c: char) -> char {
    if 'a' <= c <= 'z' {
        ((c as u8) - 32) as u8 as char
    } else {
        c
    }
}

/// The CEFR level that `s` names, as its label: one of A1, A2, B1, B2, C1 and
/// C2, in any case and with white space around it. (No character outside ASCII
/// has one of these letters or digits as its upper case.)
pub open spec fn cefr_label_of(s: Seq<char>) -> Option<Seq<char>> {
    let body = text::trimmed(s);
    if body.len() == 2 && 'A' <= upper_char(body[0]) <= 'C' && '1' <= body[1] <= '2' {
        Some(seq![upper_char(body[0]), body[1]])
    } else {
        None
    }
}

fn cefr_label(s: &str) -> (out: Option<String>)
    ensures
        match out {
            Some(label) => cefr_label_of(s@) == Some(label@),
            None => cefr_label_of(s@) is None,
        },
{
    let body = chars_of(trim(s).as_str());
    if body.len() != 2 {
        return None;
    }
    let c = body[0];
    let letter: char = if 'a' <= c && c <= 'z' {
        (c as u8 - 32) as char
    } else {
        c
    };
    if 'A' <= letter && letter <= 'C' && '1' <= body[1] && body[1] <= '2' {
        let mut label = String::new();
        label.push(letter);
        label.push(body[1]);
        assert(label@ =~= seq![upper_char(body@[0]), body@[1]]);
        Some(label)
    } else {
        None
    }
}

/// The mathematical form of a list of the model's errors.
pub open spec fn raw_items(list: Seq<ErrorJson>) -> Seq<ErrorItemView> {
    list.map_values(|e: ErrorJson| e@)
}

/// What is shown of the model's errors, in the model's order.
pub open spec fn shown_items(list: Seq<ErrorItemView>) -> Seq<ErrorItemView> {
    filtered(list.map_values(|e: ErrorItemView| normalized(e)))
}

/// Whether `a` is the analysis that the model's answer `json` gives, when its
/// level has the label `label`.
pub open spec fn is_analysis_of(a: AnalysisView, json: AnalysisJson, label: Seq<char>) -> bool {
    &&& a.cefr_label == label
    &&& a.cefr_justification == shown(json.cefr_justification@)
    &&& is_prioritized(a.errors, shown_items(raw_items(json.errors@)))
}

/// Makes a validated analysis of the model's parsed answer, or of the parser's
/// message where `strip_fences` left no JSON of the expected form. False
/// positives are left out, the most critical errors come first whatever order
/// the model chose, and the level must be one of CEFR.
pub fn parse_analysis(parsed: Result<AnalysisJson, String>) -> (r: AnalysisResult)
    ensures
        match parsed {
            Err(message) => r matches Err(e) && e@ == (AppErrorView {
                kind: ErrorKind::Analysis,
                detail: "llm output was not valid JSON: "@ + message@,
            }),
            Ok(json) => match cefr_label_of(json.cefr_level@) {
                Some(label) => r matches Ok(a) && is_analysis_of(a@, json, label),
                None => r matches Err(e) && e@ == (AppErrorView {
                    kind: ErrorKind::Analysis,
                    detail: "invalid CEFR level from model: '"@ + json.cefr_level@ + "'"@,
                }),
            },
        },
{
    let json = match parsed {
        Ok(json) => json,
        Err(message) => {
            return Err(
                AppError::Analysis(
                    "llm output was not valid JSON: ".to_owned().concat(message.as_str()),
                ),
            );
        },
    };
    let AnalysisJson { cefr_level, cefr_justification, errors } = json;
    let ghost raw = raw_items(errors@);
    let ghost mapped = raw.map_values(|e: ErrorItemView| normalized(e));
    let mut list: Vec<ErrorItem> = Vec::new();
    assert(providers::items(list@) =~= mapped.take(0));
    for e in it: errors
        invariant
            it.seq() == errors@,
            raw == raw_items(errors@),
            mapped == raw.map_values(|e: ErrorItemView| normalized(e)),
            providers::items(list@) == mapped.take(it.index() as int),
    {
        let ghost before = providers::items(list@);
        let ghost i = it.index() as int;
        let item = map_error_json(e);
        list.push(item);
        assert(raw[i] == e@);
        assert(mapped[i] == item@);
        assert(providers::items(list@) =~= before.push(item@));
        assert(mapped.take(i + 1) =~= mapped.take(i).push(mapped[i]));
    }
    assert(mapped.take(mapped.len() as int) =~= mapped);
    let prioritized = prioritize(filter_style_false_positives(list));
    match cefr_label(cefr_level.as_str()) {
        Some(label) => Ok(
            Analysis {
                cefr_label: label,
                cefr_justification: show(cefr_justification.as_str()),
                errors: prioritized,
            },
        ),
        None => Err(
            AppError::Analysis(
                "invalid CEFR level from model: '".to_owned().concat(cefr_level.as_str()).concat(
                    "'",
                ),
            ),
        ),
    }
}

/// What is shown of one error of the model while its answer is still coming.
pub open spec fn live_item(e: ErrorItemView) -> Option<ErrorItemView> {
    filtered_item(normalized(e))
}

/// Makes an error box of one object of a streamed answer, `None` where the
/// object did not parse as an error (e.g. the enclosing document). The same
/// rules hold as for the settled result.
pub fn error_item_from_json(parsed: Option<ErrorJson>) -> (item: Option<ErrorItem>)
    ensures
        match parsed {
            Some(e) => match item {
                Some(x) => live_item(e@) == Some(x@),
                None => live_item(e@) is None,
            },
            None => item is None,
        },
{
    match parsed {
        Some(e) => filter_item(map_error_json(e)),
        None => None,
    }
}

/// What each error gives on its own is what the list of them gives.
proof fn lemma_shown_one_by_one(list: Seq<ErrorItemView>)
    ensures
        shown_items(list) == list.filter_map(|e: ErrorItemView| live_item(e)),
    decreases list.len(),
{
    let mapped = list.map_values(|e: ErrorItemView| normalized(e));
    if list.len() > 0 {
        let front = list.drop_last();
        lemma_shown_one_by_one(front);
        assert(mapped.drop_last() =~= front.map_values(|e: ErrorItemView| normalized(e)));
        assert(mapped.last() == normalized(list.last()));
    }
}

/// A box shown live never contradicts the settled result: the settled errors
/// are exactly the boxes that the model's errors give one by one, the most
/// critical first and those of the same criticality in the order they came.
pub proof fn law_live_boxes_match_the_result(
    a: AnalysisView,
    json: AnalysisJson,
    label: Seq<char>,
)
    requires
        is_analysis_of(a, json, label),
    ensures
        is_prioritized(
            a.errors,
            raw_items(json.errors@).filter_map(|e: ErrorItemView| live_item(e)),
        ),
{
    lemma_shown_one_by_one(raw_items(json.errors@));
}

/// Errors of grammar and pronunciation always pass, unchanged.
pub proof fn law_genuine_errors_pass(e: ErrorItemView)
    requires
        is_category(e.category, "grammar"@) || is_category(e.category, "pronunciation"@),
    ensures
        filtered_item(e) == Some(e),
{
    reveal_strlit("grammar");
    reveal_strlit("pronunciation");
    reveal_strlit("awkward");
    assert(text::lower("grammar"@)[0] == 'g');
    assert(text::lower("pronunciation"@)[0] == 'p');
    assert(text::lower("awkward"@)[0] == 'a');
}

/// Nothing of category "awkward" that is shown has a criticality above 2, and
/// no other criticality is changed.
pub proof fn law_awkward_is_capped(e: ErrorItemView)
    ensures
        filtered_item(e) matches Some(x) ==> {
            &&& is_category(x.category, "awkward"@) ==> x.criticality <= 2
            &&& x == (ErrorItemView { criticality: x.criticality, ..e })
            &&& x.criticality <= e.criticality
            &&& !is_category(e.category, "awkward"@) || e.criticality <= 2 ==> x == e
        },
{
}

/// Filtering what has been filtered changes nothing more.
pub proof fn law_filtering_twice_is_filtering_once(list: Seq<ErrorItemView>)
    ensures
        filtered(filtered(list)) == filtered(list),
    decreases list.len(),
{
    if list.len() > 0 {
        let front = list.drop_last();
        law_filtering_twice_is_filtering_once(front);
        if let Some(x) = filtered_item(list.last()) {
            let once = filtered(front);
            assert(filtered(list) == once + seq![x]);
            assert((once + seq![x]).drop_last() =~= once);
            assert((once + seq![x]).last() == x);
            assert(filtered_item(x) == Some(x));
        }
    }
}

/// No transcription mark is in a text that is shown.
pub proof fn law_no_mark_is_shown(s: Seq<char>)
    ensures
        !shown(s).contains(marks::MARK_OPEN),
        !shown(s).contains(marks::MARK_CLOSE),
{
    let u = marks::unmarked(s);
    marks::law_no_mark_is_left(s);
    text::lemma_trimmed_start_shape(u);
    let t = text::trimmed_start(u);
    text::lemma_trimmed_end_shape(t);
    let k = u.len() - t.len();
    assert forall|c: char| shown(s).contains(c) implies u.contains(c) by {
        let i = choose|i: int| 0 <= i < shown(s).len() && shown(s)[i] == c;
        assert(t[i] == c);
        assert(u[k + i] == c);
    }
}

/// A text holds no transcription mark.
pub open spec fn is_clean(s: Seq<char>) -> bool {
    !s.contains(marks::MARK_OPEN) && !s.contains(marks::MARK_CLOSE)
}

/// No text of an error holds a transcription mark.
pub open spec fn is_clean_item(e: ErrorItemView) -> bool {
    is_clean(e.text) && is_clean(e.suggestion) && is_clean(e.category) && is_clean(e.context)
        && is_clean(e.explanation)
}

/// No error box that is sent holds a transcription mark.
pub proof fn law_no_mark_is_in_a_box(e: ErrorItemView)
    ensures
        live_item(e) matches Some(x) ==> is_clean_item(x),
{
    law_no_mark_is_shown(e.text);
    law_no_mark_is_shown(e.suggestion);
    law_no_mark_is_shown(e.context);
    law_no_mark_is_shown(e.explanation);
    marks::law_no_mark_is_left(e.category);
    reveal_strlit("other");
}

/// No text of an analysis holds a transcription mark.
pub proof fn law_no_mark_is_in_the_result(a: AnalysisView, json: AnalysisJson, label: Seq<char>)
    requires
        cefr_label_of(json.cefr_level@) == Some(label),
        is_analysis_of(a, json, label),
    ensures
        is_clean(a.cefr_label),
        is_clean(a.cefr_justification),
        forall|i: int| 0 <= i < a.errors.len() ==> is_clean_item(#[trigger] a.errors[i]),
{
    law_no_mark_is_shown(json.cefr_justification@);
    let raw = raw_items(json.errors@);
    let list = shown_items(raw);
    lemma_shown_one_by_one(raw);
    assert forall|i: int| 0 <= i < a.errors.len() implies is_clean_item(#[trigger] a.errors[i]) by {
        let x = a.errors[i];
        a.errors.to_multiset_ensures();
        list.to_multiset_ensures();
        assert(a.errors.contains(x));
        assert(list.to_multiset().count(x) > 0);
        assert(list.contains(x));
        lemma_shown_comes_from(raw, x);
    }
}

proof fn lemma_shown_comes_from(raw: Seq<ErrorItemView>, x: ErrorItemView)
    requires
        raw.filter_map(|e: ErrorItemView| live_item(e)).contains(x),
    ensures
        is_clean_item(x),
    decreases raw.len(),
{
    let shows = |e: ErrorItemView| live_item(e);
    let all = raw.filter_map(shows);
    let i = choose|i: int| 0 <= i < all.len() && all[i] == x;
    if raw.len() > 0 {
        let front = raw.drop_last();
        let before = front.filter_map(shows);
        if i < before.len() {
            assert(before[i] == x);
            lemma_shown_comes_from(front, x);
        } else {
            law_no_mark_is_in_a_box(raw.last());
        }
    }
}

/// `s` without the code fence that it opens with.
pub open spec fn without_opening_fence(s: Seq<char>) -> Seq<char> {
    if "```json"@.is_prefix_of(s) {
        s.skip("```json"@.len() as int)
    } else if "```"@.is_prefix_of(s) {
        s.skip("```"@.len() as int)
    } else {
        s
    }
}

/// `s` without the code fence that it ends with.
pub open spec fn without_closing_fence(s: Seq<char>) -> Seq<char> {
    if "```"@.is_suffix_of(s) {
        s.take(s.len() - "```"@.len())
    } else {
        s
    }
}

/// The index of the first `{` of `s`, or its length.
pub open spec fn first_brace(s: Seq<char>) -> int
    decreases s.len(),
{
    if s.len() == 0 || s[0] == '{' {
        0
    } else {
        1 + first_brace(s.drop_first())
    }
}

/// `s` from its first `{` on, where it has one.
pub open spec fn from_first_brace(s: Seq<char>) -> Seq<char> {
    if s.contains('{') {
        s.skip(first_brace(s))
    } else {
        s
    }
}

/// What is left of the model's text as JSON.
pub open spec fn unfenced(content: Seq<char>) -> Seq<char> {
    text::trimmed(
        from_first_brace(without_closing_fence(without_opening_fence(text::trimmed(content)))),
    )
}

proof fn lemma_first_brace(s: Seq<char>, n: int)
    requires
        0 <= n <= s.len(),
        forall|i: int| 0 <= i < n ==> #[trigger] s[i] != '{',
        n < s.len() ==> s[n] == '{',
    ensures
        first_brace(s) == n,
    decreases n,
{
    if n > 0 {
        let rest = s.drop_first();
        assert forall|i: int| 0 <= i < n - 1 implies #[trigger] rest[i] != '{' by {
            assert(rest[i] == s[i + 1]);
        }
        assert(s[0] != '{');
        lemma_first_brace(rest, n - 1);
    }
}

/// Removes the code fences at the ends of the model's text and any prose in
/// front of the first `{`, so that the JSON can be parsed even when the model
/// does not honor the "JSON only" instruction perfectly.
pub fn strip_fences(content: &str) -> (out: String)
    ensures
        out@ == unfenced(content@),
{
    let body = trim(content);
    let chars = chars_of(body.as_str());
    proof {
        reveal_strlit("```json");
        reveal_strlit("```");
    }
    let mut from: usize = 0;
    if begins_with(body.as_str(), "```json") {
        from = 7;
    } else if begins_with(body.as_str(), "```") {
        from = 3;
    }
    let inner = string_of(chars.as_slice(), from, chars.len());
    assert(inner@ =~= without_opening_fence(body@));
    let chars = chars_of(inner.as_str());
    let mut to: usize = chars.len();
    if finishes_with(inner.as_str(), "```") {
        to = to - 3;
    }
    let ghost rest = without_closing_fence(inner@);
    assert(chars@.take(to as int) =~= rest);
    let mut at: usize = 0;
    while at < to && chars[at] != '{'
        invariant
            at <= to <= chars@.len(),
            rest == chars@.take(to as int),
            forall|i: int| 0 <= i < at ==> #[trigger] rest[i] != '{',
        decreases to - at,
    {
        at += 1;
    }
    if at < to {
        proof {
            assert(rest[at as int] == '{');
            lemma_first_brace(rest, at as int);
        }
        let tail = string_of(chars.as_slice(), at, to);
        assert(tail@ =~= from_first_brace(rest));
        trim(tail.as_str())
    } else {
        let tail = string_of(chars.as_slice(), 0, to);
        assert(tail@ =~= rest);
        trim(tail.as_str())
    }
}

/// Whether `s` is white space only.
pub open spec fn is_blank(s: Seq<char>) -> bool {
    forall|i: int| 0 <= i < s.len() ==> text::white_space(#[trigger] s[i])
}

/// Trimming takes white space in front of a `{` from the text before it.
proof fn lemma_trim_before_brace(before: Seq<char>, rest: Seq<char>)
    requires
        rest.len() > 0,
        rest.first() == '{',
    ensures
        text::trimmed_start(before + rest) == text::trimmed_start(before) + rest,
    decreases before.len(),
{
    if before.len() == 0 {
        assert(before + rest =~= rest);
    } else if text::white_space(before.first()) {
        lemma_trim_before_brace(before.drop_first(), rest);
        assert((before + rest).drop_first() =~= before.drop_first() + rest);
    }
}

/// An opening fence in front of a `{` lies in the text before it as a whole.
proof fn lemma_fence_before_brace(before: Seq<char>, rest: Seq<char>)
    requires
        rest.len() > 0,
        rest.first() == '{',
    ensures
        without_opening_fence(before + rest) == without_opening_fence(before) + rest,
{
    reveal_strlit("```json");
    reveal_strlit("```");
    let all = before + rest;
    assert(all[before.len() as int] == '{');
    lemma_prefix_before_brace("```json"@, before, rest);
    lemma_prefix_before_brace("```"@, before, rest);
    if "```json"@.is_prefix_of(before) {
        assert(all.skip(7) =~= before.skip(7) + rest);
    } else if "```"@.is_prefix_of(before) {
        assert(all.skip(3) =~= before.skip(3) + rest);
    }
}

proof fn lemma_prefix_before_brace(prefix: Seq<char>, before: Seq<char>, rest: Seq<char>)
    requires
        rest.len() > 0,
        rest.first() == '{',
        !prefix.contains('{'),
    ensures
        prefix.is_prefix_of(before + rest) == prefix.is_prefix_of(before),
{
    let all = before + rest;
    let n = prefix.len() as int;
    if prefix.is_prefix_of(all) {
        assert(all.subrange(0, n) == prefix);
        if n > before.len() {
            assert(prefix[before.len() as int] == all[before.len() as int]);
            assert(prefix.contains('{'));
        }
        assert(before.subrange(0, n) =~= all.subrange(0, n));
    }
    if prefix.is_prefix_of(before) {
        assert(before.subrange(0, n) =~= all.subrange(0, n));
    }
}

/// Text in front of the first `{` goes.
proof fn lemma_from_first_brace(before: Seq<char>, rest: Seq<char>)
    requires
        !before.contains('{'),
        rest.len() > 0,
        rest.first() == '{',
    ensures
        from_first_brace(before + rest) == rest,
{
    let all = before + rest;
    let n = before.len() as int;
    assert forall|i: int| 0 <= i < n implies #[trigger] all[i] != '{' by {
        assert(all[i] == before[i]);
    }
    assert(all[n] == '{');
    lemma_first_brace(all, n);
    assert(all.skip(n) =~= rest);
}

/// White space behind a text that does not end with any goes.
proof fn lemma_trim_behind(s: Seq<char>, blank: Seq<char>)
    requires
        s.len() > 0,
        !text::white_space(s.last()),
        is_blank(blank),
    ensures
        text::trimmed_end(s + blank) == s,
{
    let all = s + blank;
    let n = s.len() as int;
    assert forall|i: int| n <= i < all.len() implies text::white_space(#[trigger] all[i]) by {
        assert(all[i] == blank[i - n]);
    }
    text::lemma_trimmed_end_drops(all, n);
    assert(all.take(n) =~= s);
}

/// What is in a part of a text is in the text.
proof fn lemma_skip_contains(s: Seq<char>, n: int, c: char)
    requires
        0 <= n <= s.len(),
        s.skip(n).contains(c),
    ensures
        s.contains(c),
{
    let i = choose|i: int| 0 <= i < s.skip(n).len() && s.skip(n)[i] == c;
    assert(s[n + i] == c);
}

/// Everything from the first `{` on is kept, whether or not it is complete: only
/// what stands in front of it (prose, an opening fence), a closing fence at the
/// end and the white space around go.
pub proof fn law_everything_from_the_first_brace_is_kept(
    before: Seq<char>,
    json: Seq<char>,
    gap: Seq<char>,
    fenced: bool,
    end: Seq<char>,
)
    requires
        !before.contains('{'),
        json.len() > 0,
        json.first() == '{',
        !text::white_space(json.last()),
        !fenced ==> !seq!['`', '`', '`'].is_suffix_of(json),
        is_blank(gap),
        is_blank(end),
    ensures
        unfenced(
            before + json + gap + if fenced {
                "```"@
            } else {
                Seq::empty()
            } + end,
        ) == json,
{
    reveal_strlit("```json");
    reveal_strlit("```");
    let fence = if fenced {
        "```"@
    } else {
        Seq::<char>::empty()
    };
    let content = before + json + gap + fence + end;
    let rest = json + gap + fence + end;
    assert(content =~= before + rest);
    lemma_trim_before_brace(before, rest);
    let p = text::trimmed_start(before);
    text::lemma_trimmed_start_shape(before);
    // What trimming leaves behind the `{`.
    let kept = if fenced {
        json + gap + fence
    } else {
        json
    };
    if fenced {
        assert(rest =~= kept + end);
        assert((p + kept).last() == '`');
        lemma_trim_behind(p + kept, end);
        assert(p + rest =~= p + kept + end);
    } else {
        let blank = gap + fence + end;
        assert forall|i: int| 0 <= i < blank.len() implies text::white_space(
            #[trigger] blank[i],
        ) by {
            if i < gap.len() {
                assert(blank[i] == gap[i]);
            } else {
                assert(blank[i] == end[i - gap.len()]);
            }
        }
        assert(rest =~= kept + blank);
        assert((p + kept).last() == json.last());
        lemma_trim_behind(p + kept, blank);
        assert(p + rest =~= p + kept + blank);
    }
    assert(text::trimmed(content) == p + kept);
    // The opening fence.
    lemma_fence_before_brace(p, kept);
    let h = without_opening_fence(p);
    let opened = h + kept;
    // The closing fence.
    let mid = if fenced {
        json + gap
    } else {
        json
    };
    let closed = without_closing_fence(opened);
    if fenced {
        assert(opened.subrange(opened.len() - 3, opened.len() as int) =~= "```"@);
        assert(closed =~= h + mid);
    } else {
        assert("```"@ =~= seq!['`', '`', '`']);
        if "```"@.is_suffix_of(opened) {
            let end = opened.subrange(opened.len() - 3, opened.len() as int);
            assert(opened[h.len() as int] == '{');
            if json.len() < 3 {
                assert(end[h.len() - (opened.len() - 3)] == '{');
            }
            assert(json.subrange(json.len() - 3, json.len() as int) =~= end);
        }
        assert(closed =~= h + mid);
    }
    // The prose.
    assert(!h.contains('{')) by {
        if h.contains('{') {
            lemma_skip_contains(p, p.len() - h.len(), '{');
            lemma_skip_contains(before, before.len() - p.len(), '{');
        }
    }
    lemma_from_first_brace(h, mid);
    assert(!text::white_space(mid.first()));
    if fenced {
        lemma_trim_behind(json, gap);
    }
}

/// An object survives whatever the model puts around it: any text without `{`
/// in front of it (prose, an opening fence), and behind it nothing but white
/// space, with or without a closing fence in it.
pub proof fn law_json_is_found(
    before: Seq<char>,
    json: Seq<char>,
    gap: Seq<char>,
    fenced: bool,
    end: Seq<char>,
)
    requires
        !before.contains('{'),
        json.len() >= 2,
        json.first() == '{',
        json.last() == '}',
        is_blank(gap),
        is_blank(end),
    ensures
        unfenced(
            before + json + gap + if fenced {
                "```"@
            } else {
                Seq::empty()
            } + end,
        ) == json,
{
    reveal_strlit("```");
    if seq!['`', '`', '`'].is_suffix_of(json) {
        assert(json.subrange(json.len() - 3, json.len() as int)[2] == '`');
    }
    law_everything_from_the_first_brace_is_kept(before, json, gap, fenced, end);
}

/// The text of a chunk goes into the answer as it is, character for character,
/// white space included, and where there is any it is reported as it is. A chunk
/// without a message or without content, and a line that did not parse, add and
/// report nothing.
pub proof fn law_a_chunk_adds_its_content(
    answer: AnswerView,
    chunk: OllamaStreamChunk,
    message: OllamaStreamMessage,
    content: String,
)
    ensures
        ({
            let then = answer.with_chunk(Some(chunk));
            &&& chunk.message == Some(message) && message.content == Some(content) ==> {
                &&& then.content == answer.content + content@
                &&& content@.len() > 0 ==> then.reported == answer.reported.push(content@)
                &&& content@.len() == 0 ==> then.reported == answer.reported
            }
            &&& chunk.message is None || chunk.message == Some(message) && message.content is None
                ==> {
                &&& then.content == answer.content
                &&& then.reported == answer.reported
            }
            &&& then.ended <==> chunk.done
        }),
        answer.with_chunk(None).content == answer.content,
        answer.with_chunk(None).reported == answer.reported,
        !answer.with_chunk(None).ended,
        delta_of(None).len() == 0,
        chunk.message == Some(message) && message.content == Some(content) ==> delta_of(Some(chunk))
            == content@,
        chunk.message is None || chunk.message == Some(message) && message.content is None
            ==> delta_of(Some(chunk)).len() == 0,
{
    assert(answer.content + Seq::<char>::empty() =~= answer.content);
}

/// What is read from a stream is what the model generated: where each line
/// parses to a chunk that is not the last and holds one of `contents`, the
/// answer is the contents one behind the other, and those that are not empty
/// are reported, each as it is and in order.
pub proof fn law_answer_is_the_contents(
    lines: Seq<Seq<char>>,
    parse: LineParser,
    contents: Seq<Seq<char>>,
)
    requires
        lines.len() == contents.len(),
        forall|k: int|
            0 <= k < lines.len() ==> {
                let body = text::trimmed(#[trigger] lines[k]);
                &&& body.len() > 0
                &&& body != seq!['d', 'o', 'n', 'e']
                &&& parse(body) matches Some(c) && !c.done && (c.message matches Some(m) && (
                m.content matches Some(s) && s@ == contents[k]))
            },
    ensures
        answer_of(lines, parse).content == contents.flatten(),
        answer_of(lines, parse).reported == contents.filter(|s: Seq<char>| s.len() > 0),
        !answer_of(lines, parse).ended,
    decreases lines.len(),
{
    reveal_strlit("done");
    reveal(Seq::filter);
    assert("done"@ =~= seq!['d', 'o', 'n', 'e']);
    if lines.len() > 0 {
        let front = lines.drop_last();
        let before = contents.drop_last();
        let n = lines.len() - 1;
        assert forall|k: int| 0 <= k < front.len() implies {
            let body = text::trimmed(#[trigger] front[k]);
            &&& body.len() > 0
            &&& body != seq!['d', 'o', 'n', 'e']
            &&& parse(body) matches Some(c) && !c.done && (c.message matches Some(m) && (
            m.content matches Some(s) && s@ == before[k]))
        } by {
            assert(front[k] == lines[k]);
        }
        law_answer_is_the_contents(front, parse, before);
        assert(text::trimmed(lines[n]).len() > 0);
        contents.lemma_flatten_and_flatten_alt_are_equivalent();
        before.lemma_flatten_and_flatten_alt_are_equivalent();
        let was = answer_of(front, parse);
        assert(was.content + Seq::<char>::empty() =~= was.content);
        assert(was.content + contents[n] =~= was.content + contents.last());
    } else {
        assert(contents =~= Seq::<Seq<char>>::empty());
    }
}

/// A line is read without the white space around it: nothing is left of a blank
/// line, a bare `done` ends the answer, and everything else is to be parsed as
/// it is.
pub proof fn law_what_a_line_says(before: Seq<char>, body: Seq<char>, after: Seq<char>)
    requires
        is_blank(before),
        is_blank(after),
        body.len() > 0 ==> !text::white_space(body.first()) && !text::white_space(body.last()),
    ensures
        line_step(before + body + after) == (if body.len() == 0 {
            LineStepView::Skip
        } else if body == seq!['d', 'o', 'n', 'e'] {
            LineStepView::Stop
        } else {
            LineStepView::Parse(body)
        }),
{
    reveal_strlit("done");
    assert("done"@ =~= seq!['d', 'o', 'n', 'e']);
    text::law_trimming_cuts_the_white_space_around(before, body, after);
}

/// A request is sent again exactly when connecting or sending failed and fewer
/// than three attempts were made; an answer is never thrown away, and the
/// failure that is reported holds the transport's message as it is.
pub proof fn law_when_a_request_is_sent_again(
    kind: RequestKind,
    attempt: u32,
    outcome: SendOutcome,
    step: SendStep,
)
    requires
        attempt < MAX_ATTEMPTS,
        call_ensures(after_attempt, (kind, attempt, outcome), step),
    ensures
        outcome is Answered <==> step is Handle,
        outcome matches SendOutcome::Failed { message, retryable } ==> {
            &&& step is Retry <==> attempt < 2 && retryable
            &&& !(attempt < 2 && retryable) ==> (step matches SendStep::GiveUp(
                AppError::Analysis(detail),
            ) && detail@ == (match kind {
                RequestKind::Chat => "llm request failed: "@,
                RequestKind::Stream => "llm stream request failed: "@,
            }) + message@)
        },
{
}

/// However many slashes the server's address ends with, requests go to the same
/// place: the address without them, and the path of the request.
pub proof fn law_requests_go_to_the_server(
    cfg: Config,
    server: Seq<char>,
    slashes: Seq<char>,
    p: OllamaProvider,
    chat: String,
    stream: String,
)
    requires
        cfg.ollama_url@ == server + slashes,
        forall|i: int| 0 <= i < slashes.len() ==> #[trigger] slashes[i] == '/',
        server.len() > 0 ==> server.last() != '/',
        call_ensures(OllamaProvider::new, (&cfg,), p),
        call_ensures(OllamaProvider::chat_url, (&p,), chat),
        call_ensures(OllamaProvider::stream_url, (&p,), stream),
    ensures
        chat@ == server + "/v1/chat/completions"@,
        stream@ == server + "/api/chat"@,
{
    lemma_slashes_go(server, slashes);
}

proof fn lemma_slashes_go(server: Seq<char>, slashes: Seq<char>)
    requires
        forall|i: int| 0 <= i < slashes.len() ==> #[trigger] slashes[i] == '/',
        server.len() > 0 ==> server.last() != '/',
    ensures
        without_trailing_slashes(server + slashes) == server,
    decreases slashes.len(),
{
    let all = server + slashes;
    if slashes.len() == 0 {
        assert(all =~= server);
    } else {
        assert(all.last() == slashes[slashes.len() - 1]);
        assert(all.drop_last() =~= server + slashes.drop_last());
        lemma_slashes_go(server, slashes.drop_last());
    }
}

/// Every request tells the model its instructions, and then the transcript as it
/// is, between two lines of quotes.
pub proof fn law_requests_hold_the_transcript(
    p: OllamaProvider,
    transcript: &str,
    chat: ChatRequest,
    stream: StreamRequest,
)
    requires
        call_ensures(OllamaProvider::build_request, (&p, transcript), chat),
        call_ensures(OllamaProvider::build_stream_request, (&p, transcript), stream),
    ensures
        chat.messages@.len() == 2 && stream.messages@.len() == 2,
        chat.messages@[0].content@ == SYSTEM_PROMPT@,
        stream.messages@[0].content@ == SYSTEM_PROMPT@,
        chat.messages@[0].role@ == "system"@ && stream.messages@[0].role@ == "system"@,
        chat.messages@[1].role@ == "user"@ && stream.messages@[1].role@ == "user"@,
        chat.messages@[1].content@
            == "Here is the transcript of what I spoke to practice English:\n\n\"\"\"\n"@
            + transcript@ + "\n\"\"\"\n\nAnalyze it as instructed and return the JSON object."@,
        stream.messages@[1].content@ == chat.messages@[1].content@,
        chat.model@ == p.model@ && stream.model@ == p.model@,
        chat.temperature == p.temperature && stream.temperature == p.temperature,
        !chat.stream && stream.stream,
{
}

/// A text is shown without its marks, wherever they stand: taking one out
/// changes nothing of what is shown.
pub proof fn law_marks_do_not_matter_to_what_is_shown(before: Seq<char>, after: Seq<char>)
    ensures
        shown(before.push('«') + after) == shown(before + after),
        shown(before.push('»') + after) == shown(before + after),
{
    marks::law_marks_go_one_by_one(before, after);
}

/// A text without marks is shown as it is, but for the white space around it.
pub proof fn law_texts_are_shown_as_they_are(
    before: Seq<char>,
    body: Seq<char>,
    after: Seq<char>,
)
    requires
        is_blank(before),
        is_blank(after),
        body.len() > 0 ==> !text::white_space(body.first()) && !text::white_space(body.last()),
        !body.contains('«'),
        !body.contains('»'),
    ensures
        shown(before + body + after) == body,
{
    let all = before + body + after;
    text::law_trimming_cuts_the_white_space_around(before, body, after);
    assert forall|i: int| 0 <= i < all.len() implies all[i] != '«' && all[i] != '»' by {
        if i < before.len() {
            assert(all[i] == before[i]);
        } else if i < before.len() + body.len() {
            assert(all[i] == body[i - before.len()]);
            assert(body.contains(all[i]));
        } else {
            assert(all[i] == after[i - before.len() - body.len()]);
        }
    }
    marks::law_text_without_marks_is_kept(all);
}

/// An error is left out for one reason only: it is neither of grammar nor of
/// pronunciation, and its text or its suggestion, in lower case, holds one of
/// the phrasings that are never taught against. Neither its category beyond
/// that, nor its criticality, its context or its explanation matters.
pub proof fn law_only_known_phrasings_are_left_out(e: ErrorItemView)
    ensures
        filtered_item(e) is None <==> ({
            let fine = seq![
                "a lot"@,
                "consisted"@,
                "consisting of"@,
                "every day"@,
                "daily"@,
                "instead of"@,
                "with one click"@,
                "with docker"@,
                "with pricing"@,
                "for the core"@,
                "the core"@,
                "the process is more agile"@,
            ];
            &&& text::lower(e.category) != seq!['g', 'r', 'a', 'm', 'm', 'a', 'r']
            &&& text::lower(e.category) != seq![
                'p',
                'r',
                'o',
                'n',
                'u',
                'n',
                'c',
                'i',
                'a',
                't',
                'i',
                'o',
                'n',
            ]
            &&& exists|k: int|
                0 <= k < fine.len() && (text::occurs_in(
                    #[trigger] fine[k],
                    text::lower(e.text),
                ) || text::occurs_in(fine[k], text::lower(e.suggestion)))
        }),
{
    lemma_category_names();
    let fine = seq![
        "a lot"@,
        "consisted"@,
        "consisting of"@,
        "every day"@,
        "daily"@,
        "instead of"@,
        "with one click"@,
        "with docker"@,
        "with pricing"@,
        "for the core"@,
        "the core"@,
        "the process is more agile"@,
    ];
    assert(fine[0] == "a lot"@ && fine[1] == "consisted"@ && fine[2] == "consisting of"@);
    assert(fine[3] == "every day"@ && fine[4] == "daily"@ && fine[5] == "instead of"@);
    assert(fine[6] == "with one click"@ && fine[7] == "with docker"@ && fine[8]
        == "with pricing"@);
    assert(fine[9] == "for the core"@ && fine[10] == "the core"@ && fine[11]
        == "the process is more agile"@);
}

proof fn lemma_category_names()
    ensures
        text::lower("grammar"@) == seq!['g', 'r', 'a', 'm', 'm', 'a', 'r'],
        text::lower("pronunciation"@) == seq![
            'p',
            'r',
            'o',
            'n',
            'u',
            'n',
            'c',
            'i',
            'a',
            't',
            'i',
            'o',
            'n',
        ],
        text::lower("awkward"@) == seq!['a', 'w', 'k', 'w', 'a', 'r', 'd'],
{
    reveal_strlit("grammar");
    reveal_strlit("pronunciation");
    reveal_strlit("awkward");
    assert(text::lower("grammar"@) =~= seq!['g', 'r', 'a', 'm', 'm', 'a', 'r']);
    assert(text::lower("pronunciation"@) =~= seq![
        'p',
        'r',
        'o',
        'n',
        'u',
        'n',
        'c',
        'i',
        'a',
        't',
        'i',
        'o',
        'n',
    ]);
    assert(text::lower("awkward"@) =~= seq!['a', 'w', 'k', 'w', 'a', 'r', 'd']);
}

/// What is not left out is shown as it is, but for the criticality of what is
/// "awkward": that is brought down to 2 where it is higher, and to nothing else.
pub proof fn law_what_is_kept_is_kept_as_it_is(e: ErrorItemView)
    ensures
        filtered_item(e) matches Some(x) ==> {
            &&& x.text == e.text
            &&& x.suggestion == e.suggestion
            &&& x.category == e.category
            &&& x.context == e.context
            &&& x.explanation == e.explanation
            &&& text::lower(e.category) != seq!['a', 'w', 'k', 'w', 'a', 'r', 'd'] ==> x.criticality
                == e.criticality
            &&& text::lower(e.category) == seq!['a', 'w', 'k', 'w', 'a', 'r', 'd'] ==> {
                &&& e.criticality <= 2 ==> x.criticality == e.criticality
                &&& e.criticality > 2 ==> x.criticality == 2
            }
        },
{
    lemma_category_names();
}

/// Errors are filtered one by one: what becomes of one does not depend on the
/// others, however many there are, and those that are kept stay in order.
pub proof fn law_errors_are_filtered_one_by_one(a: Seq<ErrorItemView>, b: Seq<ErrorItemView>)
    ensures
        filtered(a + b) == filtered(a) + filtered(b),
        a.len() == 0 ==> filtered(a).len() == 0,
        a.len() == 1 ==> filtered(a) == match filtered_item(a[0]) {
            Some(x) => seq![x],
            None => Seq::empty(),
        },
    decreases b.len(),
{
    if a.len() == 1 {
        assert(a.drop_last() =~= Seq::<ErrorItemView>::empty());
        assert(filtered(a.drop_last()) =~= Seq::<ErrorItemView>::empty());
        assert(filtered(a) =~= match filtered_item(a[0]) {
            Some(x) => seq![x],
            None => Seq::empty(),
        });
    }
    if b.len() == 0 {
        assert(a + b =~= a);
        assert(filtered(a) + filtered(b) =~= filtered(a));
    } else {
        law_errors_are_filtered_one_by_one(a, b.drop_last());
        assert((a + b).drop_last() =~= a + b.drop_last());
        assert((a + b).last() == b.last());
        assert(filtered(a + b) =~= filtered(a) + filtered(b));
    }
}

/// A box is shown for an error of the model unless it takes offence at an
/// acceptable phrasing, and it shows the error's own texts: each without marks
/// and white space around it, and the category, "other" where the model gave
/// none.
pub proof fn law_what_a_box_shows(e: ErrorJson, item: Option<ErrorItem>)
    requires
        call_ensures(error_item_from_json, (Some(e),), item),
    ensures
        item is None <==> filtered_item(
            ErrorItemView {
                text: shown(e.text@),
                suggestion: shown(e.suggestion@),
                category: marks::unmarked(e.category@),
                criticality: 1,
                context: Seq::empty(),
                explanation: Seq::empty(),
            },
        ) is None,
        item matches Some(x) ==> {
            &&& x.text@ == shown(e.text@)
            &&& x.suggestion@ == shown(e.suggestion@)
            &&& x.context@ == shown(e.context@)
            &&& x.explanation@ == shown(e.explanation@)
            &&& is_clean(e.category@) && e.category@.len() > 0 ==> x.category@ == e.category@
            &&& marks::unmarked(e.category@).len() > 0 ==> x.category@ == marks::unmarked(
                e.category@,
            )
            &&& marks::unmarked(e.category@).len() == 0 ==> x.category@ == "other"@
            &&& e.category@.len() == 0 ==> x.category@ == "other"@
            &&& x.criticality == e.criticality || x.criticality == 2 && e.criticality > 2
                && text::lower(x.category@) == seq!['a', 'w', 'k', 'w', 'a', 'r', 'd']
        },
{
    lemma_category_names();
    reveal_strlit("other");
    assert(text::lower("other"@)[0] == 'o');
    assert(text::lower("grammar"@)[0] == 'g' && text::lower("pronunciation"@)[0] == 'p');
    assert(text::lower(marks::unmarked(e.category@)).len() == marks::unmarked(e.category@).len());
    law_what_is_kept_is_kept_as_it_is(normalized(e@));
    if is_clean(e.category@) {
        marks::law_text_without_marks_is_kept(e.category@);
    }
    if e.category@.len() == 0 {
        assert(!e.category@.contains('«') && !e.category@.contains('»'));
        marks::law_text_without_marks_is_kept(e.category@);
    }
}

/// The model's answer is accepted exactly when its level is one of the six of
/// CEFR, in either case and with white space around it or not, and the label is
/// that level in upper case.
pub proof fn law_the_level_is_one_of_six(json: AnalysisJson, r: AnalysisResult)
    requires
        call_ensures(parse_analysis, (Ok(json),), r),
    ensures
        ({
            let level = text::trimmed(json.cefr_level@);
            let letter_is = |upper: char, lower: char| level[0] == upper || level[0] == lower;
            &&& r is Ok <==> level.len() == 2 && (letter_is('A', 'a') || letter_is('B', 'b')
                || letter_is('C', 'c')) && (level[1] == '1' || level[1] == '2')
            &&& r matches Ok(a) ==> {
                &&& a.cefr_label@.len() == 2
                &&& a.cefr_label@[1] == level[1]
                &&& letter_is('A', 'a') ==> a.cefr_label@[0] == 'A'
                &&& letter_is('B', 'b') ==> a.cefr_label@[0] == 'B'
                &&& letter_is('C', 'c') ==> a.cefr_label@[0] == 'C'
            }
        }),
{
}

/// The analysis holds the boxes of the model's errors, every one as often as the
/// model gave it and none besides, the most critical first and those of the same
/// criticality in the model's order; and the model's own justification.
pub proof fn law_the_result_holds_every_box(json: AnalysisJson, a: Analysis, k: u32)
    requires
        call_ensures(parse_analysis, (Ok(json),), Ok(a)),
    ensures
        ({
            let found = a.errors@.map_values(|x: ErrorItem| x@);
            let boxes = json.errors@.map_values(|e: ErrorJson| e@).filter_map(
                |e: ErrorItemView| filtered_item(normalized(e)),
            );
            &&& found.to_multiset() == boxes.to_multiset()
            &&& found.len() == boxes.len()
            &&& forall|i: int, j: int|
                0 <= i < j < a.errors@.len() ==> (#[trigger] a.errors@[i]).criticality >= (
                #[trigger] a.errors@[j]).criticality
            &&& found.filter(|x: ErrorItemView| x.criticality == k) == boxes.filter(
                |x: ErrorItemView| x.criticality == k,
            )
        }),
        a.cefr_justification@ == shown(json.cefr_justification@),
{
    let found = a.errors@.map_values(|x: ErrorItem| x@);
    let raw = raw_items(json.errors@);
    lemma_shown_one_by_one(raw);
    let boxes = raw.filter_map(|e: ErrorItemView| filtered_item(normalized(e)));
    assert(boxes == raw.filter_map(|e: ErrorItemView| live_item(e))) by {
        assert((|e: ErrorItemView| filtered_item(normalized(e))) =~= (|e: ErrorItemView| live_item(
            e,
        )));
    }
    assert(is_prioritized(found, boxes));
    found.to_multiset_ensures();
    boxes.to_multiset_ensures();
    assert forall|i: int, j: int| 0 <= i < j < a.errors@.len() implies (
    #[trigger] a.errors@[i]).criticality >= (#[trigger] a.errors@[j]).criticality by {
        assert(found[i].criticality >= found[j].criticality);
    }
    assert(of_criticality(found, k) == of_criticality(boxes, k));
}

/// A text without `{` and without fences is left as it is, but for the white
/// space around it.
pub proof fn law_text_without_braces_is_kept(content: Seq<char>)
    requires
        !content.contains('{'),
        !content.contains('`'),
    ensures
        unfenced(content) == text::trimmed(content),
{
    reveal_strlit("```json");
    reveal_strlit("```");
    let body = text::trimmed(content);
    let start = text::trimmed_start(content);
    text::lemma_trimmed_start_shape(content);
    text::lemma_trimmed_end_shape(start);
    let k = content.len() - start.len();
    assert forall|i: int| 0 <= i < body.len() implies body[i] != '{' && body[i] != '`' by {
        assert(body[i] == start[i]);
        assert(start[i] == content[k + i]);
        assert(content.contains(body[i]));
    }
    if "```json"@.is_prefix_of(body) {
        assert(body.subrange(0, 7)[0] == '`');
    }
    if "```"@.is_prefix_of(body) {
        assert(body.subrange(0, 3)[0] == '`');
    }
    if "```"@.is_suffix_of(body) {
        assert(body.subrange(body.len() - 3, body.len() as int)[0] == '`');
    }
    // What has been trimmed has no white space left at its ends.
    let none = Seq::<char>::empty();
    if body.len() > 0 {
        assert(body.first() == start.first());
    }
    text::law_trimming_cuts_the_white_space_around(none, body, none);
    assert(none + body + none =~= body);
}

/// Of a text in fences without `{` the fences go, with or without a language
/// named, and the white space around.
#[verifier::spinoff_prover]
pub proof fn law_fences_go_without_braces(body: Seq<char>, named: bool)
    requires
        !body.contains('{'),
        !body.contains('`'),
        !named ==> !seq!['j', 's', 'o', 'n'].is_prefix_of(body),
    ensures
        unfenced(
            if named {
                "```json"@
            } else {
                "```"@
            } + body + "```"@,
        ) == text::trimmed(body),
{
    reveal_strlit("```json");
    reveal_strlit("```");
    let open = if named {
        "```json"@
    } else {
        "```"@
    };
    let close = "```"@;
    let none = Seq::<char>::empty();
    let all = open + body + close;
    text::law_trimming_cuts_the_white_space_around(none, all, none);
    assert(none + all + none =~= all);
    assert(all.subrange(0, open.len() as int) =~= open);
    if !named && "```json"@.is_prefix_of(all) {
        let start = all.subrange(0, 7);
        assert(start == "```json"@);
        assert(start[3] == 'j' && start[4] == 's' && start[5] == 'o' && start[6] == 'n');
        assert(all[3] == 'j' && all[4] == 's' && all[5] == 'o' && all[6] == 'n');
        assert(body.len() >= 4) by {
            if body.len() < 4 {
                assert(all[3 + body.len() as int] == '`');
            }
        }
        assert(body[0] == all[3] && body[1] == all[4] && body[2] == all[5] && body[3] == all[6]);
        assert(body.subrange(0, 4) =~= seq!['j', 's', 'o', 'n']);
        assert(false);
    }
    assert(open.is_prefix_of(all));
    let inner = without_opening_fence(all);
    assert(inner =~= body + close);
    assert(inner.subrange(inner.len() - 3, inner.len() as int) =~= close);
    assert(close.is_suffix_of(inner));
    assert(without_closing_fence(inner) =~= body);
    assert(from_first_brace(body) == body);
}

} // verus!
