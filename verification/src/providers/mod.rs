//! The data that the transcriber and the language model produce, and the
//! traits behind which they stand.

pub mod ollama;
pub mod whisper;

use crate::error::AppError;
use crate::marks;
use crate::marks::mark_spans;
use vstd::prelude::*;

verus! {

/// Decoded mono samples at 16 kHz (the format Whisper consumes), of the sample
/// type `S`.
pub struct AudioSamples<S> {
    pub samples: Vec<S>,
}

/// What the transcriber understood.
#[derive(Debug)]
pub struct Transcript {
    pub text: String,
    /// Byte ranges into `text` that the transcriber was unsure about (low
    /// per-token confidence). Empty for providers without confidence data.
    pub low_confidence_spans: Vec<(usize, usize)>,
}

/// The mathematical form of a transcript.
#[verifier::ext_equal]
pub struct TranscriptView {
    pub text: Seq<char>,
    pub low_confidence_spans: Seq<(usize, usize)>,
}

impl View for Transcript {
    type V = TranscriptView;

    open spec fn view(&self) -> TranscriptView {
        TranscriptView {
            text: self.text@,
            low_confidence_spans: self.low_confidence_spans@,
        }
    }
}

impl TranscriptView {
    /// The text with the low-confidence words wrapped in `«…»`.
    pub open spec fn analysis_text(self) -> Seq<char> {
        marks::marked(self.text, self.low_confidence_spans)
    }
}

impl Default for Transcript {
    fn default() -> (r: Self)
        ensures
            r.text@ == Seq::<char>::empty(),
            r.low_confidence_spans@ == Seq::<(usize, usize)>::empty(),
    {
        Transcript { text: String::new(), low_confidence_spans: Vec::new() }
    }
}

/// A copy of a list.
pub(crate) fn copy_list<T: Copy>(list: &Vec<T>) -> (out: Vec<T>)
    ensures
        out@ == list@,
{
    let mut out: Vec<T> = Vec::new();
    let mut i: usize = 0;
    while i < list.len()
        invariant
            i <= list@.len(),
            out@ == list@.take(i as int),
        decreases list@.len() - i,
    {
        out.push(list[i]);
        assert(list@.take(i as int).push(list@[i as int]) =~= list@.take(i as int + 1));
        i += 1;
    }
    assert(list@.take(i as int) =~= list@);
    out
}

impl Clone for Transcript {
    fn clone(&self) -> (r: Self)
        ensures
            r@ == self@,
            r.text@ == self.text@,
            r.low_confidence_spans@ == self.low_confidence_spans@,
    {
        Transcript {
            text: self.text.clone(),
            low_confidence_spans: copy_list(&self.low_confidence_spans),
        }
    }
}

impl Transcript {
    /// The text with low-confidence words wrapped in `«…»`, to be handed to the
    /// language model. The clean `text` is kept for display.
    pub fn analysis_text(&self) -> (out: String)
        ensures
            out@ == self@.analysis_text(),
    {
        mark_spans(self.text.as_str(), self.low_confidence_spans.as_slice())
    }
}

/// One identified language error.
#[derive(Debug)]
pub struct ErrorItem {
    /// The original (wrong) text as spoken.
    pub text: String,
    pub suggestion: String,
    /// "grammar", "vocabulary", "pronunciation", "awkward", etc.
    pub category: String,
    /// Higher = more critical. Errors are returned ordered by this descending.
    pub criticality: u32,
    /// The surrounding sentence for context.
    pub context: String,
    /// Why it is wrong, for study value.
    pub explanation: String,
}

/// The mathematical form of a language error.
#[verifier::ext_equal]
pub struct ErrorItemView {
    pub text: Seq<char>,
    pub suggestion: Seq<char>,
    pub category: Seq<char>,
    pub criticality: u32,
    pub context: Seq<char>,
    pub explanation: Seq<char>,
}

impl View for ErrorItem {
    type V = ErrorItemView;

    open spec fn view(&self) -> ErrorItemView {
        ErrorItemView {
            text: self.text@,
            suggestion: self.suggestion@,
            category: self.category@,
            criticality: self.criticality,
            context: self.context@,
            explanation: self.explanation@,
        }
    }
}

impl Clone for ErrorItem {
    fn clone(&self) -> (r: Self)
        ensures
            r@ == self@,
    {
        ErrorItem {
            text: self.text.clone(),
            suggestion: self.suggestion.clone(),
            category: self.category.clone(),
            criticality: self.criticality,
            context: self.context.clone(),
            explanation: self.explanation.clone(),
        }
    }
}

/// The mathematical form of a list of language errors.
pub open spec fn items(list: Seq<ErrorItem>) -> Seq<ErrorItemView> {
    list.map_values(|e: ErrorItem| e@)
}

/// A copy of a list of language errors.
fn copy_items(list: &Vec<ErrorItem>) -> (out: Vec<ErrorItem>)
    ensures
        items(out@) == items(list@),
{
    let mut out: Vec<ErrorItem> = Vec::new();
    let mut i: usize = 0;
    assert(items(out@) =~= items(list@).take(0));
    while i < list.len()
        invariant
            i <= list@.len(),
            items(out@) == items(list@).take(i as int),
        decreases list@.len() - i,
    {
        let ghost before = items(out@);
        let item = list[i].clone();
        out.push(item);
        assert(items(out@) =~= before.push(item@));
        assert(items(list@).take(i as int).push(item@) =~= items(list@).take(i as int + 1));
        i += 1;
    }
    assert(items(list@).take(i as int) =~= items(list@));
    out
}

/// What the language model found.
#[derive(Debug)]
pub struct Analysis {
    /// CEFR level label (A1..C2), a rough estimate.
    pub cefr_label: String,
    /// Short justification for the level.
    pub cefr_justification: String,
    /// Prioritized error list (most critical first).
    pub errors: Vec<ErrorItem>,
}

/// The mathematical form of an analysis.
#[verifier::ext_equal]
pub struct AnalysisView {
    pub cefr_label: Seq<char>,
    pub cefr_justification: Seq<char>,
    pub errors: Seq<ErrorItemView>,
}

impl View for Analysis {
    type V = AnalysisView;

    open spec fn view(&self) -> AnalysisView {
        AnalysisView {
            cefr_label: self.cefr_label@,
            cefr_justification: self.cefr_justification@,
            errors: items(self.errors@),
        }
    }
}

impl Clone for Analysis {
    fn clone(&self) -> (r: Self)
        ensures
            r@ == self@,
    {
        Analysis {
            cefr_label: self.cefr_label.clone(),
            cefr_justification: self.cefr_justification.clone(),
            errors: copy_items(&self.errors),
        }
    }
}

pub type TranscriptionResult = Result<Transcript, AppError>;

pub type AnalysisResult = Result<Analysis, AppError>;

pub type SamplesResult<S> = Result<AudioSamples<S>, AppError>;

/// A provider of speech-to-text, behind a small trait so a cloud
/// implementation can be swapped in later.
pub trait TranscriptionProvider<S>: Send + Sync {
    fn transcribe(&self, samples: &AudioSamples<S>) -> (r: TranscriptionResult);
}

/// A receiver of the model's output while it is being generated.
pub trait DeltaSink {
    fn on_delta(&mut self, delta: &str);
}

/// A provider of grammar/vocab error analysis + CEFR estimate. Small trait so
/// a cloud LLM can replace the local one.
pub trait AnalysisProvider: Send + Sync {
    fn analyze(&self, transcript: &str) -> (r: AnalysisResult);

    /// Same as `analyze` but reports chunks of the model output to `on_delta`
    /// as they are generated, so that error boxes can be shown incrementally.
    /// The default implementation ignores the sink and behaves exactly like
    /// `analyze`.
    fn analyze_streaming<D: DeltaSink>(&self, transcript: &str, on_delta: &mut D) -> (r:
        AnalysisResult)
        default_ensures
            call_ensures(Self::analyze, (self, transcript), r),
            *final(on_delta) == *old(on_delta),
    {
        self.analyze(transcript)
    }
}

/// What is handed to the language model is the transcript's text with its own
/// doubted words marked; where there are no spans it is the text as it is.
pub proof fn law_the_model_sees_the_transcript(t: Transcript, out: String)
    requires
        call_ensures(Transcript::analysis_text, (&t,), out),
    ensures
        out@ == marks::marked(t.text@, t.low_confidence_spans@),
        t.low_confidence_spans@.len() == 0 ==> out@ == t.text@,
        !t.text@.contains('«') && !t.text@.contains('»') ==> out@.filter(
            |c: char| c != '«' && c != '»',
        ) == t.text@,
{
    if t.low_confidence_spans@.len() == 0 {
        assert(t.low_confidence_spans@ =~= Seq::<(usize, usize)>::empty());
        marks::law_no_spans_no_marks(t.text@);
    }
    marks::law_marks_can_be_removed(t.text@, t.low_confidence_spans@);
    assert((|c: char| c != '«' && c != '»') =~= (|c: char| !marks::is_mark(c)));
}

} // verus!
