//! The analysis jobs and what became of them.

use crate::error::{AppError, AppErrorView, ErrorKind};
use crate::ids;
use crate::ids::fresh_id;
use crate::marks;
use crate::providers::{
    Analysis, AnalysisProvider, AnalysisResult, AnalysisView, AudioSamples, SamplesResult,
    Transcript, TranscriptView, TranscriptionProvider, TranscriptionResult,
};
use crate::retention;
use crate::retention::{fresh, sweep_entries, Aging};
use std::collections::HashMap;
use vstd::prelude::*;

verus! {

broadcast use vstd::std_specs::hash::group_hash_axioms;

/// A running or finished analysis job.
#[derive(Debug)]
pub enum JobStatus {
    Pending,
    Processing,
    Completed { result: JobResult },
    Failed { error: String },
}

/// What a job gives when it succeeds.
#[derive(Debug)]
pub struct JobResult {
    pub transcript: Transcript,
    pub analysis: Analysis,
}

/// The mathematical form of a job's status.
pub enum JobStatusView {
    Pending,
    Processing,
    Completed { transcript: TranscriptView, analysis: AnalysisView },
    Failed { error: Seq<char> },
}

impl View for JobStatus {
    type V = JobStatusView;

    open spec fn view(&self) -> JobStatusView {
        match self {
            JobStatus::Pending => JobStatusView::Pending,
            JobStatus::Processing => JobStatusView::Processing,
            JobStatus::Completed { result } => JobStatusView::Completed {
                transcript: result.transcript@,
                analysis: result.analysis@,
            },
            JobStatus::Failed { error } => JobStatusView::Failed { error: error@ },
        }
    }
}

impl JobStatusView {
    /// The job has come to its end.
    pub open spec fn is_done(self) -> bool {
        self is Completed || self is Failed
    }
}

impl Clone for JobResult {
    fn clone(&self) -> (r: Self)
        ensures
            r.transcript@ == self.transcript@,
            r.analysis@ == self.analysis@,
    {
        JobResult { transcript: self.transcript.clone(), analysis: self.analysis.clone() }
    }
}

impl Clone for JobStatus {
    fn clone(&self) -> (r: Self)
        ensures
            r@ == self@,
    {
        match self {
            JobStatus::Pending => JobStatus::Pending,
            JobStatus::Processing => JobStatus::Processing,
            JobStatus::Completed { result } => JobStatus::Completed { result: result.clone() },
            JobStatus::Failed { error } => JobStatus::Failed { error: error.clone() },
        }
    }
}

/// What the pipeline of a job gives: the transcript and its analysis, or what
/// went wrong.
pub type JobOutcome = Result<(Transcript, Analysis), AppError>;

/// The status of a job whose pipeline gave `outcome`.
pub open spec fn status_after(outcome: JobOutcome) -> JobStatusView {
    match outcome {
        Ok(pair) => JobStatusView::Completed { transcript: pair.0@, analysis: pair.1@ },
        Err(e) => JobStatusView::Failed { error: e@.message() },
    }
}

/// The status of a job whose pipeline gave `outcome`.
pub fn status_of(outcome: JobOutcome) -> (status: JobStatus)
    ensures
        status@ == status_after(outcome),
        status@.is_done(),
        match outcome {
            Ok(pair) => status matches JobStatus::Completed { result } && result.transcript
                == pair.0 && result.analysis == pair.1,
            Err(e) => status matches JobStatus::Failed { error } && error@ == e@.message(),
        },
{
    match outcome {
        Ok((transcript, analysis)) => JobStatus::Completed {
            result: JobResult { transcript, analysis },
        },
        Err(e) => JobStatus::Failed { error: e.message() },
    }
}

/// How long a finished job is kept before it is swept: ten minutes.
pub const JOB_RETENTION: i128 = 600_000_000_000;

struct JobEntry {
    status: JobStatus,
    created_at: i128,
}

/// The mathematical form of a job in the store.
pub struct JobEntryView {
    pub status: JobStatusView,
    pub created_at: i128,
}

impl View for JobEntry {
    type V = JobEntryView;

    closed spec fn view(&self) -> JobEntryView {
        JobEntryView { status: self.status@, created_at: self.created_at }
    }
}

impl JobEntryView {
    /// A sweep at `now` leaves the job: it is not done, or not older than the
    /// retention window.
    pub open spec fn is_kept(self, now: i128) -> bool {
        !self.status.is_done() || retention::is_fresh(self.created_at, now, JOB_RETENTION)
    }
}

impl Aging for JobEntry {
    closed spec fn is_kept(&self, now: i128, retention: i128) -> bool {
        !self@.status.is_done() || retention::is_fresh(self.created_at, now, retention)
    }

    fn kept(&self, now: i128, retention: i128) -> (out: bool) {
        match &self.status {
            JobStatus::Pending | JobStatus::Processing => true,
            JobStatus::Completed { .. } | JobStatus::Failed { .. } => fresh(
                self.created_at,
                now,
                retention,
            ),
        }
    }
}

/// The jobs of the backend, by their ids.
pub struct JobStore {
    jobs: HashMap<u128, JobEntry>,
}

impl View for JobStore {
    type V = Map<u128, JobEntryView>;

    closed spec fn view(&self) -> Map<u128, JobEntryView> {
        self.jobs@.map_values(|e: JobEntry| e@)
    }
}

/// The jobs after one more, `id`, was registered at `now`.
pub open spec fn with_job(jobs: Map<u128, JobEntryView>, id: u128, now: i128) -> Map<
    u128,
    JobEntryView,
> {
    jobs.insert(id, JobEntryView { status: JobStatusView::Pending, created_at: now })
}

/// The jobs after the pipeline of `id` has started. Only a job that is pending
/// starts.
pub open spec fn with_started(jobs: Map<u128, JobEntryView>, id: u128) -> Map<u128, JobEntryView> {
    if jobs.contains_key(id) && jobs[id].status is Pending {
        jobs.insert(
            id,
            JobEntryView {
                status: JobStatusView::Processing,
                created_at: jobs[id].created_at,
            },
        )
    } else {
        jobs
    }
}

/// The job `id` is there and not done yet.
pub open spec fn is_running(jobs: Map<u128, JobEntryView>, id: u128) -> bool {
    jobs.contains_key(id) && !jobs[id].status.is_done()
}

/// The jobs after the pipeline of `id` gave `status`. Only a job that is not
/// done can be finished.
pub open spec fn with_finished(
    jobs: Map<u128, JobEntryView>,
    id: u128,
    status: JobStatusView,
) -> Map<u128, JobEntryView> {
    if is_running(jobs, id) {
        jobs.insert(id, JobEntryView { status, created_at: jobs[id].created_at })
    } else {
        jobs
    }
}

/// The jobs that a sweep at `now` leaves, each as it was.
pub open spec fn swept(jobs: Map<u128, JobEntryView>, now: i128) -> Map<u128, JobEntryView> {
    Map::new(|id: u128| jobs.contains_key(id) && jobs[id].is_kept(now), |id: u128| jobs[id])
}

/// A registered job whose pipeline is still to be run on `input`.
pub struct JobTask<I> {
    pub id: u128,
    pub input: I,
}

impl JobStore {
    /// A store without jobs.
    pub fn new() -> (store: JobStore)
        ensures
            store@ == Map::<u128, JobEntryView>::empty(),
    {
        let store = JobStore { jobs: HashMap::new() };
        assert(store@ =~= Map::<u128, JobEntryView>::empty());
        store
    }

    fn register(&mut self, now: i128) -> (id: u128)
        ensures
            ids::is_random_uuid(id),
            final(self)@ == with_job(old(self)@, id, now),
    {
        let id: u128 = fresh_id();
        self.jobs.insert(id, JobEntry { status: JobStatus::Pending, created_at: now });
        assert(self@ =~= with_job(old(self)@, id, now));
        id
    }

    /// Registers a new job for an audio upload. Its pipeline is to be run on
    /// the bytes in the background.
    pub fn submit(&mut self, audio_bytes: Vec<u8>, now: i128) -> (task: JobTask<Vec<u8>>)
        ensures
            ids::is_random_uuid(task.id),
            task.input@ == audio_bytes@,
            final(self)@ == with_job(old(self)@, task.id, now),
    {
        let id: u128 = self.register(now);
        JobTask { id, input: audio_bytes }
    }

    /// Registers a new job for samples that are already decoded.
    pub fn submit_from_samples<S>(&mut self, samples: AudioSamples<S>, now: i128) -> (task: JobTask<
        AudioSamples<S>,
    >)
        ensures
            ids::is_random_uuid(task.id),
            task.input == samples,
            final(self)@ == with_job(old(self)@, task.id, now),
    {
        let id: u128 = self.register(now);
        JobTask { id, input: samples }
    }

    /// Notes that the pipeline of a job has started.
    pub(crate) fn start(&mut self, id: u128)
        ensures
            final(self)@ == with_started(old(self)@, id),
    {
        if let Some(entry) = self.jobs.remove(&id) {
            let created_at = entry.created_at;
            let status = match entry.status {
                JobStatus::Pending => JobStatus::Processing,
                other => other,
            };
            self.jobs.insert(id, JobEntry { status, created_at });
        }
        assert(self@ =~= with_started(old(self)@, id));
    }

    /// Whether a job is there and not done yet.
    pub fn running(&self, id: u128) -> (yes: bool)
        ensures
            yes == is_running(self@, id),
    {
        match self.jobs.get(&id) {
            Some(entry) => match &entry.status {
                JobStatus::Pending | JobStatus::Processing => true,
                JobStatus::Completed { .. } | JobStatus::Failed { .. } => false,
            },
            None => false,
        }
    }

    /// Notes what the pipeline of a job gave.
    pub(crate) fn finish(&mut self, id: u128, status: JobStatus)
        requires
            status@.is_done(),
        ensures
            final(self)@ == with_finished(old(self)@, id, status@),
    {
        if self.running(id) {
            if let Some(entry) = self.jobs.remove(&id) {
                self.jobs.insert(id, JobEntry { status, created_at: entry.created_at });
            }
        }
        assert(self@ =~= with_finished(old(self)@, id, status@));
    }

    /// The status of a job.
    pub fn get(&self, id: u128) -> (status: Option<JobStatus>)
        ensures
            match status {
                Some(s) => self@.contains_key(id) && s@ == self@[id].status,
                None => !self@.contains_key(id),
            },
    {
        match self.jobs.get(&id) {
            Some(entry) => Some(entry.status.clone()),
            None => None,
        }
    }

    /// Drops finished jobs older than the retention window. Called on a timer.
    pub fn sweep(&mut self, now: i128)
        ensures
            final(self)@ == swept(old(self)@, now),
    {
        sweep_entries(&mut self.jobs, now, JOB_RETENTION);
        assert(self@ =~= swept(old(self)@, now));
    }
}

/// `r` is what a pipeline gives whose transcriber gave `transcribed`: its
/// error, or the transcript together with what the analyzer gave for the text
/// with the doubted words marked.
pub open spec fn follows_transcription<A: AnalysisProvider>(
    transcribed: TranscriptionResult,
    analysis: &A,
    r: JobOutcome,
) -> bool {
    match transcribed {
        Err(e) => r == JobOutcome::Err(e),
        Ok(transcript) => exists|text: &str, found: AnalysisResult|
            {
                &&& text@ == transcript@.analysis_text()
                &&& #[trigger] call_ensures(A::analyze, (analysis, text), found)
                &&& r == paired(transcript, found)
            },
    }
}

/// What a pipeline gives whose analyzer gave `found` for `transcript`.
pub open spec fn paired(transcript: Transcript, found: AnalysisResult) -> JobOutcome {
    match found {
        Ok(analysis) => Ok((transcript, analysis)),
        Err(e) => Err(e),
    }
}

/// What a pipeline gives whose analyzer gave `found` for `transcript`.
pub fn after_analysis(transcript: Transcript, found: AnalysisResult) -> (r: JobOutcome)
    ensures
        r == paired(transcript, found),
{
    match found {
        Ok(analysis) => Ok((transcript, analysis)),
        Err(e) => Err(e),
    }
}

/// Decode, transcribe and analyze: `decoded` holds what the decoder gave for
/// the upload. The analyzer is handed the transcript with the doubted words
/// marked; the transcript that is returned stays clean.
pub fn run_pipeline<S, T: TranscriptionProvider<S>, A: AnalysisProvider>(
    decoded: Result<AudioSamples<S>, String>,
    transcription: &T,
    analysis: &A,
) -> (r: JobOutcome)
    ensures
        match decoded {
            Err(message) => r matches Err(e) && e@ == (AppErrorView {
                kind: ErrorKind::Audio,
                detail: message@,
            }),
            Ok(samples) => exists|transcribed: TranscriptionResult|
                {
                    &&& #[trigger] call_ensures(
                        T::transcribe,
                        (transcription, &samples),
                        transcribed,
                    )
                    &&& follows_transcription(transcribed, analysis, r)
                },
        },
{
    let samples: SamplesResult<S> = match decoded {
        Ok(samples) => Ok(samples),
        Err(message) => Err(AppError::Audio(message)),
    };
    let samples = match samples {
        Ok(samples) => samples,
        Err(e) => {
            return Err(e);
        },
    };
    let transcribed = transcription.transcribe(&samples);
    let transcript = match transcribed {
        Ok(transcript) => transcript,
        Err(e) => {
            return Err(e);
        },
    };
    let text = transcript.analysis_text();
    let found = analysis.analyze(text.as_str());
    after_analysis(transcript, found)
}

/// A job runs its course: it is pending once registered, processing once
/// started, and done once its pipeline gave an outcome, which it then reports.
/// What was registered at `now` keeps that time throughout.
pub proof fn law_a_job_runs_its_course(
    jobs: Map<u128, JobEntryView>,
    id: u128,
    now: i128,
    outcome: JobOutcome,
)
    ensures
        ({
            let registered = with_job(jobs, id, now);
            let started = with_started(registered, id);
            let finished = with_finished(started, id, status_after(outcome));
            &&& registered[id].status is Pending
            &&& started[id].status is Processing
            &&& finished[id].status == status_after(outcome)
            &&& finished[id].status.is_done()
            &&& finished[id].status is Completed <==> outcome is Ok
            &&& registered.contains_key(id) && started.contains_key(id) && finished.contains_key(id)
            &&& registered[id].created_at == now
            &&& finished[id].created_at == now
        }),
{
}

/// What can happen to the jobs of a store.
pub enum JobEvent {
    /// A job is registered.
    Submitted { id: u128, now: i128 },
    /// The pipeline of a job starts.
    Started { id: u128 },
    /// The pipeline of a job gives an outcome.
    Finished { id: u128, outcome: JobOutcome },
    /// The store is swept.
    Swept { now: i128 },
}

/// The jobs after an event.
pub open spec fn after_event(jobs: Map<u128, JobEntryView>, event: JobEvent) -> Map<
    u128,
    JobEntryView,
> {
    match event {
        JobEvent::Submitted { id, now } => with_job(jobs, id, now),
        JobEvent::Started { id } => with_started(jobs, id),
        JobEvent::Finished { id, outcome } => with_finished(jobs, id, status_after(outcome)),
        JobEvent::Swept { now } => swept(jobs, now),
    }
}

/// How far a job has come.
pub open spec fn stage(status: JobStatusView) -> int {
    match status {
        JobStatusView::Pending => 0,
        JobStatusView::Processing => 1,
        JobStatusView::Completed { .. } | JobStatusView::Failed { .. } => 2,
    }
}

/// The event registers the job `id`.
pub open spec fn registers(event: JobEvent, id: u128) -> bool {
    event matches JobEvent::Submitted { id: other, .. } && other == id
}

/// The jobs after these events.
pub open spec fn after_job_events(jobs: Map<u128, JobEntryView>, events: Seq<JobEvent>) -> Map<
    u128,
    JobEntryView,
>
    decreases events.len(),
{
    if events.len() == 0 {
        jobs
    } else {
        after_event(after_job_events(jobs, events.drop_last()), events.last())
    }
}

/// A job only moves forward, from pending over processing to completed or
/// failed, and once it is done its status never changes again: whatever happens
/// to the store, it reports that status until a sweep drops it, and a job that
/// is not done is never dropped.
pub proof fn law_a_job_moves_forward(
    jobs: Map<u128, JobEntryView>,
    events: Seq<JobEvent>,
    id: u128,
)
    requires
        jobs.contains_key(id),
        forall|k: int| 0 <= k < events.len() ==> !registers(#[trigger] events[k], id),
    ensures
        ({
            let then = after_job_events(jobs, events);
            &&& then.contains_key(id) ==> stage(jobs[id].status) <= stage(then[id].status)
            &&& then.contains_key(id) && jobs[id].status.is_done() ==> then[id].status
                == jobs[id].status
            &&& then.contains_key(id) ==> then[id].created_at == jobs[id].created_at
            &&& !then.contains_key(id) ==> exists|k: int|
                0 <= k < events.len() && (#[trigger] events[k]) is Swept
        }),
    decreases events.len(),
{
    if events.len() > 0 {
        let front = events.drop_last();
        assert forall|k: int| 0 <= k < front.len() implies !registers(#[trigger] front[k], id) by {
            assert(front[k] == events[k]);
        }
        law_a_job_moves_forward(jobs, front, id);
        let before = after_job_events(jobs, front);
        let last = events.len() - 1;
        assert(!registers(events[last], id));
        if !before.contains_key(id) {
            let k = choose|k: int| 0 <= k < front.len() && (#[trigger] front[k]) is Swept;
            assert(events[k] is Swept);
        }
    }
}

/// What happens to one job changes no other.
pub proof fn law_jobs_are_apart(
    jobs: Map<u128, JobEntryView>,
    id: u128,
    other: u128,
    now: i128,
    status: JobStatusView,
)
    requires
        id != other,
    ensures
        with_job(jobs, id, now).contains_key(other) == jobs.contains_key(other),
        with_job(jobs, id, now)[other] == jobs[other],
        with_started(jobs, id).contains_key(other) == jobs.contains_key(other),
        with_started(jobs, id)[other] == jobs[other],
        with_finished(jobs, id, status).contains_key(other) == jobs.contains_key(other),
        with_finished(jobs, id, status)[other] == jobs[other],
{
}

/// Exactly the finished jobs that are out of the retention window go in a
/// sweep: one that still runs stays however old it is, and what stays is as it
/// was.
pub proof fn law_sweep_drops_old_finished_jobs(
    jobs: Map<u128, JobEntryView>,
    now: i128,
    id: u128,
)
    requires
        jobs.contains_key(id),
    ensures
        !swept(jobs, now).contains_key(id) <==> jobs[id].status.is_done() && (now
            < jobs[id].created_at || now - jobs[id].created_at > JOB_RETENTION),
        swept(jobs, now).contains_key(id) ==> swept(jobs, now)[id] == jobs[id],
{
}

/// A sweep adds no job, and a second one at the same time drops nothing more.
pub proof fn law_sweeping_twice_is_sweeping_once(jobs: Map<u128, JobEntryView>, now: i128)
    ensures
        swept(jobs, now).submap_of(jobs),
        swept(swept(jobs, now), now) == swept(jobs, now),
{
    assert(swept(swept(jobs, now), now) =~= swept(jobs, now));
}

/// What a job reports is what its pipeline gave, field by field: the text and
/// the spans of the transcript as the transcriber gave them, without marks that
/// were not in it, and the analysis as the analyzer gave it. A pipeline that
/// failed is reported by the message of its error.
pub proof fn law_a_job_reports_its_outcome(outcome: JobOutcome, status: JobStatus)
    requires
        call_ensures(status_of, (outcome,), status),
    ensures
        match outcome {
            Ok((transcript, analysis)) => status matches JobStatus::Completed { result } && {
                &&& result.transcript.text@ == transcript.text@
                &&& result.transcript.low_confidence_spans@ == transcript.low_confidence_spans@
                &&& result.analysis.cefr_label@ == analysis.cefr_label@
                &&& result.analysis.cefr_justification@ == analysis.cefr_justification@
                &&& result.analysis.errors@.len() == analysis.errors@.len()
                &&& forall|i: int|
                    0 <= i < analysis.errors@.len() ==> {
                        let x = #[trigger] result.analysis.errors@[i];
                        let e = analysis.errors@[i];
                        &&& x.text@ == e.text@
                        &&& x.suggestion@ == e.suggestion@
                        &&& x.category@ == e.category@
                        &&& x.criticality == e.criticality
                        &&& x.context@ == e.context@
                        &&& x.explanation@ == e.explanation@
                    }
            },
            Err(e) => status matches JobStatus::Failed { error } && error@ == e@.message(),
        },
{
}

/// A poll of a job whose pipeline gave a transcript and an analysis shows these,
/// field by field, from the moment that the job is finished and through
/// everything that happens to the store afterwards, until a sweep drops it.
pub proof fn law_a_poll_shows_the_outcome(
    jobs: Map<u128, JobEntryView>,
    id: u128,
    outcome: JobOutcome,
    later: Seq<JobEvent>,
)
    requires
        jobs.contains_key(id),
        jobs[id].status is Pending || jobs[id].status is Processing,
        forall|k: int| 0 <= k < later.len() ==> !registers(#[trigger] later[k], id),
    ensures
        ({
            let finished = after_event(jobs, JobEvent::Finished { id, outcome });
            let then = after_job_events(finished, later);
            &&& finished.contains_key(id)
            &&& then.contains_key(id) ==> match outcome {
                Ok((transcript, analysis)) => then[id].status matches JobStatusView::Completed {
                    transcript: t,
                    analysis: a,
                } && {
                    &&& t.text == transcript.text@
                    &&& t.low_confidence_spans == transcript.low_confidence_spans@
                    &&& a.cefr_label == analysis.cefr_label@
                    &&& a.cefr_justification == analysis.cefr_justification@
                    &&& a.errors.len() == analysis.errors@.len()
                    &&& forall|i: int|
                        0 <= i < analysis.errors@.len() ==> {
                            let x = #[trigger] a.errors[i];
                            let e = analysis.errors@[i];
                            &&& x.text == e.text@
                            &&& x.suggestion == e.suggestion@
                            &&& x.category == e.category@
                            &&& x.criticality == e.criticality
                            &&& x.context == e.context@
                            &&& x.explanation == e.explanation@
                        }
                },
                Err(e) => then[id].status matches JobStatusView::Failed { error } && error
                    == e@.message(),
            }
        }),
{
    let finished = after_event(jobs, JobEvent::Finished { id, outcome });
    law_a_job_moves_forward(finished, later, id);
}

/// Each event changes just what it is about: registering makes a pending job,
/// starting makes a pending job a processing one, an outcome ends a job that is
/// pending or processing, and a job that is done is left alone.
pub proof fn law_events_change_one_status(
    jobs: Map<u128, JobEntryView>,
    id: u128,
    now: i128,
    status: JobStatusView,
)
    ensures
        with_job(jobs, id, now)[id].status is Pending,
        with_job(jobs, id, now)[id].created_at == now,
        with_job(jobs, id, now).dom() == jobs.dom().insert(id),
        jobs.contains_key(id) ==> {
            let was = jobs[id];
            let started = with_started(jobs, id);
            let finished = with_finished(jobs, id, status);
            &&& started.dom() == jobs.dom()
            &&& finished.dom() == jobs.dom()
            &&& started[id].created_at == was.created_at
            &&& finished[id].created_at == was.created_at
            &&& was.status is Pending ==> started[id].status is Processing
            &&& !(was.status is Pending) ==> started[id] == was
            &&& was.status is Pending || was.status is Processing ==> finished[id].status == status
            &&& was.status is Completed || was.status is Failed ==> finished[id] == was
            &&& is_running(jobs, id) <==> was.status is Pending || was.status is Processing
        },
        !jobs.contains_key(id) ==> {
            &&& with_started(jobs, id) == jobs
            &&& with_finished(jobs, id, status) == jobs
            &&& !is_running(jobs, id)
        },
{
    if jobs.contains_key(id) {
        assert(with_started(jobs, id).dom() =~= jobs.dom());
        assert(with_finished(jobs, id, status).dom() =~= jobs.dom());
    }
}

/// A sweep keeps what is pending or processing however old it is, and of what is
/// completed or failed just what is at most ten minutes old.
pub proof fn law_sweep_keeps_running_and_young_jobs(
    jobs: Map<u128, JobEntryView>,
    now: i128,
    id: u128,
)
    ensures
        swept(jobs, now).contains_key(id) <==> jobs.contains_key(id) && (jobs[id].status is Pending
            || jobs[id].status is Processing || 0 <= now - jobs[id].created_at <= 600_000_000_000),
        swept(jobs, now).contains_key(id) ==> swept(jobs, now)[id] == jobs[id],
{
}

/// A pipeline that succeeds gives the transcript that the transcriber gave for
/// the samples, unchanged, with the analysis that the analyzer gave for its text
/// with the doubted words marked; one that fails gives the error of the step
/// that failed, and later steps are not reached.
pub proof fn law_pipeline_hands_on_what_it_got<
    S,
    T: TranscriptionProvider<S>,
    A: AnalysisProvider,
>(decoded: Result<AudioSamples<S>, String>, transcription: &T, analysis: &A, r: JobOutcome)
    requires
        call_ensures(run_pipeline::<S, T, A>, (decoded, transcription, analysis), r),
    ensures
        match decoded {
            Err(message) => r matches Err(AppError::Audio(detail)) && detail@ == message@,
            Ok(samples) => {
                ||| r matches Err(e) && call_ensures(
                    T::transcribe,
                    (transcription, &samples),
                    TranscriptionResult::Err(e),
                )
                ||| exists|transcript: Transcript, text: &str, found: AnalysisResult|
                    {
                        &&& #[trigger] call_ensures(
                            T::transcribe,
                            (transcription, &samples),
                            TranscriptionResult::Ok(transcript),
                        )
                        &&& text@ == marks::marked(
                            transcript.text@,
                            transcript.low_confidence_spans@,
                        )
                        &&& #[trigger] call_ensures(A::analyze, (analysis, text), found)
                        &&& match found {
                            Ok(a) => r == JobOutcome::Ok((transcript, a)),
                            Err(e) => r == JobOutcome::Err(e),
                        }
                    }
            },
        },
{
    if let Ok(samples) = decoded {
        let transcribed = choose|transcribed: TranscriptionResult|
            {
                &&& #[trigger] call_ensures(
                    T::transcribe,
                    (transcription, &samples),
                    transcribed,
                )
                &&& follows_transcription(transcribed, analysis, r)
            };
        if let Ok(transcript) = transcribed {
            let (text, found) = choose|text: &str, found: AnalysisResult|
                {
                    &&& text@ == transcript@.analysis_text()
                    &&& #[trigger] call_ensures(A::analyze, (analysis, text), found)
                    &&& r == paired(transcript, found)
                };
        }
    }
}

} // verus!
