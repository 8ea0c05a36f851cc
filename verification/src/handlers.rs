//! What the backend answers to each request.

use crate::analysis_extract;
use crate::analysis_extract::ErrorObjectExtractor;
use crate::analysis_hub;
use crate::analysis_hub::{AnalysisHub, EntryView, HubEvent, HubEventView, HubSubscription};
use crate::ids;
use crate::ids::id_text;
use crate::jobs;
use crate::jobs::{
    status_of, JobEntryView, JobOutcome, JobStatus, JobStatusView, JobStore, JobTask, JOB_RETENTION,
};
use crate::providers;
use crate::providers::ollama;
use crate::providers::ollama::{error_item_from_json, ErrorJson};
use crate::providers::{Analysis, AnalysisView, AudioSamples, ErrorItem, ErrorItemView};
use crate::streams::{
    Chunk, FinalizeStep, PollView, SessionView, StreamStore, StreamStoreView, StreamView,
};
use crate::text;
use crate::text::{chars_of, same_text, string_of};
use vstd::prelude::*;
use vstd::string::*;

verus! {

/// Combined state behind the requests.
pub struct AppState<S> {
    pub jobs: JobStore,
    pub streams: StreamStore<S>,
    pub hub: AnalysisHub,
}

/// The body of an answer.
#[derive(Debug)]
pub enum Body {
    /// `{ "error": ... }`
    Error(String),
    /// `{ "status": ... }`
    Status(String),
    /// `{ "job_id": ... }`
    JobId(String),
    /// `{ "stream_id": ... }`
    StreamId(String),
    /// The status of a job.
    Job(JobStatus),
    /// `{ "status": "active", "partial_text": ..., "audio_seconds": ... }`
    Active { partial_text: String, audio_seconds: usize },
    /// `{ "status": "finalized", "job_id": ... }`
    Finalized { job_id: String },
}

/// An answer: its HTTP status code and its body.
#[derive(Debug)]
pub struct Reply {
    pub code: u16,
    pub body: Body,
}

/// The mathematical form of a body.
pub enum BodyView {
    Error(Seq<char>),
    Status(Seq<char>),
    JobId(Seq<char>),
    StreamId(Seq<char>),
    Job(JobStatusView),
    Active { partial_text: Seq<char>, audio_seconds: int },
    Finalized { job_id: Seq<char> },
}

/// The mathematical form of an answer.
pub struct ReplyView {
    pub code: u16,
    pub body: BodyView,
}

impl View for Body {
    type V = BodyView;

    open spec fn view(&self) -> BodyView {
        match self {
            Body::Error(e) => BodyView::Error(e@),
            Body::Status(s) => BodyView::Status(s@),
            Body::JobId(id) => BodyView::JobId(id@),
            Body::StreamId(id) => BodyView::StreamId(id@),
            Body::Job(status) => BodyView::Job(status@),
            Body::Active { partial_text, audio_seconds } => BodyView::Active {
                partial_text: partial_text@,
                audio_seconds: *audio_seconds as int,
            },
            Body::Finalized { job_id } => BodyView::Finalized { job_id: job_id@ },
        }
    }
}

impl View for Reply {
    type V = ReplyView;

    open spec fn view(&self) -> ReplyView {
        ReplyView { code: self.code, body: self.body@ }
    }
}

/// An answer that reports an error.
pub open spec fn error_reply(code: u16, message: Seq<char>) -> ReplyView {
    ReplyView { code, body: BodyView::Error(message) }
}

/// The answer to a poll of a job.
pub open spec fn job_reply(jobs: Map<u128, JobEntryView>, id: u128) -> ReplyView {
    if jobs.contains_key(id) {
        ReplyView { code: 200, body: BodyView::Job(jobs[id].status) }
    } else {
        error_reply(404, "job not found"@)
    }
}

/// The answer to a poll of a session.
pub open spec fn stream_reply<S>(
    sessions: Map<u128, SessionView<S>>,
    jobs: Map<u128, JobEntryView>,
    id: u128,
) -> ReplyView {
    if sessions.contains_key(id) {
        ReplyView {
            code: 200,
            body: match sessions[id].shown(jobs) {
                PollView::Active { partial_text, audio_seconds } => BodyView::Active {
                    partial_text,
                    audio_seconds,
                },
                PollView::Finished(status) => BodyView::Job(status),
            },
        }
    } else {
        error_reply(404, "stream not found"@)
    }
}

/// `POST /jobs`: accepts an audio upload and registers an analysis job. The
/// body is the raw audio bytes.
pub fn submit_job<S>(state: &mut AppState<S>, body: Vec<u8>, now: i128) -> (r: (
    Reply,
    Option<JobTask<Vec<u8>>>,
))
    ensures
        final(state).streams == old(state).streams,
        final(state).hub == old(state).hub,
        if body@.len() == 0 {
            &&& r.0@ == error_reply(422, "empty audio body"@)
            &&& r.1 is None
            &&& final(state).jobs@ == old(state).jobs@
        } else {
            r.1 matches Some(task) && {
                &&& ids::is_random_uuid(task.id)
                &&& task.input@ == body@
                &&& r.0@ == (ReplyView {
                    code: 202,
                    body: BodyView::JobId(ids::hyphenated(task.id)),
                })
                &&& final(state).jobs@ == jobs::with_job(old(state).jobs@, task.id, now)
            }
        },
{
    if body.len() == 0 {
        return (Reply { code: 422, body: Body::Error("empty audio body".to_owned()) }, None);
    }
    let task = state.jobs.submit(body, now);
    (Reply { code: 202, body: Body::JobId(id_text(task.id)) }, Some(task))
}

/// `GET /jobs/{id}`: polls the status of a job.
pub fn get_job<S>(state: &AppState<S>, id: u128) -> (r: Reply)
    ensures
        r@ == job_reply(state.jobs@, id),
{
    match state.jobs.get(id) {
        Some(status) => Reply { code: 200, body: Body::Job(status) },
        None => Reply { code: 404, body: Body::Error("job not found".to_owned()) },
    }
}

/// `GET /health`: liveness probe.
pub fn health() -> (r: Reply)
    ensures
        r@ == (ReplyView { code: 200, body: BodyView::Status("ok"@) }),
{
    Reply { code: 200, body: Body::Status("ok".to_owned()) }
}

/// `POST /streams`: opens a new streaming session.
pub fn create_stream<S: Copy>(state: &mut AppState<S>, now: i128) -> (r: Reply)
    requires
        old(state).streams@.wf(),
    ensures
        final(state).streams@.wf(),
        final(state).jobs == old(state).jobs,
        final(state).hub == old(state).hub,
        exists|id: u128|
            {
                &&& #[trigger] ids::is_random_uuid(id)
                &&& r@ == (ReplyView { code: 201, body: BodyView::StreamId(ids::hyphenated(id)) })
                &&& final(state).streams@ == old(state).streams@.with(id, SessionView::opened(now))
            },
{
    let id: u128 = state.streams.create(now);
    assert(ids::is_random_uuid(id));
    Reply { code: 201, body: Body::StreamId(id_text(id)) }
}

/// A message that came over a session's WebSocket.
pub enum SocketMessage<S> {
    /// A binary message, decoded: a chunk of audio, or why it is none.
    Audio(Result<Chunk<S>, String>),
    Text(String),
    /// Some other message.
    Other,
    /// The socket failed.
    Failed,
}

/// What follows from a message.
#[derive(Debug)]
pub enum SocketStep {
    /// The next message is awaited.
    GoOn,
    /// A draft pass is to be run, and the next message is awaited.
    RunPartial,
    /// The socket is to be closed.
    Close,
    /// The chunk is refused for this reason, and the socket is to be closed.
    Refuse(String),
}

/// The mathematical form of what follows from a message.
pub enum SocketStepView {
    GoOn,
    RunPartial,
    Close,
    Refuse(Seq<char>),
}

impl View for SocketStep {
    type V = SocketStepView;

    open spec fn view(&self) -> SocketStepView {
        match self {
            SocketStep::GoOn => SocketStepView::GoOn,
            SocketStep::RunPartial => SocketStepView::RunPartial,
            SocketStep::Close => SocketStepView::Close,
            SocketStep::Refuse(reason) => SocketStepView::Refuse(reason@),
        }
    }
}

/// What follows from a message on the session `id`.
pub open spec fn socket_step<S>(
    streams: StreamStoreView<S>,
    id: u128,
    message: SocketMessage<S>,
) -> SocketStepView {
    match message {
        SocketMessage::Audio(Ok(chunk)) => if !streams.sessions.contains_key(id) {
            SocketStepView::Refuse("stream not found"@)
        } else if streams.sessions[id].is_due(
            chunk.samples@,
            chunk.loud,
            streams.interval as int,
        ) {
            SocketStepView::RunPartial
        } else {
            SocketStepView::GoOn
        },
        SocketMessage::Audio(Err(reason)) => SocketStepView::Refuse(reason@),
        SocketMessage::Text(text) => if text@ == "done"@ {
            SocketStepView::Close
        } else {
            SocketStepView::GoOn
        },
        SocketMessage::Other => SocketStepView::GoOn,
        SocketMessage::Failed => SocketStepView::Close,
    }
}

/// The sessions after a message on the session `id`: a chunk of audio is
/// appended, and no other message changes any.
pub open spec fn after_message<S>(
    streams: StreamStoreView<S>,
    id: u128,
    message: SocketMessage<S>,
) -> StreamStoreView<S> {
    match message {
        SocketMessage::Audio(Ok(chunk)) => if streams.sessions.contains_key(id) {
            streams.with(
                id,
                streams.sessions[id].appended(
                    chunk.samples@,
                    chunk.loud,
                    streams.interval as int,
                ),
            )
        } else {
            streams
        },
        _ => streams,
    }
}

/// Takes in a message of a session's WebSocket: binary messages are chunks of
/// audio, a text message "done" ends the recording side.
pub fn on_socket_message<S: Copy>(
    state: &mut AppState<S>,
    id: u128,
    message: SocketMessage<S>,
) -> (step: SocketStep)
    requires
        old(state).streams@.wf(),
    ensures
        step@ == socket_step(old(state).streams@, id, message),
        final(state).streams@ == after_message(old(state).streams@, id, message),
        final(state).streams@.wf(),
        final(state).jobs == old(state).jobs,
        final(state).hub == old(state).hub,
{
    match message {
        SocketMessage::Audio(chunk) => match state.streams.append(id, chunk) {
            Ok(due) => if due {
                SocketStep::RunPartial
            } else {
                SocketStep::GoOn
            },
            Err(reason) => SocketStep::Refuse(reason),
        },
        SocketMessage::Text(text) => if same_text(text.as_str(), "done") {
            SocketStep::Close
        } else {
            SocketStep::GoOn
        },
        SocketMessage::Other => SocketStep::GoOn,
        SocketMessage::Failed => SocketStep::Close,
    }
}

/// `GET /streams/{id}`: polls a session. While recording this shows the draft;
/// once finalized the answer has the shape of a job's.
pub fn get_stream<S: Copy>(state: &AppState<S>, id: u128) -> (r: Reply)
    ensures
        r@ == stream_reply(state.streams@.sessions, state.jobs@, id),
{
    match state.streams.get(&state.jobs, id) {
        Some(StreamView::Active { partial_text, audio_seconds }) => Reply {
            code: 200,
            body: Body::Active { partial_text, audio_seconds },
        },
        Some(StreamView::Finished(status)) => Reply { code: 200, body: Body::Job(status) },
        None => Reply { code: 404, body: Body::Error("stream not found".to_owned()) },
    }
}

/// The answer that names the job of a finalized session.
pub open spec fn finalized_reply(job: u128) -> ReplyView {
    ReplyView { code: 200, body: BodyView::Finalized { job_id: ids::hyphenated(job) } }
}

/// `POST /streams/{id}`: stops recording; the full pipeline is to be run on
/// the audio. Asked again, it names the same job and hands out no task.
pub fn finalize_stream<S: Copy>(state: &mut AppState<S>, id: u128, now: i128) -> (r: (
    Reply,
    Option<JobTask<AudioSamples<S>>>,
))
    requires
        old(state).streams@.wf(),
    ensures
        final(state).streams@.wf(),
        final(state).hub == old(state).hub,
        ({
            let streams = old(state).streams@;
            let unchanged = final(state).streams@ == streams && final(state).jobs@ == old(
                state,
            ).jobs@;
            if !streams.sessions.contains_key(id) {
                r.0@ == error_reply(400, "stream not found"@) && r.1 is None && unchanged
            } else {
                let session = streams.sessions[id];
                match session.finalize_step(streams.max_samples) {
                    FinalizeStep::Again(job) => r.0@ == finalized_reply(job) && r.1 is None
                        && unchanged,
                    FinalizeStep::Refused(message) => r.0@ == error_reply(400, message)
                        && r.1 is None && unchanged,
                    FinalizeStep::Closed(message) => {
                        &&& r.0@ == error_reply(400, message)
                        &&& r.1 is None
                        &&& final(state).streams@ == streams.with(id, session.closed_with(message))
                        &&& final(state).jobs@ == old(state).jobs@
                    },
                    FinalizeStep::Handed => r.1 matches Some(task) && {
                        &&& ids::is_random_uuid(task.id)
                        &&& r.0@ == finalized_reply(task.id)
                        &&& task.input.samples@ == session.samples
                        &&& final(state).streams@ == streams.with(id, session.handed_to(task.id))
                        &&& final(state).jobs@ == jobs::with_job(old(state).jobs@, task.id, now)
                    },
                }
            }
        }),
{
    match state.streams.finalize(&mut state.jobs, id, now) {
        Ok(finalized) => (
            Reply { code: 200, body: Body::Finalized { job_id: id_text(finalized.job) } },
            finalized.task,
        ),
        Err(e) => (Reply { code: 400, body: Body::Error(e) }, None),
    }
}

/// Notes that the pipeline of a job has started.
pub fn start_job<S>(state: &mut AppState<S>, id: u128)
    ensures
        final(state).streams == old(state).streams,
        final(state).hub == old(state).hub,
        final(state).jobs@ == jobs::with_started(old(state).jobs@, id),
{
    state.jobs.start(id);
}

/// Takes in what the pipeline of a job gave, all at one time: the job is done,
/// an analysis is sent to those who follow it, and the session that the job
/// came from, if any, remembers how it ended. A job that is done already stays
/// as it is.
pub fn finish_job<S: Copy>(state: &mut AppState<S>, id: u128, outcome: JobOutcome, now: i128)
    requires
        old(state).streams@.wf(),
    ensures
        final(state).streams@.wf(),
        analysis_hub::same_listeners(old(state).hub, final(state).hub),
        ({
            let status = jobs::status_after(outcome);
            if jobs::is_running(old(state).jobs@, id) {
                &&& final(state).jobs@ == jobs::with_finished(old(state).jobs@, id, status)
                &&& final(state).streams@ == old(state).streams@.settled(id, status)
                &&& final(state).hub@ == match outcome {
                    Ok(pair) => analysis_hub::with_event(
                        old(state).hub@,
                        id,
                        now,
                        HubEventView::Done(pair.1@),
                    ),
                    Err(_) => old(state).hub@,
                }
            } else {
                &&& final(state).jobs@ == old(state).jobs@
                &&& final(state).streams@ == old(state).streams@
                &&& final(state).hub@ == old(state).hub@
            }
        }),
{
    if !state.jobs.running(id) {
        return;
    }
    if let Ok(pair) = &outcome {
        state.hub.push_done(id, pair.1.clone(), now);
    }
    let status = status_of(outcome);
    state.streams.settle(id, &status);
    state.jobs.finish(id, status);
}

/// Drops what the stores have kept long enough. Called on a timer.
pub fn sweep<S: Copy>(state: &mut AppState<S>, now: i128)
    requires
        old(state).streams@.wf(),
    ensures
        final(state).streams@.wf(),
        final(state).jobs@ == jobs::swept(old(state).jobs@, now),
        final(state).streams@ == old(state).streams@.swept(now),
        final(state).hub@ == analysis_hub::swept(old(state).hub@, now, jobs::JOB_RETENTION),
        analysis_hub::same_listeners(old(state).hub, final(state).hub),
{
    state.jobs.sweep(now);
    state.streams.sweep(now);
    state.hub.sweep(now, JOB_RETENTION);
}

/// What a subscriber of a job's analysis gets.
#[derive(Debug)]
pub enum FeedStep {
    /// These objects of the model's answer are complete: each that is an error
    /// is to be sent, and the feed goes on.
    Objects(Vec<String>),
    /// The analysis is to be sent, and the feed is to be closed.
    Done(Analysis),
    /// The feed is to be closed.
    Close,
    /// The next event is awaited.
    Follow,
    /// The subscription is to be made anew, and the feed catches up with what
    /// it missed.
    Rejoin,
}

/// The mathematical form of a step of a feed.
pub enum FeedStepView {
    Objects(Seq<Seq<char>>),
    Done(AnalysisView),
    Close,
    Follow,
    Rejoin,
}

impl View for FeedStep {
    type V = FeedStepView;

    open spec fn view(&self) -> FeedStepView {
        match self {
            FeedStep::Objects(objects) => FeedStepView::Objects(text::texts(objects@)),
            FeedStep::Done(analysis) => FeedStepView::Done(analysis@),
            FeedStep::Close => FeedStepView::Close,
            FeedStep::Follow => FeedStepView::Follow,
            FeedStep::Rejoin => FeedStepView::Rejoin,
        }
    }
}

/// What a subscriber gets of a job in this state: the analysis once the job is
/// completed, nothing more once it failed, and what is to come as long as it
/// runs.
pub open spec fn settled(status: JobStatusView) -> FeedStepView {
    match status {
        JobStatusView::Completed { analysis, .. } => FeedStepView::Done(analysis),
        JobStatusView::Failed { .. } => FeedStepView::Close,
        JobStatusView::Pending | JobStatusView::Processing => FeedStepView::Follow,
    }
}

fn settle(status: JobStatus) -> (step: FeedStep)
    ensures
        step@ == settled(status@),
{
    match status {
        JobStatus::Completed { result } => FeedStep::Done(result.analysis),
        JobStatus::Failed { .. } => FeedStep::Close,
        JobStatus::Pending | JobStatus::Processing => FeedStep::Follow,
    }
}

/// How a subscription to a job's analysis begins.
pub enum AnalysisStart {
    /// There is no such job.
    Refused(Reply),
    /// The job is settled: the analysis is to be sent.
    Done(Analysis),
    /// The job failed: there is nothing to send.
    Close,
    /// The job runs: what was generated so far is to be replayed, and what
    /// comes next is to be followed.
    Live(HubSubscription),
}

/// `GET /jobs/{id}/analysis/stream`: subscribes to the analysis of a job while
/// it is being generated. A settled result is served directly.
pub fn analysis_stream<S>(state: &mut AppState<S>, job: u128, now: i128) -> (start: AnalysisStart)
    ensures
        final(state).jobs == old(state).jobs,
        final(state).streams == old(state).streams,
        analysis_hub::same_listeners(old(state).hub, final(state).hub),
        ({
            let jobs = old(state).jobs@;
            let hub = old(state).hub@;
            if !jobs.contains_key(job) {
                &&& start matches AnalysisStart::Refused(reply) && reply@ == error_reply(
                    404,
                    "job not found"@,
                )
                &&& final(state).hub@ == hub
            } else {
                match settled(jobs[job].status) {
                    FeedStepView::Done(analysis) => {
                        &&& start matches AnalysisStart::Done(a) && a@ == analysis
                        &&& final(state).hub@ == hub
                    },
                    FeedStepView::Close => start is Close && final(state).hub@ == hub,
                    _ => {
                        let stream = analysis_hub::stream_of(hub, job, now);
                        &&& final(state).hub@ == hub.insert(job, stream)
                        &&& match stream.settled {
                            Some(analysis) => start matches AnalysisStart::Done(a) && a@
                                == analysis,
                            None => start matches AnalysisStart::Live(sub) && {
                                &&& text::texts(sub.past_deltas@) == stream.deltas
                                &&& sub.settled is None
                                &&& final(state).hub.feeds(job, sub.rx)
                                &&& analysis_hub::attached_at(sub.rx) == stream.sent.len()
                            },
                        }
                    },
                }
            }
        }),
{
    match state.jobs.get(job) {
        None => AnalysisStart::Refused(
            Reply { code: 404, body: Body::Error("job not found".to_owned()) },
        ),
        Some(status) => match settle(status) {
            FeedStep::Done(analysis) => AnalysisStart::Done(analysis),
            FeedStep::Close => AnalysisStart::Close,
            _ => {
                let sub = state.hub.subscribe(job, now);
                match sub.settled {
                    Some(analysis) => AnalysisStart::Done(analysis),
                    None => AnalysisStart::Live(sub),
                }
            },
        },
    }
}

/// What a subscriber gets after the replay: a job that settled in between is
/// served directly, so that nobody waits for an event that was sent already.
pub fn after_replay<S>(state: &AppState<S>, job: u128) -> (step: FeedStep)
    ensures
        step@ == if state.jobs@.contains_key(job) {
            settled(state.jobs@[job].status)
        } else {
            FeedStepView::Follow
        },
{
    match state.jobs.get(job) {
        Some(status) => settle(status),
        None => FeedStep::Follow,
    }
}

/// One subscriber's reading of the model's answer.
pub struct AnalysisFeed {
    extractor: ErrorObjectExtractor,
}

impl View for AnalysisFeed {
    type V = analysis_extract::ScanState;

    closed spec fn view(&self) -> analysis_extract::ScanState {
        self.extractor@
    }
}

/// What a subscriber's receiver gives.
pub enum FeedEvent {
    /// An event of the hub.
    Hub(HubEvent),
    /// The subscriber was too slow, and events are lost to its receiver.
    Lagged,
    /// The stream is no longer there.
    Closed,
}

/// The mathematical form of what a receiver gives.
pub enum FeedEventView {
    Hub(HubEventView),
    Lagged,
    Closed,
}

impl View for FeedEvent {
    type V = FeedEventView;

    open spec fn view(&self) -> FeedEventView {
        match self {
            FeedEvent::Hub(event) => FeedEventView::Hub(event@),
            FeedEvent::Lagged => FeedEventView::Lagged,
            FeedEvent::Closed => FeedEventView::Closed,
        }
    }
}

/// What a subscriber whose reading stands at `st` gets when this comes.
pub open spec fn feed_step(st: analysis_extract::ScanState, event: FeedEventView) -> FeedStepView {
    match event {
        FeedEventView::Hub(HubEventView::Delta(delta)) => FeedStepView::Objects(st.objects(delta)),
        FeedEventView::Hub(HubEventView::Done(analysis)) => FeedStepView::Done(analysis),
        FeedEventView::Lagged => FeedStepView::Rejoin,
        FeedEventView::Closed => FeedStepView::Close,
    }
}

/// Where the reading stands then.
pub open spec fn feed_next(
    st: analysis_extract::ScanState,
    event: FeedEventView,
) -> analysis_extract::ScanState {
    match event {
        FeedEventView::Hub(HubEventView::Delta(delta)) => st.run(delta),
        _ => st,
    }
}

/// What a reading has not reached yet of the text `all`.
pub open spec fn unread(st: analysis_extract::ScanState, all: Seq<char>) -> Seq<char> {
    if st.buf.len() <= all.len() {
        all.skip(st.buf.len() as int)
    } else {
        Seq::empty()
    }
}

/// The chunks put together.
pub open spec fn joined(chunks: Seq<Seq<char>>) -> Seq<char>
    decreases chunks.len(),
{
    if chunks.len() == 0 {
        Seq::empty()
    } else {
        joined(chunks.drop_last()) + chunks.last()
    }
}

impl AnalysisFeed {
    /// A reading that has not begun.
    pub fn new() -> (feed: AnalysisFeed)
        ensures
            feed@ == analysis_extract::ScanState::start(),
            feed@.wf(),
    {
        AnalysisFeed { extractor: ErrorObjectExtractor::default() }
    }

    /// Reads what the reading has not reached yet of the chunks that were
    /// generated so far: all of them when it begins, and what was missed in
    /// between when the subscriber joins again. Returns the objects that are
    /// completed.
    pub fn catch_up(&mut self, past_deltas: &Vec<String>) -> (objects: Vec<String>)
        requires
            old(self)@.wf(),
        ensures
            ({
                let rest = unread(old(self)@, joined(text::texts(past_deltas@)));
                &&& final(self)@ == old(self)@.run(rest)
                &&& text::texts(objects@) == old(self)@.objects(rest)
            }),
            final(self)@.wf(),
    {
        let ghost chunks = text::texts(past_deltas@);
        let mut all = String::new();
        let mut i: usize = 0;
        assert(all@ =~= joined(chunks.take(0)));
        while i < past_deltas.len()
            invariant
                i <= past_deltas@.len(),
                chunks == text::texts(past_deltas@),
                all@ == joined(chunks.take(i as int)),
            decreases past_deltas@.len() - i,
        {
            all.append(past_deltas[i].as_str());
            proof {
                let next = chunks.take(i as int + 1);
                assert(next.drop_last() =~= chunks.take(i as int));
                assert(next.last() == past_deltas@[i as int]@);
            }
            i += 1;
        }
        assert(chunks.take(i as int) =~= chunks);
        let chars = chars_of(all.as_str());
        let read: usize = self.extractor.read_len();
        if read >= chars.len() {
            assert(unread(self@, all@) =~= Seq::<char>::empty());
            let none: Vec<String> = Vec::new();
            assert(text::texts(none@) =~= Seq::<Seq<char>>::empty());
            return none;
        }
        let rest = string_of(chars.as_slice(), read, chars.len());
        assert(rest@ =~= unread(self@, all@));
        self.extractor.feed(rest.as_str())
    }

    /// Reads what came next.
    pub fn on_event(&mut self, event: FeedEvent) -> (step: FeedStep)
        requires
            old(self)@.wf(),
        ensures
            final(self)@.wf(),
            step@ == feed_step(old(self)@, event@),
            final(self)@ == feed_next(old(self)@, event@),
    {
        match event {
            FeedEvent::Hub(HubEvent::Delta(delta)) => FeedStep::Objects(
                self.extractor.feed(delta.as_str()),
            ),
            FeedEvent::Hub(HubEvent::Done(analysis)) => FeedStep::Done(analysis),
            FeedEvent::Lagged => FeedStep::Rejoin,
            FeedEvent::Closed => FeedStep::Close,
        }
    }
}

/// The errors among these objects of the model's answer that are shown, where
/// `None` stands for one that is no error.
pub open spec fn boxes(parsed: Seq<Option<ErrorItemView>>) -> Seq<ErrorItemView> {
    parsed.filter_map(
        |p: Option<ErrorItemView>|
            match p {
                Some(e) => ollama::live_item(e),
                None => None,
            },
    )
}

/// The mathematical form of objects that were tried as errors.
pub open spec fn parsed_views(parsed: Seq<Option<ErrorJson>>) -> Seq<Option<ErrorItemView>> {
    parsed.map_values(
        |p: Option<ErrorJson>|
            match p {
                Some(e) => Some(e@),
                None => None,
            },
    )
}

/// The error boxes to send for these objects of the model's answer, each
/// having been tried as an error.
pub fn error_boxes(parsed: Vec<Option<ErrorJson>>) -> (out: Vec<ErrorItem>)
    ensures
        providers::items(out@) == boxes(parsed_views(parsed@)),
{
    let ghost views = parsed_views(parsed@);
    let ghost shows = |p: Option<ErrorItemView>|
        match p {
            Some(e) => ollama::live_item(e),
            None => None,
        };
    let mut out: Vec<ErrorItem> = Vec::new();
    assert(views.take(0).filter_map(shows) =~= Seq::<ErrorItemView>::empty()) by {
        reveal(Seq::filter_map);
    }
    assert(providers::items(out@) =~= Seq::<ErrorItemView>::empty());
    for p in it: parsed
        invariant
            it.seq() == parsed@,
            views == parsed_views(parsed@),
            shows == (|p: Option<ErrorItemView>|
                match p {
                    Some(e) => ollama::live_item(e),
                    None => None,
                }),
            providers::items(out@) == views.take(it.index()).filter_map(shows),
    {
        let ghost before = providers::items(out@);
        let ghost n = it.index();
        assert(views[n] == parsed_views(seq![p])[0]);
        proof {
            views.lemma_filter_map_take_succ(shows, n);
        }
        if let Some(item) = error_item_from_json(p) {
            out.push(item);
            assert(providers::items(out@) =~= before.push(item@));
        }
    }
    assert(views.take(views.len() as int) =~= views);
    out
}

proof fn lemma_joined_add(a: Seq<Seq<char>>, b: Seq<Seq<char>>)
    ensures
        joined(a + b) == joined(a) + joined(b),
    decreases b.len(),
{
    if b.len() == 0 {
        assert(a + b =~= a);
        assert(joined(a) + joined(b) =~= joined(a));
    } else {
        lemma_joined_add(a, b.drop_last());
        assert((a + b).drop_last() =~= a + b.drop_last());
        assert(joined(a) + joined(b) =~= joined(a) + joined(b.drop_last()) + b.last());
    }
}

/// Whenever a subscriber joins while an analysis is being generated, it gets
/// the same objects in the same order: what the replay completes, followed by
/// what the later chunks complete, is what all the chunks complete.
pub proof fn law_late_joiner_sees_every_object(stream: EntryView, later: Seq<HubEventView>)
    requires
        stream.wf(),
        forall|i: int| 0 <= i < later.len() ==> (#[trigger] later[i]) is Delta,
    ensures
        ({
            let start = analysis_extract::ScanState::start();
            let past = joined(stream.deltas);
            let live = joined(analysis_hub::deltas_of(later));
            let all = joined(analysis_hub::unsettled(stream.sent + later));
            &&& unread(start, past) == past
            &&& start.objects(past) + start.run(past).objects(live) == start.objects(all)
            &&& start.run(past).run(live) == start.run(all)
        }),
{
    let start = analysis_extract::ScanState::start();
    analysis_hub::law_late_joiner_misses_nothing(stream, later);
    lemma_joined_add(stream.deltas, analysis_hub::deltas_of(later));
    analysis_extract::law_chunks(
        start,
        joined(stream.deltas),
        joined(analysis_hub::deltas_of(later)),
    );
    assert(unread(start, joined(stream.deltas)) =~= joined(stream.deltas));
}

/// A subscriber that was too slow misses nothing either: what it read before,
/// followed by what it catches up with when it joins again, is what all the
/// chunks complete.
pub proof fn law_slow_subscriber_catches_up(read: Seq<Seq<char>>, missed: Seq<Seq<char>>)
    ensures
        ({
            let start = analysis_extract::ScanState::start();
            let st = start.run(joined(read));
            let all = joined(read + missed);
            let rest = unread(st, all);
            &&& rest == joined(missed)
            &&& start.objects(joined(read)) + st.objects(rest) == start.objects(all)
            &&& st.run(rest) == start.run(all)
        }),
{
    let start = analysis_extract::ScanState::start();
    let before = joined(read);
    lemma_joined_add(read, missed);
    analysis_extract::law_text_is_kept(start, before);
    assert(start.run(before).buf =~= before);
    assert(unread(start.run(before), joined(read + missed)) =~= joined(missed));
    analysis_extract::law_chunks(start, before, joined(missed));
}

/// The events that a live feed is given: the chunks, and the final analysis.
pub open spec fn live_events(deltas: Seq<Seq<char>>, analysis: AnalysisView) -> Seq<FeedEventView> {
    deltas.map_values(|d: Seq<char>| FeedEventView::Hub(HubEventView::Delta(d))).push(
        FeedEventView::Hub(HubEventView::Done(analysis)),
    )
}

/// Where a reading stands after these events.
pub open spec fn after_feed_events(
    st: analysis_extract::ScanState,
    events: Seq<FeedEventView>,
) -> analysis_extract::ScanState
    decreases events.len(),
{
    if events.len() == 0 {
        st
    } else {
        feed_next(after_feed_events(st, events.drop_last()), events.last())
    }
}

/// The objects that a subscriber is handed while these events come, in order.
pub open spec fn objects_handed(
    st: analysis_extract::ScanState,
    events: Seq<FeedEventView>,
) -> Seq<Seq<char>>
    decreases events.len(),
{
    if events.len() == 0 {
        Seq::empty()
    } else {
        let before = after_feed_events(st, events.drop_last());
        objects_handed(st, events.drop_last()) + match feed_step(before, events.last()) {
            FeedStepView::Objects(objects) => objects,
            _ => Seq::empty(),
        }
    }
}

/// What a subscriber is sent for these objects, where `parse` tries an object
/// as an error.
pub open spec fn boxes_of(
    objects: Seq<Seq<char>>,
    parse: spec_fn(Seq<char>) -> Option<ErrorItemView>,
) -> Seq<ErrorItemView> {
    boxes(objects.map_values(parse))
}

/// A live analysis is sent whole: with `past` replayed, the chunks `deltas` and
/// then the final analysis coming, the subscriber is sent the box of every
/// object, in closing order, that one fresh extractor finds in all the chunks
/// and that is an error, and at last the analysis, which ends the feed.
pub proof fn law_live_analysis_is_sent_whole(
    past: Seq<Seq<char>>,
    deltas: Seq<Seq<char>>,
    analysis: AnalysisView,
    parse: spec_fn(Seq<char>) -> Option<ErrorItemView>,
)
    ensures
        ({
            let start = analysis_extract::ScanState::start();
            let replayed = start.objects(unread(start, joined(past)));
            let st = start.run(unread(start, joined(past)));
            let events = live_events(deltas, analysis);
            let handed = objects_handed(st, events);
            &&& replayed + handed == start.objects(joined(past + deltas))
            &&& boxes_of(replayed, parse) + boxes_of(handed, parse) == boxes_of(
                start.objects(joined(past + deltas)),
                parse,
            )
            &&& forall|k: int|
                0 <= k < deltas.len() ==> feed_step(
                    after_feed_events(st, #[trigger] events.take(k)),
                    events[k],
                ) is Objects
            &&& feed_step(after_feed_events(st, events.drop_last()), events.last())
                == FeedStepView::Done(analysis)
        }),
{
    let start = analysis_extract::ScanState::start();
    let before = joined(past);
    assert(unread(start, before) =~= before);
    let st = start.run(before);
    let events = live_events(deltas, analysis);
    let live = deltas.map_values(|d: Seq<char>| FeedEventView::Hub(HubEventView::Delta(d)));
    assert(events.drop_last() =~= live);
    lemma_feed_of_deltas(st, deltas);
    lemma_joined_add(past, deltas);
    analysis_extract::law_chunks(start, before, joined(deltas));
    let replayed = start.objects(before);
    let handed = objects_handed(st, events);
    assert(handed =~= st.objects(joined(deltas)));
    lemma_boxes_add(replayed.map_values(parse), handed.map_values(parse));
    assert((replayed + handed).map_values(parse) =~= replayed.map_values(parse)
        + handed.map_values(parse));
    assert forall|k: int| 0 <= k < deltas.len() implies feed_step(
        after_feed_events(st, #[trigger] events.take(k)),
        events[k],
    ) is Objects by {
        assert(events[k] == live[k]);
    }
}

proof fn lemma_feed_of_deltas(st: analysis_extract::ScanState, deltas: Seq<Seq<char>>)
    ensures
        ({
            let events = deltas.map_values(
                |d: Seq<char>| FeedEventView::Hub(HubEventView::Delta(d)),
            );
            &&& after_feed_events(st, events) == st.run(joined(deltas))
            &&& objects_handed(st, events) == st.objects(joined(deltas))
        }),
    decreases deltas.len(),
{
    let events = deltas.map_values(|d: Seq<char>| FeedEventView::Hub(HubEventView::Delta(d)));
    if deltas.len() > 0 {
        let front = deltas.drop_last();
        lemma_feed_of_deltas(st, front);
        assert(events.drop_last() =~= front.map_values(
            |d: Seq<char>| FeedEventView::Hub(HubEventView::Delta(d)),
        ));
        analysis_extract::law_chunks(st, joined(front), deltas.last());
    }
}

proof fn lemma_boxes_add(a: Seq<Option<ErrorItemView>>, b: Seq<Option<ErrorItemView>>)
    ensures
        boxes(a + b) == boxes(a) + boxes(b),
    decreases b.len(),
{
    if b.len() == 0 {
        assert(a + b =~= a);
        assert(boxes(a) + boxes(b) =~= boxes(a));
    } else {
        lemma_boxes_add(a, b.drop_last());
        assert((a + b).drop_last() =~= a + b.drop_last());
        assert((a + b).last() == b.last());
        assert(boxes(a + b) =~= boxes(a) + boxes(b));
    }
}

/// Whoever joins after a job is completed is sent its analysis, and nobody
/// waits on a job that is done.
pub proof fn law_settled_jobs_are_served_at_once(status: JobStatusView)
    requires
        status.is_done(),
    ensures
        !(settled(status) is Follow),
        status matches JobStatusView::Completed { analysis, .. } ==> settled(status)
            == FeedStepView::Done(analysis),
{
}

/// An unknown id is answered by 404 on every poll, and a known one never is.
pub proof fn law_unknown_ids_are_not_found<S>(
    sessions: Map<u128, SessionView<S>>,
    jobs: Map<u128, JobEntryView>,
    id: u128,
)
    ensures
        job_reply(jobs, id).code == 404 <==> !jobs.contains_key(id),
        stream_reply(sessions, jobs, id).code == 404 <==> !sessions.contains_key(id),
{
}

/// A job that was just accepted is found by a poll, and so is a session that
/// was just opened.
pub proof fn law_what_is_accepted_is_found<S>(
    streams: StreamStoreView<S>,
    jobs: Map<u128, JobEntryView>,
    id: u128,
    now: i128,
)
    ensures
        job_reply(jobs::with_job(jobs, id, now), id) == (ReplyView {
            code: 200,
            body: BodyView::Job(JobStatusView::Pending),
        }),
        stream_reply(streams.with(id, SessionView::opened(now)).sessions, jobs, id) == (ReplyView {
            code: 200,
            body: BodyView::Active { partial_text: Seq::empty(), audio_seconds: 0 },
        }),
{
}

/// Nobody waits for an analysis that was sent already: a stream without a
/// settled result, which is all that is followed live, has sent chunks only.
pub proof fn law_nobody_waits_in_vain(stream: EntryView)
    requires
        stream.wf(),
        stream.settled is None,
    ensures
        forall|i: int| 0 <= i < stream.sent.len() ==> (#[trigger] stream.sent[i]) is Delta,
{
    lemma_without_analysis(stream.sent);
}

proof fn lemma_without_analysis(events: Seq<HubEventView>)
    requires
        analysis_hub::last_analysis(events) is None,
    ensures
        forall|i: int| 0 <= i < events.len() ==> (#[trigger] events[i]) is Delta,
    decreases events.len(),
{
    if events.len() > 0 {
        let front = events.drop_last();
        lemma_without_analysis(front);
        assert forall|i: int| 0 <= i < events.len() implies (#[trigger] events[i]) is Delta by {
            if i < front.len() {
                assert(front[i] == events[i]);
            }
        }
    }
}

/// Every finalized session either knows how its job ended, or its job still
/// runs.
pub open spec fn sessions_follow<S>(
    streams: StreamStoreView<S>,
    jobs: Map<u128, JobEntryView>,
) -> bool {
    &&& streams.wf()
    &&& forall|id: u128|
        streams.sessions.contains_key(id) ==> ((
        #[trigger] streams.sessions[id]).final_job_id matches Some(job) ==> (
        streams.sessions[id].final_status is None ==> jobs::is_running(jobs, job)))
}

/// The sessions follow their jobs, whatever happens: that a job is registered,
/// starts or is finished, that a session is opened, goes on recording, becomes
/// the job `id` or is refused, and that the stores are swept.
pub proof fn law_sessions_follow_their_jobs<S>(
    streams: StreamStoreView<S>,
    jobs: Map<u128, JobEntryView>,
    session: u128,
    id: u128,
    outcome: JobOutcome,
    samples: Seq<S>,
    loud: bool,
    text: Option<Seq<char>>,
    now: i128,
)
    requires
        sessions_follow(streams, jobs),
    ensures
        sessions_follow(streams, jobs::with_job(jobs, id, now)),
        sessions_follow(streams, jobs::with_started(jobs, id)),
        jobs::is_running(jobs, id) ==> sessions_follow(
            streams.settled(id, jobs::status_after(outcome)),
            jobs::with_finished(jobs, id, jobs::status_after(outcome)),
        ),
        sessions_follow(streams, jobs::swept(jobs, now)),
        sessions_follow(streams.swept(now), jobs),
        sessions_follow(streams.with(session, SessionView::opened(now)), jobs),
        streams.sessions.contains_key(session) ==> {
            let s = streams.sessions[session];
            let step = s.finalize_step(streams.max_samples);
            &&& sessions_follow(
                streams.with(session, s.appended(samples, loud, streams.interval as int)),
                jobs,
            )
            &&& sessions_follow(streams.with(session, s.refined(text)), jobs)
            &&& step is Handed ==> sessions_follow(
                streams.with(session, s.handed_to(id)),
                jobs::with_job(jobs, id, now),
            )
            &&& step matches FinalizeStep::Closed(message) ==> sessions_follow(
                streams.with(session, s.closed_with(message)),
                jobs,
            )
        },
{
    if jobs::is_running(jobs, id) {
        let status = jobs::status_after(outcome);
        let then = streams.settled(id, status);
        let finished = jobs::with_finished(jobs, id, status);
        assert forall|k: u128| then.sessions.contains_key(k) implies (
        #[trigger] then.sessions[k]).wf() && (then.sessions[k].final_job_id matches Some(job) ==> (
        then.sessions[k].final_status is None ==> jobs::is_running(finished, job))) by {
            let s = streams.sessions[k];
            assert(s.wf());
            assert(then.sessions[k] == s.settled(id, status));
        }
    }
}

/// A poll of a finalized session shows processing until its job is done, and
/// from then on always the same: what the job came to. It never shows the
/// session as active, or its job as pending.
pub proof fn law_finalized_polls<S>(
    streams: StreamStoreView<S>,
    jobs: Map<u128, JobEntryView>,
    id: u128,
)
    requires
        sessions_follow(streams, jobs),
        streams.sessions.contains_key(id),
        streams.sessions[id].final_job_id is Some,
    ensures
        stream_reply(streams.sessions, jobs, id) == (ReplyView {
            code: 200,
            body: BodyView::Job(
                match streams.sessions[id].final_status {
                    Some(status) => status,
                    None => JobStatusView::Processing,
                },
            ),
        }),
        streams.sessions[id].final_status matches Some(status) ==> status.is_done(),
{
    assert(streams.sessions[id].wf());
}

/// A poll of a job is answered by the status of that job as it is, and by
/// nothing else: by 404 where there is no such job.
pub proof fn law_a_poll_answers_the_status<S>(state: &AppState<S>, id: u128, r: Reply)
    requires
        call_ensures(get_job::<S>, (state, id), r),
    ensures
        state.jobs@.contains_key(id) ==> r.code == 200 && (r.body matches Body::Job(status)
            && status@ == state.jobs@[id].status),
        !state.jobs@.contains_key(id) ==> r.code == 404 && (r.body matches Body::Error(message)
            && message@ == "job not found"@),
{
}

/// A poll of a session is answered by what the session holds: its draft as it is
/// and its whole seconds of audio while it records, and how it ended, or that it
/// is processing, afterwards.
pub proof fn law_a_poll_answers_the_session<S: Copy>(state: &AppState<S>, id: u128, r: Reply)
    requires
        state.streams@.wf(),
        call_ensures(get_stream::<S>, (state, id), r),
    ensures
        !state.streams@.sessions.contains_key(id) ==> r.code == 404 && (r.body matches Body::Error(
            message,
        ) && message@ == "stream not found"@),
        state.streams@.sessions.contains_key(id) ==> {
            let s = state.streams@.sessions[id];
            &&& r.code == 200
            &&& !s.finalized ==> (r.body matches Body::Active { partial_text, audio_seconds } && {
                &&& s.partial_text matches Some(draft) ==> partial_text@ == draft
                &&& s.partial_text is None ==> partial_text@.len() == 0
                &&& audio_seconds as int == s.samples.len() as int / 16_000
            })
            &&& s.finalized ==> (r.body matches Body::Job(status) && {
                &&& s.final_error matches Some(reason) ==> (status@ matches JobStatusView::Failed {
                    error,
                } && error == reason)
                &&& s.final_status matches Some(end) ==> status@ == end
                &&& s.final_error is None && s.final_status is None ==> {
                    let done = s.final_job_id matches Some(job) && state.jobs@.contains_key(job) && (
                    state.jobs@[job].status is Completed || state.jobs@[job].status is Failed);
                    &&& done ==> status@ == state.jobs@[s.final_job_id->0].status
                    &&& !done ==> status@ is Processing
                }
            })
        },
{
    if state.streams@.sessions.contains_key(id) {
        let s = state.streams@.sessions[id];
        assert(s.wf());
        crate::streams::law_what_a_poll_shows(s, state.jobs@);
        if !s.finalized {
            assert(s.final_error is None);
        }
    }
}

/// An answer that reports an error has the code that it is given and the message
/// as it is, and an answer that names a job is a 200 with the job's own id.
pub proof fn law_error_replies_hold_the_message(code: u16, message: Seq<char>, job: u128)
    ensures
        error_reply(code, message).code == code,
        error_reply(code, message).body == BodyView::Error(message),
        finalized_reply(job).code == 200,
        finalized_reply(job).body matches BodyView::Finalized { job_id } && job_id
            == ids::hyphenated(job),
{
}

/// Every chunk of audio that comes over a socket goes into its session, loud or
/// not, and asks for a draft pass exactly when one is due; what is no chunk is
/// refused with the reason as it is, and a chunk for a session that is not there
/// is refused too. A text closes the socket when it is `done`, and no other text
/// does anything.
pub proof fn law_what_a_message_does<S>(
    streams: StreamStoreView<S>,
    id: u128,
    chunk: Chunk<S>,
    reason: String,
    text: String,
)
    ensures
        streams.sessions.contains_key(id) ==> {
            let s = streams.sessions[id];
            let message = SocketMessage::Audio(Ok(chunk));
            let then = after_message(streams, id, message);
            &&& then.sessions.contains_key(id)
            &&& !s.finalized ==> then.sessions[id].samples == s.samples + chunk.samples@
            &&& s.finalized ==> then.sessions[id] == s
            &&& then.sessions.dom() == streams.sessions.dom()
            &&& socket_step(streams, id, message) == if chunk.loud && !s.finalized
                && s.partial_running is None && s.samples.len() + chunk.samples@.len()
                - s.partial_covered >= streams.interval {
                SocketStepView::RunPartial
            } else {
                SocketStepView::GoOn
            }
        },
        !streams.sessions.contains_key(id) ==> {
            let message = SocketMessage::Audio(Ok(chunk));
            &&& after_message(streams, id, message) == streams
            &&& socket_step(streams, id, message) == SocketStepView::Refuse("stream not found"@)
        },
        socket_step(streams, id, SocketMessage::Audio(Err(reason))) == SocketStepView::Refuse(
            reason@,
        ),
        socket_step(streams, id, SocketMessage::Text(text)) == if text@ == seq![
            'd',
            'o',
            'n',
            'e',
        ] {
            SocketStepView::Close
        } else {
            SocketStepView::GoOn
        },
        socket_step(streams, id, SocketMessage::Other) is GoOn,
        socket_step(streams, id, SocketMessage::Failed) is Close,
        after_message(streams, id, SocketMessage::Audio(Err(reason))) == streams,
        after_message(streams, id, SocketMessage::Text(text)) == streams,
        after_message(streams, id, SocketMessage::Other) == streams,
        after_message(streams, id, SocketMessage::Failed) == streams,
{
    reveal_strlit("done");
    assert("done"@ =~= seq!['d', 'o', 'n', 'e']);
    if streams.sessions.contains_key(id) {
        let then = after_message(streams, id, SocketMessage::Audio(Ok(chunk)));
        assert(then.sessions.dom() =~= streams.sessions.dom());
    }
}

/// Whoever follows a job gets its analysis as it is once it is completed,
/// nothing more once it failed, and is to wait only while it is pending or
/// processing.
pub proof fn law_what_a_follower_gets(status: JobStatusView)
    ensures
        match status {
            JobStatusView::Completed { analysis, .. } => settled(status) == FeedStepView::Done(
                analysis,
            ),
            JobStatusView::Failed { .. } => settled(status) is Close,
            JobStatusView::Pending | JobStatusView::Processing => settled(status) is Follow,
        },
{
}

/// What comes to a follower is handed on: of a chunk the objects that it
/// completes, a final analysis as it is. Who was too slow joins again, and the
/// feed ends when the stream is gone. Only chunks move the reading on.
pub proof fn law_what_a_feed_hands_on(
    st: analysis_extract::ScanState,
    delta: Seq<char>,
    analysis: AnalysisView,
)
    ensures
        feed_step(st, FeedEventView::Hub(HubEventView::Delta(delta))) == FeedStepView::Objects(
            st.objects(delta),
        ),
        feed_next(st, FeedEventView::Hub(HubEventView::Delta(delta))) == st.run(delta),
        feed_step(st, FeedEventView::Hub(HubEventView::Done(analysis))) == FeedStepView::Done(
            analysis,
        ),
        feed_step(st, FeedEventView::Lagged) is Rejoin,
        feed_step(st, FeedEventView::Closed) is Close,
        feed_next(st, FeedEventView::Hub(HubEventView::Done(analysis))) == st,
        feed_next(st, FeedEventView::Lagged) == st,
        feed_next(st, FeedEventView::Closed) == st,
{
}

/// The replay is the chunks one behind the other, each as it is, and of it
/// everything is read that has not been read.
pub proof fn law_replay_is_read_to_its_end(
    st: analysis_extract::ScanState,
    chunks: Seq<Seq<char>>,
    rest: Seq<char>,
)
    ensures
        joined(chunks) == chunks.flatten(),
        unread(st, st.buf + rest) == rest,
        rest.len() <= st.buf.len() ==> unread(st, rest).len() == 0,
{
    chunks.lemma_flatten_and_flatten_alt_are_equivalent();
    lemma_joined_is_flat(chunks);
    assert((st.buf + rest).skip(st.buf.len() as int) =~= rest);
}

proof fn lemma_joined_is_flat(chunks: Seq<Seq<char>>)
    ensures
        joined(chunks) == chunks.flatten_alt(),
    decreases chunks.len(),
{
    if chunks.len() > 0 {
        lemma_joined_is_flat(chunks.drop_last());
    }
}

/// The boxes that are sent are those of the objects that are errors, each on its
/// own, all of them and in order; an object that is no error gives none.
pub proof fn law_boxes_are_sent_one_by_one(
    parsed: Vec<Option<ErrorJson>>,
    out: Vec<ErrorItem>,
    a: Seq<Option<ErrorItemView>>,
    b: Seq<Option<ErrorItemView>>,
)
    requires
        call_ensures(error_boxes, (parsed,), out),
    ensures
        boxes(a + b) == boxes(a) + boxes(b),
        a.len() == 1 ==> boxes(a) == match a[0] {
            Some(e) => match ollama::filtered_item(ollama::normalized(e)) {
                Some(x) => seq![x],
                None => Seq::empty(),
            },
            None => Seq::empty(),
        },
        out@.map_values(|x: ErrorItem| x@) == parsed@.map_values(
            |p: Option<ErrorJson>|
                match p {
                    Some(e) => Some(e@),
                    None => None,
                },
        ).filter_map(
            |p: Option<ErrorItemView>|
                match p {
                    Some(e) => ollama::filtered_item(ollama::normalized(e)),
                    None => None,
                },
        ),
{
    lemma_boxes_add(a, b);
    if a.len() == 1 {
        assert(a.drop_last() =~= Seq::<Option<ErrorItemView>>::empty());
        assert(boxes(a.drop_last()) =~= Seq::<ErrorItemView>::empty());
        assert(boxes(a) =~= match a[0] {
            Some(e) => match ollama::filtered_item(ollama::normalized(e)) {
                Some(x) => seq![x],
                None => Seq::empty(),
            },
            None => Seq::empty(),
        });
    }
    assert((|p: Option<ErrorItemView>|
        match p {
            Some(e) => ollama::filtered_item(ollama::normalized(e)),
            None => None,
        }) =~= (|p: Option<ErrorItemView>|
        match p {
            Some(e) => ollama::live_item(e),
            None => None,
        }));
}

} // verus!
