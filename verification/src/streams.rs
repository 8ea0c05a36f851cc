//! The streaming sessions: audio that arrives while it is being recorded, its
//! refining draft transcript, and the job that the whole becomes.

use crate::config::Config;
use crate::ids;
use crate::ids::fresh_id;
use crate::jobs;
use crate::jobs::{JobEntryView, JobStatus, JobStatusView, JobStore, JobTask};
use crate::providers::{copy_list, AudioSamples};
use crate::retention;
use crate::retention::{fresh, ids_in, sweep_entries, Aging, NANOS_PER_SEC};
use crate::text;
use crate::text::to_decimal;
use std::collections::HashMap;
use vstd::prelude::*;
use vstd::string::*;

verus! {

broadcast use vstd::std_specs::hash::group_hash_axioms;

/// How many samples a second of audio has.
pub const SAMPLE_RATE: usize = 16_000;

/// What a poll of a streaming session currently looks like.
#[derive(Debug)]
pub enum StreamView {
    /// Still recording: expose the refining partial draft.
    Active { partial_text: String, audio_seconds: usize },
    /// Finalized: the delegated job's status.
    Finished(JobStatus),
}

/// The mathematical form of what a poll shows.
pub enum PollView {
    Active { partial_text: Seq<char>, audio_seconds: int },
    Finished(JobStatusView),
}

impl View for StreamView {
    type V = PollView;

    open spec fn view(&self) -> PollView {
        match self {
            StreamView::Active { partial_text, audio_seconds } => PollView::Active {
                partial_text: partial_text@,
                audio_seconds: *audio_seconds as int,
            },
            StreamView::Finished(status) => PollView::Finished(status@),
        }
    }
}

/// A chunk of audio as it was decoded, and whether it is loud enough to hold
/// speech.
pub struct Chunk<S> {
    pub samples: Vec<S>,
    pub loud: bool,
}

/// What a draft pass over the audio so far came to.
#[derive(Debug)]
pub enum PartialOutcome {
    /// The text of the whole buffer.
    Text(String),
    /// The transcriber gave this error.
    Failed(String),
    /// The transcriber did not return.
    Panicked(String),
}

impl PartialOutcome {
    /// The text of the pass, where it gave one.
    pub open spec fn text(self) -> Option<Seq<char>> {
        match self {
            PartialOutcome::Text(t) => Some(t@),
            _ => None,
        }
    }
}

struct Session<S> {
    samples: Vec<S>,
    /// How much of the buffer has already been covered by a draft pass.
    partial_covered: usize,
    /// While a draft pass runs: how long the buffer was when it became due.
    partial_running: Option<usize>,
    partial_text: Option<String>,
    finalized: bool,
    /// The job that owns the final pipeline.
    final_job_id: Option<u128>,
    /// Set when the session was finalized and rejected.
    final_error: Option<String>,
    /// What became of the job, once it is done.
    final_status: Option<JobStatus>,
    created_at: i128,
}

/// The mathematical form of a session.
#[verifier::ext_equal]
pub struct SessionView<S> {
    pub samples: Seq<S>,
    pub partial_covered: int,
    pub partial_running: Option<int>,
    pub partial_text: Option<Seq<char>>,
    pub finalized: bool,
    pub final_job_id: Option<u128>,
    pub final_error: Option<Seq<char>>,
    pub final_status: Option<JobStatusView>,
    pub created_at: i128,
}

impl<S> View for Session<S> {
    type V = SessionView<S>;

    closed spec fn view(&self) -> SessionView<S> {
        SessionView {
            samples: self.samples@,
            partial_covered: self.partial_covered as int,
            partial_running: match self.partial_running {
                Some(n) => Some(n as int),
                None => None,
            },
            partial_text: match self.partial_text {
                Some(t) => Some(t@),
                None => None,
            },
            finalized: self.finalized,
            final_job_id: self.final_job_id,
            final_error: match self.final_error {
                Some(e) => Some(e@),
                None => None,
            },
            final_status: match self.final_status {
                Some(status) => Some(status@),
                None => None,
            },
            created_at: self.created_at,
        }
    }
}

impl<S> Aging for Session<S> {
    closed spec fn is_kept(&self, now: i128, retention: i128) -> bool {
        retention::is_fresh(self.created_at, now, retention)
    }

    fn kept(&self, now: i128, retention: i128) -> (out: bool) {
        fresh(self.created_at, now, retention)
    }
}

/// How a session answers when it is to be finalized.
pub enum FinalizeStep {
    /// It is finalized already, and this job owns its audio.
    Again(u128),
    /// It is refused with this message, and stays as it is.
    Refused(Seq<char>),
    /// It is refused with this message for good.
    Closed(Seq<char>),
    /// Its audio becomes a job.
    Handed,
}

impl<S> SessionView<S> {
    /// A session that was just opened.
    pub open spec fn opened(now: i128) -> SessionView<S> {
        SessionView {
            samples: Seq::empty(),
            partial_covered: 0,
            partial_running: None,
            partial_text: None,
            finalized: false,
            final_job_id: None,
            final_error: None,
            final_status: None,
            created_at: now,
        }
    }

    /// What holds of every session: the draft passes are within the buffer as
    /// long as it is recording, and it is finalized exactly when there is a job
    /// for it or a reason why there is none.
    pub open spec fn wf(self) -> bool {
        &&& 0 <= self.partial_covered
        &&& !self.finalized ==> self.partial_covered <= self.samples.len()
        &&& self.partial_running matches Some(n) ==> 0 <= n
        &&& self.partial_running matches Some(n) ==> !self.finalized ==> n <= self.samples.len()
        &&& self.finalized <==> (self.final_job_id is Some || self.final_error is Some)
        &&& self.final_job_id is None || self.final_error is None
        &&& self.final_status matches Some(status) ==> self.final_job_id is Some
            && status.is_done()
    }

    /// A draft pass becomes due with a chunk: none is running, the chunk is
    /// loud, and with it at least `interval` samples are not covered yet.
    pub open spec fn is_due(self, samples: Seq<S>, loud: bool, interval: int) -> bool {
        &&& !self.finalized
        &&& self.partial_running is None
        &&& self.samples.len() + samples.len() - self.partial_covered >= interval
        &&& loud
    }

    /// The session after a chunk arrived. What arrives after the session was
    /// finalized is dropped.
    pub open spec fn appended(self, samples: Seq<S>, loud: bool, interval: int) -> SessionView<S> {
        if self.finalized {
            self
        } else {
            SessionView {
                samples: self.samples + samples,
                partial_running: if self.is_due(samples, loud, interval) {
                    Some((self.samples.len() + samples.len()) as int)
                } else {
                    self.partial_running
                },
                ..self
            }
        }
    }

    /// The session after a draft pass gave `text`, or failed. The text becomes
    /// the whole draft.
    pub open spec fn refined(self, text: Option<Seq<char>>) -> SessionView<S> {
        let covered = match self.partial_running {
            Some(n) => if n > self.partial_covered {
                n
            } else {
                self.partial_covered
            },
            None => self.partial_covered,
        };
        if self.finalized || text is None {
            SessionView { partial_running: None, ..self }
        } else {
            SessionView {
                partial_text: text,
                partial_covered: covered,
                partial_running: None,
                ..self
            }
        }
    }

    /// What finalizing does, where at most `max_samples` are accepted.
    pub open spec fn finalize_step(self, max_samples: nat) -> FinalizeStep {
        if let Some(job) = self.final_job_id {
            FinalizeStep::Again(job)
        } else if let Some(message) = self.final_error {
            FinalizeStep::Refused(message)
        } else if self.samples.len() == 0 {
            FinalizeStep::Refused("stream has no audio"@)
        } else if self.samples.len() > max_samples {
            FinalizeStep::Closed(too_long(max_samples))
        } else {
            FinalizeStep::Handed
        }
    }

    /// The session after it was refused for good.
    pub open spec fn closed_with(self, message: Seq<char>) -> SessionView<S> {
        SessionView { finalized: true, final_error: Some(message), ..self }
    }

    /// The session after its audio became the job `job`.
    pub open spec fn handed_to(self, job: u128) -> SessionView<S> {
        SessionView { samples: Seq::empty(), finalized: true, final_job_id: Some(job), ..self }
    }

    /// The session after the job `job` came to its end with `status`: it is
    /// remembered for as long as the session lives.
    pub open spec fn settled(self, job: u128, status: JobStatusView) -> SessionView<S> {
        if self.final_job_id == Some(job) && self.final_status is None {
            SessionView { final_status: Some(status), ..self }
        } else {
            self
        }
    }

    /// What a poll shows, among these jobs. A job that is not done shows as
    /// processing, whether or not its pipeline has started.
    pub open spec fn shown(self, jobs: Map<u128, JobEntryView>) -> PollView {
        if let Some(message) = self.final_error {
            PollView::Finished(JobStatusView::Failed { error: message })
        } else if self.finalized {
            PollView::Finished(
                match self.final_status {
                    Some(status) => status,
                    None => match self.final_job_id {
                        Some(job) => job_shown(jobs, job),
                        None => JobStatusView::Processing,
                    },
                },
            )
        } else {
            PollView::Active {
                partial_text: match self.partial_text {
                    Some(t) => t,
                    None => Seq::empty(),
                },
                audio_seconds: self.samples.len() as int / SAMPLE_RATE as int,
            }
        }
    }
}

/// What a poll shows of a job whose end the session has not been told of.
pub open spec fn job_shown(jobs: Map<u128, JobEntryView>, job: u128) -> JobStatusView {
    if jobs.contains_key(job) && jobs[job].status.is_done() {
        jobs[job].status
    } else {
        JobStatusView::Processing
    }
}

/// The message for a recording of more than `max_samples`.
pub open spec fn too_long(max_samples: nat) -> Seq<char> {
    "recording exceeds "@ + text::decimal(max_samples / SAMPLE_RATE as nat) + " seconds"@
}

/// The streaming sessions of the backend, by their ids.
pub struct StreamStore<S> {
    streams: HashMap<u128, Session<S>>,
    retention: i128,
    max_samples: usize,
    partial_interval_samples: usize,
}

/// The mathematical form of the store: its sessions and its limits.
#[verifier::ext_equal]
pub struct StreamStoreView<S> {
    pub sessions: Map<u128, SessionView<S>>,
    /// How long a session is kept, in nanoseconds.
    pub retention: i128,
    /// How many samples a recording may have.
    pub max_samples: nat,
    /// How many new samples make a draft pass due.
    pub interval: nat,
}

impl<S> View for StreamStore<S> {
    type V = StreamStoreView<S>;

    closed spec fn view(&self) -> StreamStoreView<S> {
        StreamStoreView {
            sessions: self.streams@.map_values(|e: Session<S>| e@),
            retention: self.retention,
            max_samples: self.max_samples as nat,
            interval: self.partial_interval_samples as nat,
        }
    }
}

impl<S> StreamStoreView<S> {
    /// Every session is sound.
    pub open spec fn wf(self) -> bool {
        forall|id: u128| self.sessions.contains_key(id) ==> (#[trigger] self.sessions[id]).wf()
    }

    /// The store with `session` under `id`.
    pub open spec fn with(self, id: u128, session: SessionView<S>) -> StreamStoreView<S> {
        StreamStoreView { sessions: self.sessions.insert(id, session), ..self }
    }

    /// The store that a sweep at `now` leaves.
    pub open spec fn swept(self, now: i128) -> StreamStoreView<S> {
        StreamStoreView {
            sessions: Map::new(
                |id: u128|
                    self.sessions.contains_key(id) && retention::is_fresh(
                        self.sessions[id].created_at,
                        now,
                        self.retention,
                    ),
                |id: u128| self.sessions[id],
            ),
            ..self
        }
    }

    /// The store after the job `job` came to its end with `status`.
    pub open spec fn settled(self, job: u128, status: JobStatusView) -> StreamStoreView<S> {
        StreamStoreView {
            sessions: self.sessions.map_values(|e: SessionView<S>| e.settled(job, status)),
            ..self
        }
    }
}

/// The answer of a session that was finalized: the job that owns its audio and,
/// where the job is new, its task.
pub struct Finalized<S> {
    pub job: u128,
    pub task: Option<JobTask<AudioSamples<S>>>,
}

impl<S: Copy> StreamStore<S> {
    /// A store without sessions, with the limits that the configuration sets.
    pub fn new(cfg: &Config) -> (store: StreamStore<S>)
        requires
            cfg.stream_max_secs * SAMPLE_RATE <= usize::MAX,
            cfg.stream_partial_interval_secs * SAMPLE_RATE <= usize::MAX,
        ensures
            store@ == (StreamStoreView {
                sessions: Map::<u128, SessionView<S>>::empty(),
                retention: (cfg.stream_retention_secs * NANOS_PER_SEC) as i128,
                max_samples: (cfg.stream_max_secs * SAMPLE_RATE) as nat,
                interval: (cfg.stream_partial_interval_secs * SAMPLE_RATE) as nat,
            }),
            store@.wf(),
    {
        let store = StreamStore {
            streams: HashMap::new(),
            retention: cfg.stream_retention_secs as i128 * NANOS_PER_SEC,
            max_samples: cfg.stream_max_secs * SAMPLE_RATE,
            partial_interval_samples: cfg.stream_partial_interval_secs * SAMPLE_RATE,
        };
        assert(store@.sessions =~= Map::<u128, SessionView<S>>::empty());
        store
    }

    /// Opens a session.
    pub fn create(&mut self, now: i128) -> (id: u128)
        requires
            old(self)@.wf(),
        ensures
            ids::is_random_uuid(id),
            final(self)@ == old(self)@.with(id, SessionView::opened(now)),
            final(self)@.wf(),
    {
        let id: u128 = fresh_id();
        let session = Session {
            samples: Vec::new(),
            partial_covered: 0,
            partial_running: None,
            partial_text: None,
            finalized: false,
            final_job_id: None,
            final_error: None,
            final_status: None,
            created_at: now,
        };
        assert(session@ =~= SessionView::opened(now));
        self.streams.insert(id, session);
        assert(self@ =~= old(self)@.with(id, SessionView::opened(now)));
        id
    }

    /// Appends a chunk of audio to the session's buffer. `Ok(true)` means that
    /// enough new speech has accumulated and a draft pass is to be run.
    pub fn append(&mut self, id: u128, chunk: Result<Chunk<S>, String>) -> (r: Result<bool, String>)
        requires
            old(self)@.wf(),
        ensures
            final(self)@.wf(),
            ({
                let before = old(self)@;
                match chunk {
                    Err(message) => r matches Err(e) && e@ == message@ && final(self)@ == before,
                    Ok(c) => if !before.sessions.contains_key(id) {
                        r matches Err(e) && e@ == "stream not found"@ && final(self)@ == before
                    } else {
                        let session = before.sessions[id];
                        let interval = before.interval as int;
                        &&& r matches Ok(due) && due == session.is_due(c.samples@, c.loud, interval)
                        &&& r == Ok::<bool, String>(
                            c.loud && !session.finalized && session.partial_running is None
                                && session.samples.len() + c.samples@.len()
                                - session.partial_covered >= interval,
                        )
                        &&& final(self)@.sessions[id].samples == if session.finalized {
                            session.samples
                        } else {
                            session.samples + c.samples@
                        }
                        &&& final(self)@ == before.with(
                            id,
                            session.appended(c.samples@, c.loud, interval),
                        )
                    },
                }
            }),
    {
        let chunk = match chunk {
            Ok(chunk) => chunk,
            Err(message) => {
                return Err(message);
            },
        };
        let mut samples = chunk.samples;
        let mut session = match self.streams.remove(&id) {
            Some(session) => session,
            None => {
                assert(self@ =~= old(self)@);
                return Err("stream not found".to_owned());
            },
        };
        let ghost was = session@;
        assert(was == old(self)@.sessions[id]);
        let mut due = false;
        if !session.finalized {
            session.samples.append(&mut samples);
            due = session.partial_running.is_none() && session.samples.len()
                - session.partial_covered >= self.partial_interval_samples && chunk.loud;
            if due {
                session.partial_running = Some(session.samples.len());
            }
        }
        let ghost now = session@;
        proof {
            let interval = old(self)@.interval as int;
            assert(due == was.is_due(chunk.samples@, chunk.loud, interval));
            assert(now =~= was.appended(chunk.samples@, chunk.loud, interval));
        }
        self.streams.insert(id, session);
        assert(self@ =~= old(self)@.with(id, now));
        Ok(due)
    }

    /// The audio that a draft pass is to transcribe: the whole buffer so far.
    pub fn begin_partial(&self, id: u128) -> (r: Result<AudioSamples<S>, String>)
        ensures
            match r {
                Ok(audio) => self@.sessions.contains_key(id) && audio.samples@
                    == self@.sessions[id].samples,
                Err(e) => !self@.sessions.contains_key(id) && e@ == "stream not found"@,
            },
    {
        match self.streams.get(&id) {
            Some(session) => Ok(AudioSamples { samples: copy_list(&session.samples) }),
            None => Err("stream not found".to_owned()),
        }
    }

    /// Notes what a draft pass came to. The draft is the full text each time,
    /// never an append; a pass that gave none leaves it as it is.
    pub fn finish_partial(&mut self, id: u128, outcome: PartialOutcome) -> (r: Result<(), String>)
        requires
            old(self)@.wf(),
        ensures
            final(self)@.wf(),
            match outcome {
                PartialOutcome::Text(_) => r is Ok,
                PartialOutcome::Failed(e) => r matches Err(m) && m@ == e@,
                PartialOutcome::Panicked(e) => r matches Err(m) && m@
                    == "transcribe task panicked: "@ + e@,
            },
            ({
                let before = old(self)@;
                if !before.sessions.contains_key(id) {
                    final(self)@ == before
                } else {
                    let draft = final(self)@.sessions[id].partial_text;
                    &&& final(self)@ == before.with(id, before.sessions[id].refined(outcome.text()))
                    &&& outcome matches PartialOutcome::Text(text) ==> (
                    !before.sessions[id].finalized ==> draft == Some(text@))
                    &&& !(outcome is Text) ==> draft == before.sessions[id].partial_text
                }
            }),
    {
        let (text, r) = match outcome {
            PartialOutcome::Text(text) => (Some(text), Ok(())),
            PartialOutcome::Failed(e) => (None, Err(e)),
            PartialOutcome::Panicked(e) => (
                None,
                Err("transcribe task panicked: ".to_owned().concat(e.as_str())),
            ),
        };
        let mut session = match self.streams.remove(&id) {
            Some(session) => session,
            None => {
                assert(self@ =~= old(self)@);
                return r;
            },
        };
        let ghost was = session@;
        assert(was == old(self)@.sessions[id]);
        if !session.finalized {
            if let Some(text) = text {
                session.partial_text = Some(text);
                if let Some(n) = session.partial_running {
                    if n > session.partial_covered {
                        session.partial_covered = n;
                    }
                }
            }
        }
        session.partial_running = None;
        let ghost now = session@;
        assert(now =~= was.refined(outcome.text()));
        self.streams.insert(id, session);
        assert(self@ =~= old(self)@.with(id, now));
        r
    }

    /// Stops accepting audio and hands the full buffer to the job store, where
    /// it becomes a job. A second call returns the same job, without a task.
    pub fn finalize(&mut self, jobs: &mut JobStore, id: u128, now: i128) -> (r: Result<
        Finalized<S>,
        String,
    >)
        requires
            old(self)@.wf(),
        ensures
            final(self)@.wf(),
            ({
                let before = old(self)@;
                if !before.sessions.contains_key(id) {
                    &&& r matches Err(e) && e@ == "stream not found"@
                    &&& final(self)@ == before
                    &&& final(jobs)@ == old(jobs)@
                } else {
                    let session = before.sessions[id];
                    match session.finalize_step(before.max_samples) {
                        FinalizeStep::Again(job) => {
                            &&& r matches Ok(f) && f.job == job && f.task is None
                            &&& final(self)@ == before
                            &&& final(jobs)@ == old(jobs)@
                        },
                        FinalizeStep::Refused(message) => {
                            &&& r matches Err(e) && e@ == message
                            &&& final(self)@ == before
                            &&& final(jobs)@ == old(jobs)@
                        },
                        FinalizeStep::Closed(message) => {
                            &&& r matches Err(e) && e@ == message
                            &&& final(self)@ == before.with(id, session.closed_with(message))
                            &&& final(jobs)@ == old(jobs)@
                        },
                        FinalizeStep::Handed => {
                            &&& r matches Ok(f) && f.task matches Some(task) && {
                                &&& ids::is_random_uuid(f.job)
                                &&& task.id == f.job
                                &&& task.input.samples@ == session.samples
                                &&& final(self)@ == before.with(id, session.handed_to(f.job))
                                &&& final(jobs)@ == jobs::with_job(old(jobs)@, f.job, now)
                            }
                        },
                    }
                }
            }),
    {
        let mut session = match self.streams.remove(&id) {
            Some(session) => session,
            None => {
                assert(self@ =~= old(self)@);
                return Err("stream not found".to_owned());
            },
        };
        let ghost was = session@;
        assert(was == old(self)@.sessions[id]);
        let r = if let Some(job) = session.final_job_id {
            Ok(Finalized { job, task: None })
        } else if let Some(message) = &session.final_error {
            Err(message.clone())
        } else if session.samples.len() == 0 {
            Err("stream has no audio".to_owned())
        } else if session.samples.len() > self.max_samples {
            let seconds = to_decimal(self.max_samples / SAMPLE_RATE);
            let message = "recording exceeds ".to_owned().concat(seconds.as_str()).concat(
                " seconds",
            );
            session.finalized = true;
            session.final_error = Some(message.clone());
            Err(message)
        } else {
            let mut samples: Vec<S> = Vec::new();
            samples.append(&mut session.samples);
            session.finalized = true;
            let task = jobs.submit_from_samples(AudioSamples { samples }, now);
            session.final_job_id = Some(task.id);
            Ok(Finalized { job: task.id, task: Some(task) })
        };
        let ghost then = session@;
        proof {
            match was.finalize_step(old(self)@.max_samples) {
                FinalizeStep::Again(_) | FinalizeStep::Refused(_) => {
                    assert(then =~= was);
                },
                FinalizeStep::Closed(message) => {
                    assert(then =~= was.closed_with(message));
                },
                FinalizeStep::Handed => {
                    assert(then =~= was.handed_to(r->Ok_0.job));
                },
            }
        }
        self.streams.insert(id, session);
        assert(self@ =~= old(self)@.with(id, then));
        assert(old(self)@.with(id, was) =~= old(self)@);
        r
    }

    /// What a poll of a session shows.
    pub fn get(&self, jobs: &JobStore, id: u128) -> (view: Option<StreamView>)
        ensures
            match view {
                Some(v) => self@.sessions.contains_key(id) && v@ == self@.sessions[id].shown(
                    jobs@,
                ),
                None => !self@.sessions.contains_key(id),
            },
            view matches Some(StreamView::Active { partial_text, audio_seconds }) ==> {
                &&& self@.sessions[id].partial_text matches Some(draft) ==> partial_text@ == draft
                &&& self@.sessions[id].partial_text is None ==> partial_text@.len() == 0
                &&& audio_seconds == self@.sessions[id].samples.len() / 16_000
            },
    {
        let session = match self.streams.get(&id) {
            Some(session) => session,
            None => {
                return None;
            },
        };
        if let Some(message) = &session.final_error {
            return Some(StreamView::Finished(JobStatus::Failed { error: message.clone() }));
        }
        if session.finalized {
            if let Some(status) = &session.final_status {
                return Some(StreamView::Finished(status.clone()));
            }
            let status = match session.final_job_id {
                Some(job) => jobs.get(job),
                None => None,
            };
            return match status {
                Some(JobStatus::Pending) | None => Some(
                    StreamView::Finished(JobStatus::Processing),
                ),
                Some(status) => Some(StreamView::Finished(status)),
            };
        }
        let partial_text = match &session.partial_text {
            Some(text) => text.clone(),
            None => String::new(),
        };
        Some(
            StreamView::Active {
                partial_text,
                audio_seconds: session.samples.len() / SAMPLE_RATE,
            },
        )
    }

    /// Tells the sessions that the job `job` came to its end with `status`.
    pub(crate) fn settle(&mut self, job: u128, status: &JobStatus)
        requires
            old(self)@.wf(),
            status@.is_done(),
        ensures
            final(self)@ == old(self)@.settled(job, status@),
            final(self)@.wf(),
    {
        let ghost before = self@;
        let ids = ids_in(&self.streams);
        assert forall|id: u128| #[trigger]
            ids@.contains(id) <==> before.sessions.contains_key(id) by {}
        let mut i: usize = 0;
        while i < ids.len()
            invariant
                i <= ids@.len(),
                ids@.no_duplicates(),
                forall|id: u128| #[trigger]
                    ids@.contains(id) <==> before.sessions.contains_key(id),
                self@.sessions.dom() == before.sessions.dom(),
                self@.retention == before.retention,
                self@.max_samples == before.max_samples,
                self@.interval == before.interval,
                forall|id: u128| #[trigger]
                    before.sessions.contains_key(id) ==> self@.sessions[id] == if ids@.take(
                        i as int,
                    ).contains(id) {
                        before.sessions[id].settled(job, status@)
                    } else {
                        before.sessions[id]
                    },
            decreases ids@.len() - i,
        {
            let id: u128 = ids[i];
            let ghost mid = self@;
            let ghost done = ids@.take(i as int);
            let ghost next = ids@.take(i as int + 1);
            proof {
                assert(ids@.contains(id));
                assert(next =~= done.push(id));
                assert forall|x: u128| #[trigger]
                    next.contains(x) <==> done.contains(x) || x == id by {
                    if x == id {
                        assert(next[i as int] == x);
                    }
                    if done.contains(x) {
                        let k = choose|k: int| 0 <= k < done.len() && done[k] == x;
                        assert(next[k] == x);
                    }
                }
                if done.contains(id) {
                    let k = choose|k: int| 0 <= k < done.len() && done[k] == id;
                    assert(ids@[k] == ids@[i as int]);
                }
                assert(before.sessions.contains_key(id));
                assert(self@.sessions.dom().contains(id));
            }
            if let Some(session) = self.streams.remove(&id) {
                let mut session = session;
                let ghost was = session@;
                assert(was == mid.sessions[id]);
                let owns = match session.final_job_id {
                    Some(other) => other == job,
                    None => false,
                };
                if owns && session.final_status.is_none() {
                    session.final_status = Some(status.clone());
                }
                let ghost then = session@;
                assert(then =~= was.settled(job, status@));
                self.streams.insert(id, session);
                assert(self@.sessions =~= mid.sessions.insert(id, then));
                assert(self@.sessions.dom() =~= before.sessions.dom());
            }
            assert forall|x: u128| #[trigger]
                before.sessions.contains_key(x) implies self@.sessions[x] == if next.contains(x) {
                before.sessions[x].settled(job, status@)
            } else {
                before.sessions[x]
            } by {
                assert(next.contains(x) <==> done.contains(x) || x == id);
            }
            i += 1;
        }
        proof {
            assert(ids@.take(i as int) =~= ids@);
            let target = before.settled(job, status@);
            assert forall|id: u128| before.sessions.contains_key(id) implies self@.sessions[id]
                == target.sessions[id] by {
                assert(ids@.contains(id));
            }
            assert(self@.sessions =~= target.sessions);
            assert(self@ =~= target);
            assert forall|id: u128| self@.sessions.contains_key(id) implies (
            #[trigger] self@.sessions[id]).wf() by {
                assert(before.sessions[id].wf());
            }
        }
    }

    /// Drops sessions older than the retention window, finished or abandoned.
    pub fn sweep(&mut self, now: i128)
        requires
            old(self)@.wf(),
        ensures
            final(self)@ == old(self)@.swept(now),
            final(self)@.wf(),
    {
        sweep_entries(&mut self.streams, now, self.retention);
        assert(self@ =~= old(self)@.swept(now));
    }
}

/// What can happen to a session while it is recording.
pub enum SessionEvent<S> {
    /// A chunk arrives.
    Chunk { samples: Seq<S>, loud: bool },
    /// A draft pass ends, with its text where it gave one.
    Pass { text: Option<Seq<char>> },
}

/// A session after these events.
pub open spec fn after_events<S>(
    session: SessionView<S>,
    events: Seq<SessionEvent<S>>,
    interval: int,
) -> SessionView<S>
    decreases events.len(),
{
    if events.len() == 0 {
        session
    } else {
        let before = after_events(session, events.drop_last(), interval);
        match events.last() {
            SessionEvent::Chunk { samples, loud } => before.appended(samples, loud, interval),
            SessionEvent::Pass { text } => before.refined(text),
        }
    }
}

/// The audio of all the chunks among these events, in order.
pub open spec fn audio_of<S>(events: Seq<SessionEvent<S>>) -> Seq<S>
    decreases events.len(),
{
    if events.len() == 0 {
        Seq::empty()
    } else {
        match events.last() {
            SessionEvent::Chunk { samples, .. } => audio_of(events.drop_last()) + samples,
            SessionEvent::Pass { .. } => audio_of(events.drop_last()),
        }
    }
}

/// No audio is lost, doubled or reordered while a session is recording,
/// whatever draft passes come in between; and the session stays sound.
pub proof fn law_audio_is_kept<S>(
    session: SessionView<S>,
    events: Seq<SessionEvent<S>>,
    interval: int,
)
    requires
        session.wf(),
        !session.finalized,
    ensures
        after_events(session, events, interval).samples == session.samples + audio_of(events),
        !after_events(session, events, interval).finalized,
        after_events(session, events, interval).wf(),
    decreases events.len(),
{
    if events.len() == 0 {
        assert(session.samples + audio_of(events) =~= session.samples);
    } else {
        law_audio_is_kept(session, events.drop_last(), interval);
        match events.last() {
            SessionEvent::Chunk { samples, .. } => {
                assert(session.samples + audio_of(events) =~= session.samples + audio_of(
                    events.drop_last(),
                ) + samples);
            },
            SessionEvent::Pass { .. } => {},
        }
    }
}

/// A session that is finalized once is finalized for good: asking again gives
/// the same job, or the same error, and changes nothing.
pub proof fn law_finalize_is_idempotent<S>(
    session: SessionView<S>,
    max_samples: nat,
    job: u128,
    message: Seq<char>,
)
    requires
        session.wf(),
    ensures
        session.finalize_step(max_samples) is Handed ==> session.handed_to(job).finalize_step(
            max_samples,
        ) == FinalizeStep::Again(job),
        session.finalize_step(max_samples) == FinalizeStep::Closed(message)
            ==> session.closed_with(message).finalize_step(max_samples) == FinalizeStep::Refused(
            message,
        ),
        session.finalized ==> session.finalize_step(max_samples) is Again
            || session.finalize_step(max_samples) is Refused,
{
}

/// Exactly the sessions that hold audio within the limit become jobs.
pub proof fn law_what_becomes_a_job<S>(session: SessionView<S>, max_samples: nat)
    requires
        session.wf(),
    ensures
        session.finalize_step(max_samples) is Handed <==> !session.finalized && 0
            < session.samples.len() <= max_samples,
        session.finalize_step(max_samples) is Closed <==> !session.finalized
            && session.samples.len() > max_samples,
{
}

/// Nothing that happens later changes what a finalized session is finalized
/// with or what a poll of it shows: chunks that come late are dropped, and so
/// is the text of a draft pass that ends late.
pub proof fn law_late_events_are_dropped<S>(
    session: SessionView<S>,
    samples: Seq<S>,
    loud: bool,
    interval: int,
    text: Option<Seq<char>>,
    jobs: Map<u128, JobEntryView>,
)
    requires
        session.wf(),
        session.finalized,
    ensures
        session.appended(samples, loud, interval) == session,
        !session.is_due(samples, loud, interval),
        session.refined(text).samples == session.samples,
        session.refined(text).partial_text == session.partial_text,
        session.refined(text).shown(jobs) == session.shown(jobs),
{
}

/// At most one draft pass runs at a time: while one runs none becomes due, and
/// one that becomes due runs until it ends.
pub proof fn law_one_pass_at_a_time<S>(
    session: SessionView<S>,
    samples: Seq<S>,
    loud: bool,
    interval: int,
    text: Option<Seq<char>>,
)
    ensures
        session.partial_running is Some ==> !session.is_due(samples, loud, interval),
        session.is_due(samples, loud, interval) ==> session.appended(
            samples,
            loud,
            interval,
        ).partial_running is Some,
        session.refined(text).partial_running is None,
{
}

/// A chunk of silence makes no draft pass due.
pub proof fn law_silence_makes_no_pass_due<S>(
    session: SessionView<S>,
    samples: Seq<S>,
    interval: int,
)
    ensures
        !session.is_due(samples, false, interval),
{
}

/// The draft is the text of the last pass that gave one, whatever the draft
/// was before: a poll shows it as it is.
pub proof fn law_draft_is_replaced<S>(
    session: SessionView<S>,
    text: Seq<char>,
    jobs: Map<u128, JobEntryView>,
)
    requires
        session.wf(),
        !session.finalized,
    ensures
        session.refined(Some(text)).shown(jobs) == (PollView::Active {
            partial_text: text,
            audio_seconds: session.samples.len() as int / SAMPLE_RATE as int,
        }),
{
}

/// After a pass over all there was, the next one becomes due only when at
/// least the interval of new audio has come.
pub proof fn law_passes_are_spaced<S>(
    session: SessionView<S>,
    first: Seq<S>,
    text: Seq<char>,
    next: Seq<S>,
    loud: bool,
    interval: int,
)
    requires
        session.wf(),
        session.is_due(first, true, interval),
        session.appended(first, true, interval).refined(Some(text)).is_due(next, loud, interval),
    ensures
        next.len() >= interval,
{
}

/// A poll of a session that became a job shows that job as processing until it
/// is done, and then what it came to.
pub proof fn law_poll_follows_the_job<S>(
    session: SessionView<S>,
    max_samples: nat,
    job: u128,
    status: JobStatusView,
    jobs: Map<u128, JobEntryView>,
)
    requires
        session.wf(),
        session.finalize_step(max_samples) is Handed,
        status.is_done(),
    ensures
        session.handed_to(job).shown(jobs) == PollView::Finished(job_shown(jobs, job)),
        session.handed_to(job).settled(job, status).shown(jobs) == PollView::Finished(status),
        session.handed_to(job).settled(job, status).wf(),
{
}

/// Once a poll shows how a session's job ended, every later poll shows the
/// same: neither what happens to the session nor what becomes of the job in its
/// store changes it.
pub proof fn law_final_status_stays<S>(
    session: SessionView<S>,
    status: JobStatusView,
    samples: Seq<S>,
    loud: bool,
    interval: int,
    text: Option<Seq<char>>,
    job: u128,
    other: JobStatusView,
    max_samples: nat,
    jobs: Map<u128, JobEntryView>,
)
    requires
        session.wf(),
        session.final_status == Some(status),
    ensures
        session.shown(jobs) == PollView::Finished(status),
        session.appended(samples, loud, interval) == session,
        session.refined(text).final_status == Some(status),
        session.refined(text).shown(jobs) == PollView::Finished(status),
        session.settled(job, other) == session,
        session.finalize_step(max_samples) is Again,
{
}

/// A poll of a session that was refused for good shows why.
pub proof fn law_poll_shows_the_refusal<S>(
    session: SessionView<S>,
    max_samples: nat,
    message: Seq<char>,
    jobs: Map<u128, JobEntryView>,
)
    requires
        session.wf(),
        session.finalize_step(max_samples) == FinalizeStep::Closed(message),
    ensures
        session.closed_with(message).shown(jobs) == PollView::Finished(
            JobStatusView::Failed { error: message },
        ),
{
}

/// Exactly the sessions out of the retention window go in a sweep, whatever
/// their state, and what stays is as it was.
pub proof fn law_sweep_drops_old_sessions<S>(store: StreamStoreView<S>, now: i128, id: u128)
    requires
        store.sessions.contains_key(id),
    ensures
        !store.swept(now).sessions.contains_key(id) <==> (now < store.sessions[id].created_at || now
            - store.sessions[id].created_at > store.retention),
        store.swept(now).sessions.contains_key(id) ==> store.swept(now).sessions[id]
            == store.sessions[id],
        store.swept(now).sessions.submap_of(store.sessions),
        store.swept(now).swept(now) == store.swept(now),
{
    assert(store.swept(now).swept(now) =~= store.swept(now));
}

/// A draft pass becomes due exactly when it should: the session is recording, no
/// pass runs, the chunk is loud, and at least the interval of audio is not
/// covered by a draft. Nothing else counts, neither how long the recording is
/// nor what the draft says.
pub proof fn law_a_pass_becomes_due<S>(
    session: SessionView<S>,
    samples: Seq<S>,
    loud: bool,
    interval: int,
)
    ensures
        session.is_due(samples, loud, interval) <==> {
            &&& !session.finalized
            &&& session.partial_running is None
            &&& loud
            &&& session.partial_covered + interval <= session.samples.len() + samples.len()
        },
{
}

/// While somebody speaks the draft keeps being refined, however long the
/// recording is: after any chunks and passes, as soon as no pass runs, a loud
/// chunk that brings what no draft covers to the interval makes one due, which
/// is over the whole buffer; and once that gave its text, so does the next loud
/// chunk of the interval's length.
pub proof fn law_speech_keeps_refining_the_draft<S>(
    session: SessionView<S>,
    events: Seq<SessionEvent<S>>,
    samples: Seq<S>,
    text: Seq<char>,
    next: Seq<S>,
    interval: int,
)
    requires
        session.wf(),
        !session.finalized,
        after_events(session, events, interval).partial_running is None,
        after_events(session, events, interval).partial_covered + interval <= after_events(
            session,
            events,
            interval,
        ).samples.len() + samples.len(),
    ensures
        ({
            let then = after_events(session, events, interval);
            let due = then.appended(samples, true, interval);
            let drafted = due.refined(Some(text));
            &&& then.is_due(samples, true, interval)
            &&& due.samples == then.samples + samples
            &&& due.partial_running == Some(due.samples.len() as int)
            &&& drafted.partial_text == Some(text)
            &&& drafted.partial_covered == due.samples.len()
            &&& next.len() >= interval ==> drafted.is_due(next, true, interval)
        }),
{
    law_audio_is_kept(session, events, interval);
}

/// A chunk adds its samples, loud or not, behind those that are there, and
/// changes nothing else but that a pass may be running from now on. After the
/// session was finalized it changes nothing.
pub proof fn law_a_chunk_adds_its_samples<S>(
    session: SessionView<S>,
    samples: Seq<S>,
    loud: bool,
    interval: int,
)
    ensures
        ({
            let then = session.appended(samples, loud, interval);
            &&& session.finalized ==> then == session
            &&& !session.finalized ==> then.samples == session.samples + samples
            &&& !session.is_due(samples, loud, interval) ==> then.partial_running
                == session.partial_running
            &&& session.is_due(samples, loud, interval) ==> then.partial_running == Some(
                (session.samples.len() + samples.len()) as int,
            )
            &&& then.partial_covered == session.partial_covered
            &&& then.partial_text == session.partial_text
            &&& then.finalized == session.finalized
            &&& then.final_job_id == session.final_job_id
            &&& then.final_error == session.final_error
            &&& then.final_status == session.final_status
            &&& then.created_at == session.created_at
        }),
{
}

/// The end of a draft pass makes way for the next, whatever it came to. Its text
/// becomes the draft as it is, and what the buffer held when the pass became due
/// counts as covered; without a text the draft stays, and nothing is covered
/// that was not. Nothing else changes.
pub proof fn law_a_pass_changes_the_draft_only<S>(
    session: SessionView<S>,
    text: Seq<char>,
)
    requires
        session.wf(),
    ensures
        ({
            let drafted = session.refined(Some(text));
            let failed = session.refined(None);
            &&& failed == (SessionView { partial_running: None, ..session })
            &&& session.finalized ==> drafted == failed
            &&& drafted == (SessionView {
                partial_text: drafted.partial_text,
                partial_covered: drafted.partial_covered,
                ..failed
            })
            &&& !session.finalized ==> drafted.partial_text == Some(text)
            &&& !session.finalized ==> (session.partial_running matches Some(n) ==> {
                &&& drafted.partial_covered >= n
                &&& drafted.partial_covered >= session.partial_covered
                &&& drafted.partial_covered == n || drafted.partial_covered
                    == session.partial_covered
            })
            &&& session.partial_running is None ==> drafted.partial_covered
                == session.partial_covered
        }),
{
}

/// What finalizing does follows from what the session holds: its job if it has
/// one, else the reason why it has none, else, in this order, that there is no
/// audio, that there is too much of it, or that it becomes a job.
pub proof fn law_how_a_session_is_finalized<S>(session: SessionView<S>, max_samples: nat)
    ensures
        match session.finalize_step(max_samples) {
            FinalizeStep::Again(job) => session.final_job_id == Some(job),
            FinalizeStep::Refused(message) => {
                &&& session.final_job_id is None
                &&& session.final_error == Some(message) || session.final_error is None
                    && session.samples.len() == 0 && message == "stream has no audio"@
            },
            FinalizeStep::Closed(message) => {
                &&& session.final_job_id is None
                &&& session.final_error is None
                &&& session.samples.len() > max_samples
                &&& message == "recording exceeds "@ + text::decimal(max_samples / 16_000)
                    + " seconds"@
            },
            FinalizeStep::Handed => {
                &&& session.final_job_id is None
                &&& session.final_error is None
                &&& 0 < session.samples.len() <= max_samples
            },
        },
{
}

/// A session whose audio became a job remembers the job and gives the audio
/// away; one that was refused for good remembers why. Nothing else changes.
pub proof fn law_what_finalizing_leaves<S>(session: SessionView<S>, job: u128, message: Seq<char>)
    ensures
        ({
            let handed = session.handed_to(job);
            let closed = session.closed_with(message);
            &&& handed.finalized && closed.finalized
            &&& handed.final_job_id == Some(job) && closed.final_job_id == session.final_job_id
            &&& handed.final_error == session.final_error && closed.final_error == Some(message)
            &&& handed.samples.len() == 0 && closed.samples == session.samples
            &&& handed.final_status == session.final_status
            &&& closed.final_status == session.final_status
            &&& handed.partial_text == session.partial_text
            &&& closed.partial_text == session.partial_text
            &&& handed.created_at == session.created_at
            &&& closed.created_at == session.created_at
        }),
{
}

/// A new session has nothing yet: no audio, no draft, no pass and no end.
pub proof fn law_a_new_session_is_empty<S>(now: i128)
    ensures
        ({
            let session = SessionView::<S>::opened(now);
            &&& session.samples.len() == 0
            &&& session.partial_covered == 0
            &&& session.partial_running is None
            &&& session.partial_text is None
            &&& !session.finalized
            &&& session.final_job_id is None
            &&& session.final_error is None
            &&& session.final_status is None
            &&& session.created_at == now
            &&& session.wf()
        }),
{
}

/// What a poll shows is what the session holds. While it records: the draft as
/// the last pass gave it, and the whole seconds of audio, of 16000 samples each.
/// Afterwards: why it was refused, or how its job ended, or that the job is
/// processing.
pub proof fn law_what_a_poll_shows<S>(session: SessionView<S>, jobs: Map<u128, JobEntryView>)
    requires
        session.wf(),
    ensures
        match session.shown(jobs) {
            PollView::Active { partial_text, audio_seconds } => {
                &&& !session.finalized
                &&& session.partial_text matches Some(text) ==> partial_text == text
                &&& session.partial_text is None ==> partial_text.len() == 0
                &&& audio_seconds * 16_000 <= session.samples.len() < (audio_seconds + 1) * 16_000
            },
            PollView::Finished(status) => {
                &&& session.finalized
                &&& session.final_error matches Some(message) ==> status
                    == JobStatusView::Failed { error: message }
                &&& session.final_job_id matches Some(job) ==> {
                    &&& session.final_status matches Some(end) ==> status == end
                    &&& session.final_status is None ==> if jobs.contains_key(job) && (
                    jobs[job].status is Completed || jobs[job].status is Failed) {
                        status == jobs[job].status
                    } else {
                        status is Processing
                    }
                }
            },
        },
{
}

/// The end of a job is remembered by the sessions that it came from and do not
/// know of an end yet, and changes nothing else about them; all other sessions
/// and the limits stay as they are.
pub proof fn law_the_end_of_a_job_is_remembered<S>(
    store: StreamStoreView<S>,
    job: u128,
    status: JobStatusView,
    id: u128,
)
    ensures
        ({
            let then = store.settled(job, status);
            &&& then.sessions.contains_key(id) <==> store.sessions.contains_key(id)
            &&& then.retention == store.retention
            &&& then.max_samples == store.max_samples
            &&& then.interval == store.interval
            &&& store.sessions.contains_key(id) ==> {
                let was = store.sessions[id];
                let is = then.sessions[id];
                &&& was.final_job_id == Some(job) && was.final_status is None ==> is == (
                SessionView { final_status: Some(status), ..was })
                &&& was.final_job_id != Some(job) || was.final_status is Some ==> is == was
            }
        }),
{
}

/// What happens to one session changes no other, and no limit.
pub proof fn law_sessions_are_apart<S>(
    store: StreamStoreView<S>,
    id: u128,
    session: SessionView<S>,
    other: u128,
)
    ensures
        ({
            let then = store.with(id, session);
            &&& then.sessions.contains_key(id) && then.sessions[id] == session
            &&& other != id ==> {
                &&& then.sessions.contains_key(other) <==> store.sessions.contains_key(other)
                &&& then.sessions[other] == store.sessions[other]
            }
            &&& then.retention == store.retention
            &&& then.max_samples == store.max_samples
            &&& then.interval == store.interval
        }),
{
}

/// A sweep keeps exactly the sessions that are at most as old as the retention
/// window, and the limits.
pub proof fn law_sweep_keeps_young_sessions<S>(store: StreamStoreView<S>, now: i128, id: u128)
    ensures
        store.swept(now).sessions.contains_key(id) <==> store.sessions.contains_key(id) && 0 <= now
            - store.sessions[id].created_at <= store.retention,
        store.swept(now).retention == store.retention,
        store.swept(now).max_samples == store.max_samples,
        store.swept(now).interval == store.interval,
{
}

} // verus!
