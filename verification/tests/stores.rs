use speak_local::analysis_hub::{AnalysisHub, HubEvent};
use speak_local::config::{Config, EnvVars, Platform};
use speak_local::error::AppError;
use speak_local::handlers::{finalize_stream, finish_job, get_stream, start_job, sweep, AppState, Body};
use speak_local::jobs::{after_analysis, status_of, JobStatus, JobStore, JOB_RETENTION};
use speak_local::providers::{Analysis, AudioSamples, Transcript};
use speak_local::retention::{fresh, NANOS_PER_SEC};
use speak_local::streams::{Chunk, PartialOutcome, StreamStore, StreamView, SAMPLE_RATE};

fn analysis(label: &str) -> Analysis {
    Analysis {
        cefr_label: label.into(),
        cefr_justification: "j".into(),
        errors: vec![],
    }
}

fn outcome() -> Result<(Transcript, Analysis), AppError> {
    Ok((Transcript::default(), analysis("B1")))
}

#[test]
fn missing_job_returns_not_found() {
    let store = JobStore::new();
    let id = uuid::Uuid::new_v4();
    assert!(store.get(id.as_u128()).is_none());
}

#[test]
fn a_job_goes_from_pending_to_done() {
    let mut state = state("600", "2");
    let task = state.jobs.submit(vec![1, 2, 3], 5);
    assert_eq!(task.input, vec![1, 2, 3]);
    assert!(matches!(state.jobs.get(task.id), Some(JobStatus::Pending)));
    assert!(state.jobs.running(task.id));
    start_job(&mut state, task.id);
    assert!(matches!(state.jobs.get(task.id), Some(JobStatus::Processing)));
    finish_job(&mut state, task.id, outcome(), 6);
    match state.jobs.get(task.id) {
        Some(JobStatus::Completed { result }) => assert_eq!(result.analysis.cefr_label, "B1"),
        other => panic!("expected completed, got {other:?}"),
    }
    assert!(!state.jobs.running(task.id));
}

#[test]
fn a_done_job_never_changes_again() {
    let mut state = state("600", "2");
    let id = state.jobs.submit(vec![1], 0).id;
    finish_job(&mut state, id, outcome(), 0);
    start_job(&mut state, id);
    assert!(matches!(state.jobs.get(id), Some(JobStatus::Completed { .. })));
    finish_job(&mut state, id, Err(AppError::Audio("late".into())), 0);
    assert!(matches!(state.jobs.get(id), Some(JobStatus::Completed { .. })));
    // Nor does a second start set a running job back.
    let id = state.jobs.submit(vec![1], 0).id;
    start_job(&mut state, id);
    start_job(&mut state, id);
    assert!(matches!(state.jobs.get(id), Some(JobStatus::Processing)));
}

#[test]
fn a_failed_job_reports_the_message() {
    let mut state = state("600", "2");
    let task = state.jobs.submit_from_samples(AudioSamples { samples: vec![1u8] }, 0);
    assert_eq!(task.input.samples, vec![1u8]);
    start_job(&mut state, task.id);
    finish_job(&mut state, task.id, Err(AppError::Transcription("boom".into())), 0);
    match state.jobs.get(task.id) {
        Some(JobStatus::Failed { error }) => assert_eq!(error, "transcription failed: boom"),
        other => panic!("expected failed, got {other:?}"),
    }
    assert!(matches!(status_of(outcome()), JobStatus::Completed { .. }));
}

#[test]
fn an_unknown_job_cannot_be_finished() {
    let mut state = state("600", "2");
    start_job(&mut state, 7);
    finish_job(&mut state, 7, outcome(), 0);
    assert!(state.jobs.get(7).is_none());
    assert!(state.hub.subscribe(7, 0).settled.is_none());
}

#[test]
fn job_ids_are_random_uuids() {
    let mut store = JobStore::new();
    let a = store.submit(vec![], 0).id;
    let b = store.submit(vec![], 0).id;
    assert_ne!(a, b);
    for id in [a, b] {
        let uuid = uuid::Uuid::from_u128(id);
        assert_eq!(uuid.get_version_num(), 4);
        assert_eq!(uuid.get_variant(), uuid::Variant::RFC4122);
    }
}

#[test]
fn sweeping_drops_old_finished_jobs_only() {
    let mut state = state("600", "2");
    let done = state.jobs.submit(vec![], 100).id;
    let failed = state.jobs.submit(vec![], 101).id;
    let running = state.jobs.submit(vec![], 0).id;
    let pending = state.jobs.submit(vec![], 0).id;
    start_job(&mut state, running);
    finish_job(&mut state, done, outcome(), 0);
    finish_job(&mut state, failed, Err(AppError::Audio("x".into())), 0);
    let store = &mut state.jobs;
    store.sweep(100 + JOB_RETENTION);
    assert!(store.get(done).is_some());
    store.sweep(101 + JOB_RETENTION);
    assert!(store.get(done).is_none());
    assert!(store.get(failed).is_some());
    store.sweep(i128::MAX);
    assert!(store.get(failed).is_none());
    assert!(store.get(running).is_some());
    assert!(store.get(pending).is_some());
}

#[test]
fn a_finished_job_from_the_future_is_dropped() {
    let mut state = state("600", "2");
    let id = state.jobs.submit(vec![], 100).id;
    finish_job(&mut state, id, outcome(), 100);
    state.jobs.sweep(99);
    assert!(state.jobs.get(id).is_none());
}

#[test]
fn freshness_has_both_ends() {
    assert!(fresh(10, 10, 0));
    assert!(fresh(10, 15, 5));
    assert!(!fresh(10, 16, 5));
    assert!(!fresh(10, 9, 5));
    assert!(!fresh(i128::MIN, i128::MAX, i128::MAX));
}

#[test]
fn an_analysis_completes_the_transcript() {
    let (t, a) = after_analysis(
        Transcript { text: "x".into(), low_confidence_spans: vec![(0, 1)] },
        Ok(analysis("C2")),
    )
    .unwrap();
    assert_eq!(t.text, "x");
    assert_eq!(t.low_confidence_spans, vec![(0, 1)]);
    assert_eq!(a.cefr_label, "C2");
    let e = after_analysis(Transcript::default(), Err(AppError::Analysis("y".into()))).unwrap_err();
    assert_eq!(e.message(), "analysis failed: y");
}

fn config(max: &str, interval: &str, retention: &str) -> Config {
    let vars = EnvVars {
        bind_addr: None,
        whisper_model: None,
        whisper_use_gpu: None,
        whisper_initial_prompt: None,
        whisper_vocab_hints: None,
        whisper_low_conf_threshold: None,
        ollama_url: None,
        llm_model: None,
        llm_temperature: None,
        stream_retention_secs: Some(retention.into()),
        stream_max_secs: Some(max.into()),
        stream_partial_interval_secs: Some(interval.into()),
        stream_rms_floor: None,
    };
    Config::from_env(vars, "/srv/backend", Platform::Unix)
}

fn state(max: &str, interval: &str) -> AppState<f32> {
    AppState {
        jobs: JobStore::new(),
        streams: streams(max, interval),
        hub: AnalysisHub::new(),
    }
}

fn streams(max: &str, interval: &str) -> StreamStore<f32> {
    StreamStore::new(&config(max, interval, "60"))
}

fn chunk(samples: usize, value: f32, loud: bool) -> Result<Chunk<f32>, String> {
    Ok(Chunk { samples: vec![value; samples], loud })
}

fn draft(store: &StreamStore<f32>, jobs: &JobStore, id: u128) -> (String, usize) {
    match store.get(jobs, id) {
        Some(StreamView::Active { partial_text, audio_seconds }) => (partial_text, audio_seconds),
        other => panic!("expected an active session, got {other:?}"),
    }
}

#[test]
fn a_session_collects_audio_and_becomes_a_job() {
    let mut jobs = JobStore::new();
    let mut store = streams("600", "2");
    let id = store.create(0);
    assert_eq!(draft(&store, &jobs, id), (String::new(), 0));
    assert_eq!(store.append(id, chunk(SAMPLE_RATE, 0.5, true)), Ok(false));
    assert_eq!(store.append(id, chunk(SAMPLE_RATE + 1, 0.25, true)), Ok(true));
    assert_eq!(draft(&store, &jobs, id), (String::new(), 2));

    let done = store.finalize(&mut jobs, id, 9).unwrap();
    let task = done.task.unwrap();
    assert_eq!(task.id, done.job);
    let mut expected = vec![0.5f32; SAMPLE_RATE];
    expected.extend(vec![0.25f32; SAMPLE_RATE + 1]);
    assert_eq!(task.input.samples, expected);
    assert!(matches!(jobs.get(done.job), Some(JobStatus::Pending)));

    // A second call returns the same id, and starts nothing.
    let again = store.finalize(&mut jobs, id, 10).unwrap();
    assert_eq!(again.job, done.job);
    assert!(again.task.is_none());
}

fn polled(state: &AppState<f32>, id: u128) -> &'static str {
    let reply = get_stream(state, id);
    assert_eq!(reply.code, 200);
    match reply.body {
        Body::Job(JobStatus::Pending) => "pending",
        Body::Job(JobStatus::Processing) => "processing",
        Body::Job(JobStatus::Completed { .. }) => "completed",
        Body::Job(JobStatus::Failed { .. }) => "failed",
        _ => "active",
    }
}

#[test]
fn a_poll_of_a_finalized_session_is_a_poll_of_its_job() {
    let mut state = state("600", "2");
    let id = state.streams.create(0);
    state.streams.append(id, chunk(10, 0.1, false)).unwrap();
    assert_eq!(polled(&state, id), "active");
    let job = finalize_stream(&mut state, id, 0).1.unwrap().id;
    assert!(matches!(state.jobs.get(job), Some(JobStatus::Pending)));
    assert_eq!(polled(&state, id), "processing");
    start_job(&mut state, job);
    assert_eq!(polled(&state, id), "processing");
    finish_job(&mut state, job, outcome(), 0);
    assert_eq!(polled(&state, id), "completed");
}

#[test]
fn a_session_remembers_how_its_job_ended() {
    let mut state = AppState {
        jobs: JobStore::new(),
        streams: StreamStore::new(&config("600", "2", "3600")),
        hub: AnalysisHub::new(),
    };
    let mut ids = Vec::new();
    for ends_well in [true, false] {
        let id = state.streams.create(0);
        state.streams.append(id, chunk(10, 0.1, false)).unwrap();
        let job = finalize_stream(&mut state, id, 0).1.unwrap().id;
        start_job(&mut state, job);
        let end = if ends_well { outcome() } else { Err(AppError::Analysis("x".into())) };
        finish_job(&mut state, job, end, 0);
        ids.push((id, job));
    }
    // The jobs go, the sessions stay.
    sweep(&mut state, JOB_RETENTION + 1);
    for (_, job) in &ids {
        assert!(state.jobs.get(*job).is_none());
    }
    assert_eq!(polled(&state, ids[0].0), "completed");
    assert_eq!(polled(&state, ids[1].0), "failed");
    sweep(&mut state, 3600 * NANOS_PER_SEC + 1);
    assert_eq!(get_stream(&state, ids[0].0).code, 404);
}

#[test]
fn draft_passes_are_due_one_at_a_time() {
    let jobs = JobStore::new();
    let mut store = streams("600", "2");
    let id = store.create(0);
    // Silence makes no pass due, however much of it there is.
    assert_eq!(store.append(id, chunk(5 * SAMPLE_RATE, 0.0, false)), Ok(false));
    assert_eq!(store.append(id, chunk(1, 0.5, true)), Ok(true));
    // One runs: no other becomes due.
    assert_eq!(store.append(id, chunk(5 * SAMPLE_RATE, 0.5, true)), Ok(false));
    assert_eq!(store.begin_partial(id).unwrap().samples.len(), 10 * SAMPLE_RATE + 1);
    assert_eq!(store.finish_partial(id, PartialOutcome::Text("hello".into())), Ok(()));
    assert_eq!(draft(&store, &jobs, id).0, "hello");
    // What came while it ran was not covered.
    assert_eq!(store.append(id, chunk(0, 0.5, true)), Ok(true));
    assert_eq!(store.finish_partial(id, PartialOutcome::Text("hallo there".into())), Ok(()));
    assert_eq!(draft(&store, &jobs, id).0, "hallo there");
    assert_eq!(store.append(id, chunk(2 * SAMPLE_RATE - 1, 0.5, true)), Ok(false));
    assert_eq!(store.append(id, chunk(1, 0.5, true)), Ok(true));
}

#[test]
fn failed_passes_leave_the_draft() {
    let jobs = JobStore::new();
    let mut store = streams("600", "0");
    let id = store.create(0);
    assert_eq!(store.append(id, chunk(1, 0.5, true)), Ok(true));
    store.finish_partial(id, PartialOutcome::Text("one".into())).unwrap();
    assert_eq!(store.append(id, chunk(1, 0.5, true)), Ok(true));
    assert_eq!(
        store.finish_partial(id, PartialOutcome::Failed("no model".into())),
        Err("no model".to_string())
    );
    assert_eq!(draft(&store, &jobs, id).0, "one");
    assert_eq!(store.append(id, chunk(1, 0.5, true)), Ok(true));
    assert_eq!(
        store.finish_partial(id, PartialOutcome::Panicked("oops".into())),
        Err("transcribe task panicked: oops".to_string())
    );
    assert_eq!(draft(&store, &jobs, id).0, "one");
    // Neither keeps the next pass from becoming due.
    assert_eq!(store.append(id, chunk(1, 0.5, true)), Ok(true));
}

#[test]
fn late_chunks_and_passes_are_dropped() {
    let mut jobs = JobStore::new();
    let mut store = streams("600", "0");
    let id = store.create(0);
    assert_eq!(store.append(id, chunk(3, 0.5, true)), Ok(true));
    let job = store.finalize(&mut jobs, id, 0).unwrap().job;
    assert_eq!(store.append(id, chunk(3, 0.5, true)), Ok(false));
    assert_eq!(store.finish_partial(id, PartialOutcome::Text("late".into())), Ok(()));
    assert!(matches!(store.get(&jobs, id), Some(StreamView::Finished(JobStatus::Processing))));
    assert_eq!(store.finalize(&mut jobs, id, 0).unwrap().job, job);
}

#[test]
fn recordings_that_are_too_long_are_refused_for_good() {
    let mut jobs = JobStore::new();
    let mut store = streams("1", "2");
    let id = store.create(0);
    store.append(id, chunk(SAMPLE_RATE + 1, 0.5, true)).unwrap();
    let message = "recording exceeds 1 seconds".to_string();
    assert_eq!(store.finalize(&mut jobs, id, 0).err(), Some(message.clone()));
    assert_eq!(store.finalize(&mut jobs, id, 0).err(), Some(message.clone()));
    match store.get(&jobs, id) {
        Some(StreamView::Finished(JobStatus::Failed { error })) => assert_eq!(error, message),
        other => panic!("expected failed, got {other:?}"),
    }
    // Exactly as long as allowed is fine.
    let id = store.create(0);
    store.append(id, chunk(SAMPLE_RATE, 0.5, true)).unwrap();
    assert!(store.finalize(&mut jobs, id, 0).is_ok());
}

#[test]
fn a_session_without_audio_stays_open() {
    let mut jobs = JobStore::new();
    let mut store = streams("600", "2");
    let id = store.create(0);
    assert_eq!(store.finalize(&mut jobs, id, 0).err(), Some("stream has no audio".to_string()));
    store.append(id, chunk(1, 0.5, true)).unwrap();
    assert!(store.finalize(&mut jobs, id, 0).is_ok());
}

#[test]
fn unknown_sessions_and_bad_chunks_are_errors() {
    let mut jobs = JobStore::new();
    let mut store = streams("600", "2");
    let missing = Err("stream not found".to_string());
    assert_eq!(store.append(1, chunk(1, 0.5, true)), missing);
    assert_eq!(store.append(1, Err("bad wav".into())), Err("bad wav".to_string()));
    assert_eq!(store.begin_partial(1).err(), Some("stream not found".to_string()));
    assert_eq!(store.finalize(&mut jobs, 1, 0).err(), Some("stream not found".to_string()));
    assert!(store.get(&jobs, 1).is_none());
    assert_eq!(store.finish_partial(1, PartialOutcome::Text("x".into())), Ok(()));
}

#[test]
fn old_sessions_are_swept_in_any_state() {
    let mut jobs = JobStore::new();
    let mut store = streams("600", "2");
    let a = store.create(0);
    let b = store.create(1);
    store.append(b, chunk(1, 0.5, true)).unwrap();
    store.finalize(&mut jobs, b, 1).unwrap();
    store.sweep(60 * NANOS_PER_SEC);
    assert!(store.get(&jobs, a).is_some());
    store.sweep(60 * NANOS_PER_SEC + 1);
    assert!(store.get(&jobs, a).is_none());
    assert!(store.get(&jobs, b).is_some());
    store.sweep(60 * NANOS_PER_SEC + 2);
    assert!(store.get(&jobs, b).is_none());
}

fn received(event: HubEvent) -> String {
    match event {
        HubEvent::Delta(d) => d,
        HubEvent::Done(a) => format!("done {}", a.cefr_label),
    }
}

#[test]
fn late_subscribers_replay_and_follow() {
    let mut hub = AnalysisHub::new();
    let mut early = hub.subscribe(1, 0);
    assert!(early.past_deltas.is_empty());
    hub.push_delta(1, "a", 0);
    hub.push_delta(1, "b", 0);
    let mut late = hub.subscribe(1, 0);
    assert_eq!(late.past_deltas, vec!["a".to_string(), "b".to_string()]);
    hub.push_delta(1, "c", 0);
    hub.push_done(1, analysis("B2"), 0);
    let mut seen = Vec::new();
    while let Ok(e) = early.rx.try_recv() {
        seen.push(received(e));
    }
    assert_eq!(seen, vec!["a", "b", "c", "done B2"]);
    let mut seen = Vec::new();
    while let Ok(e) = late.rx.try_recv() {
        seen.push(received(e));
    }
    assert_eq!(seen, vec!["c", "done B2"]);
    // Once settled there is nothing to replay but the result.
    let mut last = hub.subscribe(1, 0);
    assert!(last.past_deltas.is_empty());
    assert_eq!(last.settled.unwrap().cefr_label, "B2");
    assert!(last.rx.try_recv().is_err());
    assert!(late.settled.is_none());
}

#[test]
fn chunks_from_before_the_first_subscriber_are_kept() {
    let mut hub = AnalysisHub::default();
    hub.push_delta(4, "x", 0);
    hub.push_delta(5, "y", 0);
    assert_eq!(hub.subscribe(4, 0).past_deltas, vec!["x".to_string()]);
    assert_eq!(hub.subscribe(5, 0).past_deltas, vec!["y".to_string()]);
}

#[test]
fn a_subscriber_that_falls_behind_loses_the_oldest() {
    let mut hub = AnalysisHub::new();
    let mut sub = hub.subscribe(1, 0);
    for i in 0..129 {
        hub.push_delta(1, &format!("{i}"), 0);
    }
    assert!(sub.rx.try_recv().is_err());
    assert_eq!(received(sub.rx.try_recv().unwrap()), "1");
}

#[test]
fn old_streams_of_the_hub_are_swept() {
    let mut hub = AnalysisHub::new();
    hub.push_delta(1, "x", 10);
    hub.sweep(20, 10);
    assert_eq!(hub.subscribe(1, 20).past_deltas.len(), 1);
    hub.sweep(21, 10);
    assert!(hub.subscribe(1, 21).past_deltas.is_empty());
}

#[test]
fn subscribers_get_the_events_of_their_job_only() {
    let mut hub = AnalysisHub::new();
    let mut one = hub.subscribe(1, 0);
    let mut two = hub.subscribe(2, 0);
    hub.push_delta(2, "x", 0);
    hub.push_delta(1, "y", 0);
    hub.sweep(0, 10);
    hub.push_delta(1, "z", 0);
    assert_eq!(received(one.rx.try_recv().unwrap()), "y");
    assert_eq!(received(one.rx.try_recv().unwrap()), "z");
    assert!(one.rx.try_recv().is_err());
    assert_eq!(received(two.rx.try_recv().unwrap()), "x");
    assert!(two.rx.try_recv().is_err());
}
