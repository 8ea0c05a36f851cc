use speak_local::analysis_hub::{AnalysisHub, HubEvent, HubSubscription};
use speak_local::audio::{Decoded, DecodeLoop, FetchStep, Fetched, OpenError, Signal, SignalSpec};
use speak_local::config::{Config, EnvVars, Platform};
use speak_local::error::AppError;
use speak_local::handlers::{
    after_replay, analysis_stream, create_stream, error_boxes, finalize_stream, finish_job,
    get_job, get_stream, health, on_socket_message, start_job, submit_job, AnalysisFeed,
    AnalysisStart, AppState, Body, FeedEvent, FeedStep, SocketMessage, SocketStep,
};
use speak_local::jobs::{run_pipeline, JobStatus, JobStore};
use speak_local::providers::ollama::ErrorJson;
use speak_local::providers::{
    Analysis, AnalysisProvider, AnalysisResult, AudioSamples, ErrorItem, Transcript,
    TranscriptionProvider, TranscriptionResult,
};
use speak_local::streams::{Chunk, StreamStore};

struct StubTranscriber;

impl TranscriptionProvider<f32> for StubTranscriber {
    fn transcribe(&self, _samples: &AudioSamples<f32>) -> TranscriptionResult {
        Ok(Transcript {
            text: "hello world".into(),
            low_confidence_spans: vec![],
        })
    }
}

struct StubAnalyzer;

impl AnalysisProvider for StubAnalyzer {
    fn analyze(&self, _transcript: &str) -> AnalysisResult {
        Ok(Analysis {
            cefr_label: "B1".into(),
            cefr_justification: "stub".into(),
            errors: vec![ErrorItem {
                text: "he go".into(),
                suggestion: "he goes".into(),
                category: "grammar".into(),
                criticality: 5,
                context: "he go to school".into(),
                explanation: "third-person singular".into(),
            }],
        })
    }
}

/// Build a minimal valid mono 16-bit PCM WAV with `seconds` of silence.
fn make_wav(seconds: u32) -> Vec<u8> {
    let sample_rate = 16000u32;
    let num_samples = sample_rate * seconds;
    let data_len = num_samples * 2;
    let byte_rate = sample_rate * 2;
    let mut wav = Vec::new();
    wav.extend_from_slice(b"RIFF");
    wav.extend_from_slice(&(36 + data_len).to_le_bytes());
    wav.extend_from_slice(b"WAVE");
    wav.extend_from_slice(b"fmt ");
    wav.extend_from_slice(&16u32.to_le_bytes());
    wav.extend_from_slice(&1u16.to_le_bytes()); // PCM
    wav.extend_from_slice(&1u16.to_le_bytes()); // mono
    wav.extend_from_slice(&sample_rate.to_le_bytes());
    wav.extend_from_slice(&byte_rate.to_le_bytes());
    wav.extend_from_slice(&2u16.to_le_bytes()); // block align
    wav.extend_from_slice(&16u16.to_le_bytes()); // bits per sample
    wav.extend_from_slice(b"data");
    wav.extend_from_slice(&data_len.to_le_bytes());
    for _ in 0..num_samples {
        wav.extend_from_slice(&0i16.to_le_bytes());
    }
    wav
}

/// Decodes a blob, with the library deciding about each packet.
fn decode(data: &[u8]) -> Result<Signal<f32>, String> {
    let cursor = std::io::Cursor::new(data.to_vec());
    let source = symphonia::core::io::MediaSourceStream::new(Box::new(cursor), Default::default());
    let probed = symphonia::default::get_probe()
        .format(&symphonia::core::probe::Hint::new(), source, &Default::default(), &Default::default())
        .map_err(|e| OpenError::Probe(e.to_string()).message())?;
    let mut format = probed.format;
    let track = format.default_track().ok_or_else(|| OpenError::NoTrack.message())?;
    let mut signal = DecodeLoop::new(track.id);
    let mut decoder = symphonia::default::get_codecs()
        .make(&track.codec_params, &Default::default())
        .map_err(|e| OpenError::Codec(e.to_string()).message())?;
    loop {
        let packet = format.next_packet();
        let fetched = match &packet {
            Ok(p) => Fetched::Packet { track_id: p.track_id() },
            Err(_) => Fetched::Ended,
        };
        match signal.on_fetched(fetched) {
            FetchStep::Stop => return signal.finish(),
            FetchStep::Skip => {}
            FetchStep::Decode => {
                let decoded = match decoder.decode(&packet.unwrap()) {
                    Ok(decoded) => {
                        let s = *decoded.spec();
                        let mut buf = symphonia::core::audio::SampleBuffer::<f32>::new(decoded.frames() as u64, s);
                        buf.copy_interleaved_ref(decoded);
                        Decoded::Block {
                            samples: buf.samples().to_vec(),
                            spec: SignalSpec { channels: s.channels.count(), rate: s.rate as usize },
                        }
                    }
                    Err(symphonia::core::errors::Error::IoError(_)) | Err(symphonia::core::errors::Error::DecodeError(_)) => Decoded::Damaged,
                    Err(_) => Decoded::Broken,
                };
                if !signal.on_decoded(decoded) {
                    return signal.finish();
                }
            }
        }
    }
}

fn decode_audio(data: &[u8]) -> Result<AudioSamples<f32>, String> {
    let signal = decode(data)?;
    assert_eq!(signal.spec, SignalSpec { channels: 1, rate: 16000 });
    Ok(AudioSamples { samples: signal.samples })
}

#[test]
fn decodes_wave_audio_to_samples() {
    let wav = make_wav(1);
    let result = decode_audio(&wav).expect("wav should decode");
    assert!(!result.samples.is_empty());
    // Mono 16k: ~1 second of audio.
    assert!(result.samples.len() > 10000);
    assert!(result.samples.len() < 20000);
}

#[test]
fn what_is_no_audio_is_refused() {
    let message = decode(b"certainly not audio").err().unwrap();
    assert!(message.starts_with("probe failed: "), "{message}");
    assert_eq!(OpenError::NoTrack.message(), "no audio track");
    assert_eq!(OpenError::Codec("x".into()).message(), "unsupported codec: x");
    assert_eq!(decode(&make_wav(0)).err().unwrap(), "no audio samples decoded");
}

fn block(samples: &[i32], channels: usize) -> Decoded<i32> {
    Decoded::Block { samples: samples.to_vec(), spec: SignalSpec { channels, rate: 8000 } }
}

#[test]
fn a_signal_is_the_blocks_of_its_track() {
    let mut signal = DecodeLoop::new(3);
    assert_eq!(signal.on_fetched(Fetched::Packet { track_id: 4 }), FetchStep::Skip);
    assert_eq!(signal.on_fetched(Fetched::Packet { track_id: 3 }), FetchStep::Decode);
    assert!(signal.on_decoded(block(&[1, 2], 2)));
    assert!(signal.on_decoded(Decoded::Damaged));
    assert!(signal.on_decoded(block(&[3], 1)));
    assert!(!signal.on_decoded(Decoded::Broken));
    let done = signal.finish().unwrap();
    assert_eq!(done.samples, vec![1, 2, 3]);
    assert_eq!(done.spec, SignalSpec { channels: 2, rate: 8000 });

    let mut empty = DecodeLoop::<i32>::new(0);
    assert_eq!(empty.on_fetched(Fetched::Ended), FetchStep::Stop);
    assert_eq!(empty.finish().err(), Some("no audio samples decoded".to_string()));
}

fn state() -> AppState<f32> {
    let vars = EnvVars {
        bind_addr: None,
        whisper_model: None,
        whisper_use_gpu: None,
        whisper_initial_prompt: None,
        whisper_vocab_hints: None,
        whisper_low_conf_threshold: None,
        ollama_url: None,
        llm_model: None,
        llm_temperature: None,
        stream_retention_secs: None,
        stream_max_secs: None,
        stream_partial_interval_secs: None,
        stream_rms_floor: None,
    };
    let cfg = Config::from_env(vars, "/srv/backend", Platform::Unix);
    AppState {
        jobs: JobStore::new(),
        streams: StreamStore::new(&cfg),
        hub: AnalysisHub::new(),
    }
}

#[test]
fn health_returns_ok() {
    let reply = health();
    assert_eq!(reply.code, axum::http::StatusCode::OK.as_u16());
    match reply.body {
        Body::Status(status) => assert_eq!(status, "ok"),
        other => panic!("expected a status, got {other:?}"),
    }
}

#[test]
fn full_pipeline_reaches_completed() {
    let mut state = state();

    let task = state.jobs.submit(make_wav(1), 0);
    let id = task.id;
    start_job(&mut state, id);
    let outcome = run_pipeline(decode_audio(&task.input), &StubTranscriber, &StubAnalyzer);
    finish_job(&mut state, id, outcome, 0);

    let status = state.jobs.get(id).expect("job should reach a terminal state");
    match status {
        JobStatus::Completed { result } => {
            assert_eq!(result.transcript.text, "hello world");
            assert_eq!(result.analysis.cefr_label, "B1");
            assert_eq!(result.analysis.errors.len(), 1);
            assert_eq!(result.analysis.errors[0].suggestion, "he goes");
        }
        other => panic!("expected completed, got {other:?}"),
    }
}

struct Unsure;

impl TranscriptionProvider<f32> for Unsure {
    fn transcribe(&self, samples: &AudioSamples<f32>) -> TranscriptionResult {
        if samples.samples.is_empty() {
            return Err(AppError::Transcription("no speech".into()));
        }
        Ok(Transcript {
            text: "I use NestJS".into(),
            low_confidence_spans: vec![(6, 12)],
        })
    }
}

struct Echo;

impl AnalysisProvider for Echo {
    fn analyze(&self, transcript: &str) -> AnalysisResult {
        Ok(Analysis {
            cefr_label: "A1".into(),
            cefr_justification: transcript.into(),
            errors: vec![],
        })
    }
}

struct Broken;

impl AnalysisProvider for Broken {
    fn analyze(&self, _transcript: &str) -> AnalysisResult {
        Err(AppError::Analysis("down".into()))
    }
}

fn some_audio() -> Result<AudioSamples<f32>, String> {
    Ok(AudioSamples { samples: vec![0.5] })
}

#[test]
fn the_analyzer_sees_the_marks_and_the_user_does_not() {
    let (transcript, analysis) = run_pipeline(some_audio(), &Unsure, &Echo).unwrap();
    assert_eq!(analysis.cefr_justification, "I use «NestJS»");
    assert_eq!(transcript.text, "I use NestJS");
}

#[test]
fn each_stage_of_the_pipeline_can_fail() {
    let bad: Result<AudioSamples<f32>, String> = Err("no audio track".into());
    let e = run_pipeline(bad, &Unsure, &Echo).unwrap_err();
    assert_eq!(e.message(), "audio decoding failed: no audio track");
    let e = run_pipeline(Ok(AudioSamples { samples: vec![] }), &Unsure, &Echo).unwrap_err();
    assert_eq!(e.message(), "transcription failed: no speech");
    let e = run_pipeline(some_audio(), &Unsure, &Broken).unwrap_err();
    assert_eq!(e.message(), "analysis failed: down");
}

fn id_of(text: &str) -> u128 {
    assert_eq!(text.len(), 36);
    uuid::Uuid::parse_str(text).unwrap().as_u128()
}

#[test]
fn uploads_are_accepted_and_polled() {
    let mut state = state();
    let (reply, task) = submit_job(&mut state, vec![], 0);
    assert_eq!(reply.code, 422);
    assert!(matches!(&reply.body, Body::Error(e) if e == "empty audio body"));
    assert!(task.is_none());

    let (reply, task) = submit_job(&mut state, vec![9], 0);
    assert_eq!(reply.code, 202);
    let task = task.unwrap();
    assert_eq!(task.input, vec![9]);
    match reply.body {
        Body::JobId(text) => {
            assert_eq!(id_of(&text), task.id);
            assert_eq!(text, uuid::Uuid::from_u128(task.id).hyphenated().to_string());
        }
        other => panic!("expected a job id, got {other:?}"),
    }
    let reply = get_job(&state, task.id);
    assert_eq!(reply.code, 200);
    assert!(matches!(reply.body, Body::Job(JobStatus::Pending)));
    let reply = get_job(&state, task.id ^ 1);
    assert_eq!(reply.code, 404);
    assert!(matches!(&reply.body, Body::Error(e) if e == "job not found"));
}

#[test]
fn a_session_is_recorded_over_its_socket() {
    let mut state = state();
    let reply = create_stream(&mut state, 0);
    assert_eq!(reply.code, 201);
    let id = match reply.body {
        Body::StreamId(text) => id_of(&text),
        other => panic!("expected a stream id, got {other:?}"),
    };
    let audio = |n: usize| SocketMessage::Audio(Ok(Chunk { samples: vec![0.5f32; n], loud: true }));
    assert!(matches!(on_socket_message(&mut state, id, audio(16_000)), SocketStep::GoOn));
    assert!(matches!(on_socket_message(&mut state, id, audio(16_000)), SocketStep::RunPartial));
    assert!(matches!(on_socket_message(&mut state, id, SocketMessage::Other), SocketStep::GoOn));
    assert!(matches!(on_socket_message(&mut state, id, SocketMessage::Text("hm".into())), SocketStep::GoOn));
    assert!(matches!(on_socket_message(&mut state, id, SocketMessage::Text("done".into())), SocketStep::Close));
    assert!(matches!(on_socket_message(&mut state, id, SocketMessage::Failed), SocketStep::Close));
    let refused = on_socket_message(&mut state, id, SocketMessage::Audio(Err("bad".into())));
    assert!(matches!(refused, SocketStep::Refuse(e) if e == "bad"));
    let refused = on_socket_message(&mut state, id ^ 1, audio(1));
    assert!(matches!(refused, SocketStep::Refuse(e) if e == "stream not found"));

    let reply = get_stream(&state, id);
    assert_eq!(reply.code, 200);
    assert!(matches!(
        &reply.body,
        Body::Active { partial_text, audio_seconds: 2 } if partial_text.is_empty()
    ));

    let (reply, task) = finalize_stream(&mut state, id, 0);
    assert_eq!(reply.code, 200);
    let task = task.unwrap();
    assert_eq!(task.input.samples.len(), 32_000);
    assert!(matches!(&reply.body, Body::Finalized { job_id } if id_of(job_id) == task.id));
    let (reply, again) = finalize_stream(&mut state, id, 0);
    assert_eq!(reply.code, 200);
    assert!(again.is_none());
    let reply = get_stream(&state, id);
    assert!(matches!(reply.body, Body::Job(JobStatus::Processing)));
}

#[test]
fn unknown_sessions_are_answered() {
    let mut state = state();
    let reply = get_stream(&state, 1);
    assert_eq!(reply.code, 404);
    assert!(matches!(&reply.body, Body::Error(e) if e == "stream not found"));
    let (reply, task) = finalize_stream(&mut state, 1, 0);
    assert_eq!(reply.code, 400);
    assert!(task.is_none());
    assert!(matches!(&reply.body, Body::Error(e) if e == "stream not found"));
}

fn next_event(sub: &mut HubSubscription) -> FeedEvent {
    match sub.rx.try_recv() {
        Ok(event) => FeedEvent::Hub(event),
        Err(tokio::sync::broadcast::error::TryRecvError::Lagged(_)) => FeedEvent::Lagged,
        Err(_) => FeedEvent::Closed,
    }
}

fn objects(step: FeedStep) -> Vec<String> {
    match step {
        FeedStep::Objects(objects) => objects,
        other => panic!("expected objects, got {other:?}"),
    }
}

#[test]
fn an_analysis_is_followed_while_it_is_generated() {
    let mut state = state();
    let id = submit_job(&mut state, vec![1], 0).1.unwrap().id;
    start_job(&mut state, id);
    state.hub.push_delta(id, "{\"errors\":[{\"text\":\"a\"},{\"te", 0);

    let mut sub = match analysis_stream(&mut state, id, 0) {
        AnalysisStart::Live(sub) => sub,
        _ => panic!("the job runs"),
    };
    let mut feed = AnalysisFeed::new();
    assert_eq!(feed.catch_up(&sub.past_deltas), vec!["{\"text\":\"a\"}".to_string()]);
    assert!(matches!(after_replay(&state, id), FeedStep::Follow));
    assert!(matches!(after_replay(&state, id ^ 1), FeedStep::Follow));

    state.hub.push_delta(id, "xt\":\"b\"}", 0);
    let event = next_event(&mut sub);
    assert_eq!(objects(feed.on_event(event)), vec!["{\"text\":\"b\"}".to_string()]);
    let (_, analysis) = run_pipeline(some_audio(), &Unsure, &Echo).unwrap();
    state.hub.push_done(id, analysis, 0);
    match feed.on_event(next_event(&mut sub)) {
        FeedStep::Done(a) => assert_eq!(a.cefr_label, "A1"),
        other => panic!("expected the analysis, got {other:?}"),
    }
    assert!(matches!(feed.on_event(FeedEvent::Closed), FeedStep::Close));
}

#[test]
fn settled_jobs_are_served_at_once() {
    let mut state = state();
    let done = submit_job(&mut state, vec![1], 0).1.unwrap().id;
    let failed = submit_job(&mut state, vec![1], 0).1.unwrap().id;
    finish_job(&mut state, done, run_pipeline(some_audio(), &Unsure, &Echo), 0);
    finish_job(&mut state, failed, run_pipeline(some_audio(), &Unsure, &Broken), 0);
    assert!(matches!(analysis_stream(&mut state, done, 0), AnalysisStart::Done(a) if a.cefr_label == "A1"));
    assert!(matches!(analysis_stream(&mut state, failed, 0), AnalysisStart::Close));
    assert!(matches!(after_replay(&state, done), FeedStep::Done(_)));
    assert!(matches!(after_replay(&state, failed), FeedStep::Close));
    match analysis_stream(&mut state, 1, 0) {
        AnalysisStart::Refused(reply) => {
            assert_eq!(reply.code, 404);
            assert!(matches!(&reply.body, Body::Error(e) if e == "job not found"));
        }
        _ => panic!("there is no such job"),
    }
}

#[test]
fn only_errors_among_the_objects_are_sent() {
    let error = |text: &str| {
        Some(ErrorJson {
            text: text.into(),
            suggestion: "s".into(),
            category: "vocabulary".into(),
            criticality: 3,
            context: String::new(),
            explanation: String::new(),
        })
    };
    let boxes = error_boxes(vec![error("«one»"), None, error("every day"), error("two")]);
    let seen: Vec<String> = boxes.into_iter().map(|b| b.text).collect();
    assert_eq!(seen, vec!["one", "two"]);
}

#[test]
fn joining_late_shows_the_same_objects() {
    let deltas = ["{\"e\":[{\"t\"", ":\"}\"}", ",{}", "]}"];
    let mut whole = AnalysisFeed::new();
    let all: Vec<String> = deltas.iter().map(|d| d.to_string()).collect();
    let expected = whole.catch_up(&all);
    assert_eq!(expected.len(), 3);
    for cut in 0..=deltas.len() {
        let mut feed = AnalysisFeed::new();
        let mut seen = feed.catch_up(&all[..cut].to_vec());
        for d in &all[cut..] {
            seen.extend(objects(feed.on_event(FeedEvent::Hub(HubEvent::Delta(d.clone())))));
        }
        assert_eq!(seen, expected);
    }
}

#[test]
fn a_finished_job_settles_its_followers() {
    let mut state = state();
    let id = submit_job(&mut state, vec![1], 0).1.unwrap().id;
    let mut sub = match analysis_stream(&mut state, id, 0) {
        AnalysisStart::Live(sub) => sub,
        _ => panic!("the job runs"),
    };
    finish_job(&mut state, id, run_pipeline(some_audio(), &Unsure, &Echo), 0);
    assert!(matches!(get_job(&state, id).body, Body::Job(JobStatus::Completed { .. })));
    let mut feed = AnalysisFeed::new();
    assert!(matches!(feed.on_event(next_event(&mut sub)), FeedStep::Done(a) if a.cefr_label == "A1"));
    // Whoever comes now is served at once.
    assert!(matches!(analysis_stream(&mut state, id, 0), AnalysisStart::Done(_)));
}

#[test]
fn a_failed_job_sends_no_analysis() {
    let mut state = state();
    let id = submit_job(&mut state, vec![1], 0).1.unwrap().id;
    let mut sub = match analysis_stream(&mut state, id, 0) {
        AnalysisStart::Live(sub) => sub,
        _ => panic!("the job runs"),
    };
    finish_job(&mut state, id, run_pipeline(some_audio(), &Unsure, &Broken), 0);
    assert!(sub.rx.try_recv().is_err());
    match get_job(&state, id).body {
        Body::Job(JobStatus::Failed { error }) => assert_eq!(error, "analysis failed: down"),
        other => panic!("expected failed, got {other:?}"),
    }
}

#[test]
fn different_jobs_have_different_texts() {
    let mut state = state();
    let mut seen: Vec<String> = Vec::new();
    for _ in 0..50 {
        match submit_job(&mut state, vec![1], 0).0.body {
            Body::JobId(text) => {
                assert!(!seen.contains(&text));
                seen.push(text);
            }
            other => panic!("expected a job id, got {other:?}"),
        }
    }
}

#[test]
fn a_slow_subscriber_catches_up_and_is_sent_the_end() {
    let mut state = state();
    let id = submit_job(&mut state, vec![1], 0).1.unwrap().id;
    start_job(&mut state, id);
    let mut sub = match analysis_stream(&mut state, id, 0) {
        AnalysisStart::Live(sub) => sub,
        _ => panic!("the job runs"),
    };
    let mut feed = AnalysisFeed::new();
    assert!(feed.catch_up(&sub.past_deltas).is_empty());
    let mut expected = Vec::new();
    let mut seen = Vec::new();
    state.hub.push_delta(id, "[{\"n\":0}", 0);
    expected.push("{\"n\":0}".to_string());
    seen.extend(objects(feed.on_event(next_event(&mut sub))));
    // More than the channel holds.
    for n in 1..400 {
        state.hub.push_delta(id, &format!(",{{\"n\":{n}}}"), 0);
        expected.push(format!("{{\"n\":{n}}}"));
    }
    assert!(matches!(feed.on_event(next_event(&mut sub)), FeedStep::Rejoin));
    let mut sub = match analysis_stream(&mut state, id, 0) {
        AnalysisStart::Live(sub) => sub,
        _ => panic!("the job still runs"),
    };
    seen.extend(feed.catch_up(&sub.past_deltas));
    assert_eq!(seen, expected);
    assert!(feed.catch_up(&sub.past_deltas).is_empty());
    finish_job(&mut state, id, run_pipeline(some_audio(), &Unsure, &Echo), 0);
    assert!(matches!(feed.on_event(next_event(&mut sub)), FeedStep::Done(_)));
    assert!(matches!(analysis_stream(&mut state, id, 0), AnalysisStart::Done(_)));
}

#[test]
fn a_settled_stream_is_served_directly() {
    let mut state = state();
    let id = submit_job(&mut state, vec![1], 0).1.unwrap().id;
    let (_, analysis) = run_pipeline(some_audio(), &Unsure, &Echo).unwrap();
    state.hub.push_done(id, analysis, 0);
    assert!(matches!(analysis_stream(&mut state, id, 0), AnalysisStart::Done(a) if a.cefr_label == "A1"));
}
