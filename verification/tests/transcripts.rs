use speak_local::marks::{mark_spans, strip_markers};
use speak_local::config::{Config, EnvVars, Platform};
use speak_local::providers::whisper::{
    assemble_transcript, thread_count, transcribed, RecognizerFailure, Token, WhisperProvider,
};
use speak_local::providers::Transcript;

fn transcript(text: &str, spans: &[(usize, usize)]) -> Transcript {
    Transcript {
        text: text.to_string(),
        low_confidence_spans: spans.to_vec(),
    }
}

#[test]
fn marks_low_confidence_spans() {
    let t = transcript(
        "I use NestJS to build microservices",
        &[(6, 12)], // "NestJS"
    );
    assert_eq!(t.analysis_text(), "I use «NestJS» to build microservices");
}

#[test]
fn marks_multiple_and_later_spans() {
    let t = transcript(
        "We deploy via LinkApi and Kafka",
        &[(14, 21), (26, 31)], // "LinkApi", "Kafka"
    );
    assert_eq!(t.analysis_text(), "We deploy via «LinkApi» and «Kafka»");
}

#[test]
fn merges_overlapping_spans() {
    let t = transcript("abcdef", &[(1, 4), (3, 6)]);
    assert_eq!(t.analysis_text(), "«abcdef»");
}

#[test]
fn snaps_spans_to_whole_words() {
    // BPE can split a word ("NestJ" + "S"); the marked region must cover
    // the full word so the LLM sees «NestJS», not «NestJ»S.
    let t = transcript("I use NestJS here", &[(6, 11)]);
    assert_eq!(t.analysis_text(), "I use «NestJS» here");
}

#[test]
fn drops_stray_punctuation_and_space_spans() {
    // A low-confidence "," or " " token is noise; marking it adds nothing.
    let t = transcript("CI pipeline, so engineers", &[(2, 3), (12, 13)]);
    assert_eq!(t.analysis_text(), "CI pipeline, so engineers");
}

#[test]
fn clamps_out_of_range_spans() {
    let t = transcript("hi there", &[(0, 99)]);
    assert_eq!(t.analysis_text(), "«hi there»");
}

#[test]
fn no_spans_leaves_text_unchanged() {
    let t = transcript("perfectly clean speech", &[]);
    assert_eq!(t.analysis_text(), "perfectly clean speech");
}

#[test]
fn strips_markers_unescapes_text() {
    assert_eq!(strip_markers("I use «NAS.js» for it"), "I use NAS.js for it");
}

#[test]
fn default_transcript_is_empty_and_unmarked() {
    let t = Transcript::default();
    assert_eq!(t.text, "");
    assert!(t.low_confidence_spans.is_empty());
    assert_eq!(t.analysis_text(), "");
}

#[test]
fn words_beyond_ascii_are_words() {
    // The second byte of a letter is inside the word, and so is the letter.
    assert_eq!(mark_spans("o café é bom", &[(2, 4)]), "o «café» é bom");
    assert_eq!(mark_spans("o café é bom", &[(8, 10)]), "o café «é» bom");
}

#[test]
fn signs_beyond_ascii_are_no_words() {
    assert_eq!(mark_spans("a … b", &[(2, 5)]), "a … b");
}

#[test]
fn marks_are_undone_by_stripping() {
    let text = "I use NestJS, Kafka and café";
    let marked = mark_spans(text, &[(6, 11), (14, 16), (24, 29)]);
    assert_eq!(marked, "I use «NestJS,» «Kafka» and «café»");
    assert_eq!(strip_markers(&marked), text);
}

#[test]
fn empty_and_reversed_spans_mark_nothing() {
    assert_eq!(mark_spans("plain words", &[(3, 3), (7, 2), (50, 60)]), "plain words");
}

fn token(raw: &str, low: bool) -> Token {
    Token { raw: raw.to_string(), low }
}

#[test]
fn tokens_become_a_transcript() {
    let t = assemble_transcript(&[
        token("[_BEG_]", false),
        token(" I", false),
        token(" use", false),
        token(" Nest", true),
        token("JS", true),
        token(" daily", false),
        token(".", true),
        token("<|endoftext|>", false),
    ]);
    assert_eq!(t.text, "I use NestJS daily.");
    assert_eq!(t.low_confidence_spans, vec![(6, 12), (18, 19)]);
    assert_eq!(t.analysis_text(), "I use «NestJS» «daily.»");
}

#[test]
fn spans_are_byte_ranges_of_the_trimmed_text() {
    // The first token carries the blank in front of the text, which is
    // trimmed; the spans follow the text.
    let t = assemble_transcript(&[token(" Louisa", true), token(" Labs", true), token(" is", false)]);
    assert_eq!(t.text, "Louisa Labs is");
    assert_eq!(t.low_confidence_spans.len(), 1);
    let (a, b) = t.low_confidence_spans[0];
    assert_eq!(&t.text[a..b], "Louisa Labs");
}

#[test]
fn special_and_blank_tokens_leave_no_trace() {
    let t = assemble_transcript(&[
        token("   ", true),
        token(" [_TT_50]", true),
        token("a<|x|>b", true),
        token("", false),
    ]);
    assert_eq!(t.text, "");
    assert!(t.low_confidence_spans.is_empty());
}

#[test]
fn words_beyond_ascii_are_measured_in_bytes() {
    let t = assemble_transcript(&[token("é", false), token(" ü", true)]);
    assert_eq!(t.text, "é ü");
    assert_eq!(t.low_confidence_spans, vec![(3, 5)]);
}

#[test]
fn spans_of_a_transcript_ascend() {
    let tokens: Vec<Token> = (0..40)
        .map(|i| token(if i % 3 == 0 { " word" } else { "s" }, i % 4 < 2))
        .collect();
    let t = assemble_transcript(&tokens);
    let mut last = 0;
    for (a, b) in &t.low_confidence_spans {
        assert!(last <= *a && a < b && *b <= t.text.len());
        last = *b;
    }
    assert!(t.low_confidence_spans.len() > 5);
}

#[test]
fn threads_are_capped_at_eight() {
    assert_eq!(thread_count(None), 4);
    assert_eq!(thread_count(Some(2)), 2);
    assert_eq!(thread_count(Some(8)), 8);
    assert_eq!(thread_count(Some(64)), 8);
}

fn prompt_vars(prompt: &str, hints: &str) -> EnvVars {
    EnvVars {
        bind_addr: None,
        whisper_model: None,
        whisper_use_gpu: None,
        whisper_initial_prompt: Some(prompt.into()),
        whisper_vocab_hints: Some(hints.into()),
        whisper_low_conf_threshold: None,
        ollama_url: None,
        llm_model: None,
        llm_temperature: None,
        stream_retention_secs: None,
        stream_max_secs: None,
        stream_partial_interval_secs: None,
        stream_rms_floor: None,
    }
}

#[test]
fn the_recognizer_is_set_up_from_the_configuration() {
    let r = WhisperProvider::new(&Config::from_env(prompt_vars("APIs", "Kafka"), "/srv/backend", Platform::Unix), Some(3));
    assert_eq!(r.n_threads, 3);
    assert_eq!(r.initial_prompt, "APIs, Kafka");
    assert_eq!(f32::from_bits(r.low_conf_threshold.bits), 0.6);
    assert_eq!(r.seed(), Some("APIs, Kafka".to_string()));
    let r = WhisperProvider::new(&Config::from_env(prompt_vars("", ""), "/srv/backend", Platform::Unix), None);
    assert_eq!(r.seed(), None);
}

#[test]
fn what_the_recognizer_gave_is_transcribed_or_reported() {
    let t = transcribed(Ok(vec![token(" hello", false), token(" world", false)])).unwrap();
    assert_eq!(t.text, "hello world");
    let cases = [
        (RecognizerFailure::PathNotText, "config error: whisper model path not UTF-8"),
        (
            RecognizerFailure::Load { path: "m.bin".into(), message: "gone".into() },
            "config error: failed to load whisper model 'm.bin': gone",
        ),
        (RecognizerFailure::State("full".into()), "transcription failed: create state: full"),
        (RecognizerFailure::Inference("odd".into()), "transcription failed: inference failed: odd"),
    ];
    for (failure, message) in cases {
        assert_eq!(transcribed(Err(failure)).unwrap_err().message(), message);
    }
}

#[test]
fn words_are_delimited_by_any_white_space() {
    assert_eq!(mark_spans("a\tb c", &[(0, 1)]), "«a»\tb c");
    assert_eq!(mark_spans("one\ntwo three", &[(5, 6)]), "one\n«two» three");
    assert_eq!(mark_spans("one\r\n", &[(0, 5)]), "«one»\r\n");
}

#[test]
fn spans_may_come_in_any_order() {
    let text = "We deploy via LinkApi and Kafka";
    let expected = "We deploy via «LinkApi» and «Kafka»";
    assert_eq!(mark_spans(text, &[(14, 21), (26, 31)]), expected);
    assert_eq!(mark_spans(text, &[(26, 31), (14, 21)]), expected);
    assert_eq!(mark_spans(text, &[(26, 27), (0, 2), (14, 15), (3, 4), (27, 31)]), "«We» «deploy» via «LinkApi» and «Kafka»");
    // A wide span that comes late takes in what was there before.
    assert_eq!(mark_spans("a b c d", &[(6, 7), (2, 3), (0, 5)]), "«a b c» «d»");
}
