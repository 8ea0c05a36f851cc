use speak_local::config::{Config, EnvVars, Platform, Single};
use speak_local::error::AppError;
use speak_local::providers::ollama::{
    after_attempt, broken_stream, error_item_from_json, filter_style_false_positives,
    handle_response, map_error_json, on_line, parse_analysis, refusal, strip_fences, AnalysisJson,
    ErrorJson, LineStep, LlmReply, OllamaProvider, OllamaStreamChunk, OllamaStreamMessage,
    RequestKind, SendOutcome, SendStep, StreamedAnswer, MAX_ATTEMPTS, SYSTEM_PROMPT,
};
use speak_local::providers::{AnalysisProvider, AnalysisResult, Analysis, DeltaSink, ErrorItem};

fn item(criticality: u32, category: &str, text: &str, suggestion: &str) -> ErrorItem {
    ErrorItem {
        text: text.to_string(),
        suggestion: suggestion.to_string(),
        category: category.to_string(),
        criticality,
        context: String::new(),
        explanation: String::new(),
    }
}

#[test]
fn suppresses_known_style_false_positives() {
    let input = vec![
        item(4, "vocabulary", "the response time improved a lot", "improved significantly"),
        item(4, "vocabulary", "consisted of", "consisted involved"),
        item(3, "vocabulary", "I work with these tools every day", "I work with these tools daily"),
        item(4, "awkward", "the team can focus on the product instead of infrastructure", "rather than infrastructure"),
    ];
    let out = filter_style_false_positives(input);
    assert!(out.is_empty());
}

#[test]
fn keeps_real_grammar_and_pronunciation_errors() {
    let input = vec![
        item(5, "grammar", "I used to spent a day fixing issues manually", "I used to spend a day"),
        item(3, "vocabulary", "I make a photo of the sunset", "I take a photo of the sunset"),
        item(3, "pronunciation", "discloyer", "disclosure"),
    ];
    let out = filter_style_false_positives(input);
    assert_eq!(out.len(), 3);
    assert_eq!(out[0].text, "I used to spent a day fixing issues manually");
}

#[test]
fn caps_awkward_criticality() {
    let input = vec![
        item(4, "awkward", "We migrated the system to microservices", "we migrated the system to a microservice architecture"),
    ];
    let out = filter_style_false_positives(input);
    assert_eq!(out.len(), 1);
    assert_eq!(out[0].criticality, 2);
}

#[test]
fn strips_confidence_markers_from_model_output() {
    let e = ErrorJson {
        text: "I use «NAS.js» for it".into(),
        suggestion: "I use NestJS for it".into(),
        category: "other".into(),
        criticality: 2,
        context: "«NAS.js» is the new API".into(),
        explanation: "looks like a transcription artifact".into(),
    };
    let mapped = map_error_json(e);
    assert_eq!(mapped.text, "I use NAS.js for it");
    assert_eq!(mapped.suggestion, "I use NestJS for it");
    assert_eq!(mapped.context, "NAS.js is the new API");
    assert_eq!(mapped.explanation, "looks like a transcription artifact");
}

fn raw(criticality: u32, category: &str, text: &str) -> ErrorJson {
    ErrorJson {
        text: text.into(),
        suggestion: "s".into(),
        category: category.into(),
        criticality,
        context: String::new(),
        explanation: String::new(),
    }
}

fn answer(level: &str, errors: Vec<ErrorJson>) -> Result<AnalysisJson, String> {
    Ok(AnalysisJson {
        cefr_level: level.into(),
        cefr_justification: " because \n".into(),
        errors,
    })
}

#[test]
fn every_known_phrase_is_suppressed_in_any_case() {
    for phrase in [
        "a lot", "consisted", "consisting of", "every day", "daily", "instead of",
        "with one click", "with docker", "with pricing", "for the core", "the core",
        "the process is more agile",
    ] {
        let text = format!("x {} y", phrase.to_uppercase());
        assert!(filter_style_false_positives(vec![item(5, "vocabulary", &text, "z")]).is_empty(), "{phrase}");
        assert!(filter_style_false_positives(vec![item(5, "other", "z", &text)]).is_empty(), "{phrase}");
        assert_eq!(filter_style_false_positives(vec![item(5, "GRAMMAR", &text, "z")]).len(), 1);
        assert_eq!(filter_style_false_positives(vec![item(5, "Pronunciation", &text, "z")]).len(), 1);
    }
}

#[test]
fn filtering_twice_changes_nothing_more() {
    let list = || vec![item(9, "awkward", "p", "q"), item(1, "vocabulary", "daily", "q"), item(7, "other", "r", "s")];
    let once = filter_style_false_positives(list());
    let seen: Vec<(String, u32)> = once.iter().map(|e| (e.text.clone(), e.criticality)).collect();
    assert_eq!(seen, vec![("p".to_string(), 2), ("r".to_string(), 7)]);
    let twice = filter_style_false_positives(once);
    let again: Vec<(String, u32)> = twice.iter().map(|e| (e.text.clone(), e.criticality)).collect();
    assert_eq!(again, seen);
}

#[test]
fn analyses_are_validated_and_prioritized() {
    let r = parse_analysis(answer(
        " b2 ",
        vec![
            raw(1, "grammar", "one"),
            raw(5, "", "two"),
            raw(5, "grammar", "three"),
            raw(4, "vocabulary", "improved a lot"),
            raw(5, "awkward", "four"),
        ],
    ));
    let a = r.unwrap();
    assert_eq!(a.cefr_label, "B2");
    assert_eq!(a.cefr_justification, "because");
    let seen: Vec<(&str, &str, u32)> = a
        .errors
        .iter()
        .map(|e| (e.text.as_str(), e.category.as_str(), e.criticality))
        .collect();
    assert_eq!(
        seen,
        vec![
            ("two", "other", 5),
            ("three", "grammar", 5),
            ("four", "awkward", 2),
            ("one", "grammar", 1),
        ]
    );
}

#[test]
fn levels_outside_cefr_are_refused() {
    for level in ["", "A", "D1", "A3", "B1+", "A 1", "native"] {
        match parse_analysis(answer(level, vec![])) {
            Err(e) => assert_eq!(
                e.message(),
                format!("analysis failed: invalid CEFR level from model: '{level}'")
            ),
            Ok(_) => panic!("{level} is no level"),
        }
    }
    for level in ["A1", "a2", "B1", "\tb2", "C1 ", "c2"] {
        let a = parse_analysis(answer(level, vec![])).unwrap();
        assert_eq!(a.cefr_label, level.trim().to_uppercase());
    }
}

#[test]
fn a_level_is_what_its_upper_case_says() {
    // One character in front of a digit, for every character there is.
    let labels = ["A1", "A2", "B1", "B2", "C1", "C2"];
    for n in 0..=0x10ffffu32 {
        if let Some(c) = char::from_u32(n) {
            if c.is_ascii() || c.to_uppercase().any(|u| u.is_ascii()) {
                let level = format!("{c}1");
                let upper = level.trim().to_uppercase();
                let r = parse_analysis(answer(&level, vec![]));
                assert_eq!(r.is_ok(), labels.contains(&upper.as_str()), "{n:x}");
            }
        }
    }
}

#[test]
fn unparsable_answers_are_reported() {
    let e = parse_analysis(Err("eof".into())).unwrap_err();
    assert_eq!(e.message(), "analysis failed: llm output was not valid JSON: eof");
}

#[test]
fn live_boxes_follow_the_same_rules() {
    assert!(error_item_from_json(None).is_none());
    assert!(error_item_from_json(Some(raw(4, "vocabulary", "every day"))).is_none());
    let shown = error_item_from_json(Some(raw(4, "awkward", " «x» y "))).unwrap();
    assert_eq!(shown.text, "x y");
    assert_eq!(shown.criticality, 2);
}

#[test]
fn json_is_found_behind_fences_and_prose() {
    let json = "{\"a\": [1, {}]}";
    for wrapped in [
        json.to_string(),
        format!("  {json}\n"),
        format!("```json\n{json}\n```"),
        format!("```\n{json}```"),
        format!("Here is the JSON:\n{json}"),
        format!("```json\nSure! {json}\n```\n"),
    ] {
        assert_eq!(strip_fences(&wrapped), json);
    }
    assert_eq!(strip_fences(" no braces "), "no braces");
    assert_eq!(strip_fences("``````"), "");
}

fn provider(url: &str) -> OllamaProvider {
    let vars = EnvVars {
        bind_addr: None,
        whisper_model: None,
        whisper_use_gpu: None,
        whisper_initial_prompt: None,
        whisper_vocab_hints: None,
        whisper_low_conf_threshold: None,
        ollama_url: Some(url.into()),
        llm_model: Some("m".into()),
        llm_temperature: Some(Single { bits: 0.5f32.to_bits() }),
        stream_retention_secs: None,
        stream_max_secs: None,
        stream_partial_interval_secs: None,
        stream_rms_floor: None,
    };
    OllamaProvider::new(&Config::from_env(vars, "/srv/backend", Platform::Unix))
}

#[test]
fn requests_carry_the_instructions_and_the_transcript() {
    let p = provider("http://h:1//");
    assert_eq!(p.chat_url(), "http://h:1/v1/chat/completions");
    assert_eq!(p.stream_url(), "http://h:1/api/chat");
    let prompt = "Here is the transcript of what I spoke to practice English:\n\n\"\"\"\nI go.\n\"\"\"\n\nAnalyze it as instructed and return the JSON object.";
    let chat = p.build_request("I go.");
    assert_eq!(chat.model, "m");
    assert!(!chat.stream);
    assert_eq!(f32::from_bits(chat.temperature.bits), 0.5);
    assert_eq!(chat.response_format, "json_object");
    assert_eq!(chat.messages.len(), 2);
    assert_eq!(chat.messages[0].role, "system");
    assert_eq!(chat.messages[0].content, SYSTEM_PROMPT);
    assert_eq!(chat.messages[1].role, "user");
    assert_eq!(chat.messages[1].content, prompt);
    let stream = p.build_stream_request("I go.");
    assert!(stream.stream);
    assert_eq!(stream.format, "json");
    assert_eq!(stream.messages[1].content, prompt);
    assert_eq!(OllamaProvider::user_prompt("I go."), prompt);
}

fn failed(retryable: bool) -> SendOutcome {
    SendOutcome::Failed { message: "gone".into(), retryable }
}

#[test]
fn transport_failures_are_retried_a_few_times() {
    assert!(matches!(after_attempt(RequestKind::Chat, 0, SendOutcome::Answered), SendStep::Handle));
    assert!(matches!(after_attempt(RequestKind::Chat, 0, failed(true)), SendStep::Retry));
    assert!(matches!(after_attempt(RequestKind::Chat, 1, failed(true)), SendStep::Retry));
    match after_attempt(RequestKind::Chat, MAX_ATTEMPTS - 1, failed(true)) {
        SendStep::GiveUp(e) => assert_eq!(e.message(), "analysis failed: llm request failed: gone"),
        _ => panic!("the last attempt is the last"),
    }
    match after_attempt(RequestKind::Stream, 0, failed(false)) {
        SendStep::GiveUp(e) => assert_eq!(e.message(), "analysis failed: llm stream request failed: gone"),
        _ => panic!("only what may pass is retried"),
    }
}

#[test]
fn replies_give_the_first_choice() {
    let r = handle_response(LlmReply::Choices(vec!["x".into(), "y".into()]));
    assert_eq!(r.unwrap(), "x");
    let e = handle_response(LlmReply::Choices(vec![])).unwrap_err();
    assert_eq!(e.message(), "analysis failed: llm returned no choices");
    let e = handle_response(LlmReply::Unreadable("bad".into())).unwrap_err();
    assert_eq!(e.message(), "analysis failed: llm response not parseable: bad");
    let e = handle_response(LlmReply::Refused { status: "404 Not Found".into(), body: "b".into() }).unwrap_err();
    assert_eq!(e.message(), "analysis failed: llm returned 404 Not Found: b");
    assert_eq!(refusal("500", "x").message(), "analysis failed: llm returned 500: x");
    assert_eq!(broken_stream("eof").message(), "analysis failed: reading llm stream failed: eof");
}

#[test]
fn lines_of_a_stream_are_told_apart() {
    assert!(matches!(on_line(" \r\n"), LineStep::Skip));
    assert!(matches!(on_line("done\n"), LineStep::Stop));
    match on_line(" {\"done\":true}\n") {
        LineStep::Parse(s) => assert_eq!(s, "{\"done\":true}"),
        _ => panic!("this line is to be parsed"),
    }
}

fn chunk(content: Option<&str>, done: bool) -> Option<OllamaStreamChunk> {
    Some(OllamaStreamChunk {
        message: Some(OllamaStreamMessage { content: content.map(|c| c.to_string()) }),
        done,
    })
}

#[test]
fn a_streamed_answer_is_what_was_reported() {
    let mut answer = StreamedAnswer::new();
    let mut reported = String::new();
    for c in [
        chunk(Some("{\"a"), false),
        None,
        chunk(Some(""), false),
        chunk(None, false),
        Some(OllamaStreamChunk { message: None, done: false }),
        chunk(Some("\":1}"), true),
    ] {
        let last = matches!(&c, Some(x) if x.done);
        let step = answer.on_chunk(c);
        if let Some(d) = step.delta {
            reported.push_str(&d);
        }
        assert_eq!(step.stop, last);
    }
    assert_eq!(answer.content, "{\"a\":1}");
    assert_eq!(reported, answer.content);
}

struct Fixed;

impl AnalysisProvider for Fixed {
    fn analyze(&self, transcript: &str) -> AnalysisResult {
        if transcript.is_empty() {
            return Err(AppError::Analysis("empty".into()));
        }
        Ok(Analysis {
            cefr_label: "A1".into(),
            cefr_justification: transcript.into(),
            errors: vec![],
        })
    }
}

struct Seen {
    deltas: Vec<String>,
}

impl DeltaSink for Seen {
    fn on_delta(&mut self, delta: &str) {
        self.deltas.push(delta.to_string());
    }
}

#[test]
fn streaming_defaults_to_plain_analysis() {
    let mut seen = Seen { deltas: vec![] };
    let a = Fixed.analyze_streaming("hello", &mut seen).unwrap();
    assert_eq!(a.cefr_justification, "hello");
    assert!(seen.deltas.is_empty());
    assert!(Fixed.analyze_streaming("", &mut seen).is_err());
    seen.on_delta("x");
    assert_eq!(seen.deltas, vec!["x".to_string()]);
}

#[test]
fn no_mark_leaks_into_a_result() {
    let mut e = raw(3, "«awk»ward", "«x»");
    e.suggestion = "«".into();
    e.context = "y»".into();
    e.explanation = "«z»".into();
    let a = parse_analysis(Ok(AnalysisJson {
        cefr_level: "B1".into(),
        cefr_justification: " uses «NAS.js» well ".into(),
        errors: vec![e, raw(1, "«»", "two")],
    }))
    .unwrap();
    assert_eq!(a.cefr_justification, "uses NAS.js well");
    assert_eq!(a.errors[0].category, "awkward");
    assert_eq!(a.errors[0].criticality, 2);
    assert_eq!(a.errors[1].category, "other");
    for e in &a.errors {
        for s in [&e.text, &e.suggestion, &e.category, &e.context, &e.explanation] {
            assert!(!s.contains('«') && !s.contains('»'), "{s}");
        }
    }
}

/// Reads lines as a reader of the stream does, with a parser that takes
/// `text` for a chunk of that text and `text!` for the last one.
fn read(lines: &[&str]) -> (String, Vec<String>) {
    let mut answer = StreamedAnswer::new();
    let mut reported = Vec::new();
    for line in lines {
        match on_line(line) {
            LineStep::Skip => continue,
            LineStep::Stop => break,
            LineStep::Parse(body) => {
                let parsed = match body.strip_suffix('!') {
                    _ if body.starts_with('#') => None,
                    Some(text) => chunk(Some(text), true),
                    None => chunk(Some(&body), false),
                };
                let step = answer.on_chunk(parsed);
                reported.extend(step.delta);
                if step.stop {
                    break;
                }
            }
        }
    }
    (answer.content, reported)
}

#[test]
fn reading_ends_at_the_first_last_line() {
    let (content, reported) = read(&["a", " ", "#odd", "b!", "c"]);
    assert_eq!(content, "ab");
    assert_eq!(reported, vec!["a", "b"]);
    let (content, reported) = read(&["a\n", " done \r\n", "b"]);
    assert_eq!(content, "a");
    assert_eq!(reported, vec!["a"]);
    let (content, reported) = read(&["a", "!", "b"]);
    assert_eq!(content, "a");
    assert_eq!(reported, vec!["a"]);
    assert_eq!(read(&["a", "b"]).0, "ab");
    assert_eq!(read(&[]).0, "");
}
