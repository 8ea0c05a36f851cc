use speak_local::config::{Config, EnvVars, Platform, Single, DEFAULT_WHISPER_INITIAL_PROMPT};
use speak_local::error::AppError;

fn single(x: f32) -> Single {
    Single { bits: x.to_bits() }
}

fn config(prompt: &str, hints: &str) -> Config {
    Config {
        bind_addr: "x".into(),
        whisper_model: "m".into(),
        whisper_use_gpu: false,
        whisper_initial_prompt: prompt.into(),
        whisper_vocab_hints: hints.into(),
        whisper_low_conf_threshold: single(0.6),
        ollama_url: "http://localhost:11434".into(),
        llm_model: "llama3.1:8b".into(),
        llm_temperature: single(0.1),
        stream_retention_secs: 600,
        stream_max_secs: 600,
        stream_partial_interval_secs: 2,
        stream_rms_floor: single(0.002),
    }
}

#[test]
fn effective_prompt_composes_base_and_hints() {
    let cfg = config("APIs, NoSQL", "LuizaLabs, LIGA FACENS");
    assert_eq!(
        cfg.effective_whisper_prompt(),
        "APIs, NoSQL, LuizaLabs, LIGA FACENS"
    );
    let mut no_hints = cfg.clone();
    no_hints.whisper_vocab_hints.clear();
    assert_eq!(no_hints.effective_whisper_prompt(), "APIs, NoSQL");
}

#[test]
fn default_whisper_prompt_has_no_personal_names() {
    let cfg = config(DEFAULT_WHISPER_INITIAL_PROMPT, "");
    let p = cfg.effective_whisper_prompt();
    assert!(p.contains("APIs"));
    assert!(p.contains("NoSQL"));
    for personal in ["NestJS", "LuizaLabs", "LinkApi", "BuildOne", "Wellhub"] {
        assert!(!p.contains(personal), "default must not contain {personal}");
    }
}

fn no_vars() -> EnvVars {
    EnvVars {
        bind_addr: None,
        whisper_model: None,
        whisper_use_gpu: None,
        whisper_initial_prompt: None,
        whisper_vocab_hints: None,
        whisper_low_conf_threshold: None,
        ollama_url: None,
        llm_model: None,
        llm_temperature: None,
        stream_retention_secs: None,
        stream_max_secs: None,
        stream_partial_interval_secs: None,
        stream_rms_floor: None,
    }
}

#[test]
fn defaults_are_as_documented() {
    let cfg = Config::from_env(no_vars(), "/srv/backend", Platform::Unix);
    assert_eq!(cfg.bind_addr, "127.0.0.1:8787");
    assert_eq!(cfg.whisper_model, "/srv/backend/models/ggml-small.en.bin");
    assert!(!cfg.whisper_use_gpu);
    assert_eq!(cfg.whisper_initial_prompt, DEFAULT_WHISPER_INITIAL_PROMPT);
    assert_eq!(cfg.whisper_vocab_hints, "");
    assert_eq!(f32::from_bits(cfg.whisper_low_conf_threshold.bits), 0.6);
    assert_eq!(cfg.ollama_url, "http://localhost:11434");
    assert_eq!(cfg.llm_model, "llama3.1:8b");
    assert_eq!(f32::from_bits(cfg.llm_temperature.bits), 0.1);
    assert_eq!(cfg.stream_retention_secs, 600);
    assert_eq!(cfg.stream_max_secs, 600);
    assert_eq!(cfg.stream_partial_interval_secs, 2);
    assert_eq!(f32::from_bits(cfg.stream_rms_floor.bits), 0.002);
}

#[test]
fn variables_override_defaults() {
    let mut vars = no_vars();
    vars.bind_addr = Some("0.0.0.0:1".into());
    vars.whisper_use_gpu = Some("TRUE".into());
    vars.whisper_vocab_hints = Some("Kafka".into());
    vars.whisper_low_conf_threshold = Some(single(0.25));
    vars.stream_retention_secs = Some("+30".into());
    vars.stream_max_secs = Some("007".into());
    let cfg = Config::from_env(vars, "/srv/backend", Platform::Unix);
    assert_eq!(cfg.bind_addr, "0.0.0.0:1");
    assert!(cfg.whisper_use_gpu);
    assert_eq!(cfg.whisper_vocab_hints, "Kafka");
    assert_eq!(cfg.whisper_low_conf_threshold, single(0.25));
    assert_eq!(cfg.stream_retention_secs, 30);
    assert_eq!(cfg.stream_max_secs, 7);
}

#[test]
fn unreadable_numbers_fall_back() {
    for bad in ["", "-1", "12s", " 3", "18446744073709551616", "+", "1.5"] {
        let mut vars = no_vars();
        vars.stream_retention_secs = Some(bad.into());
        vars.stream_partial_interval_secs = Some(bad.into());
        let cfg = Config::from_env(vars, "/srv/backend", Platform::Unix);
        assert_eq!(cfg.stream_retention_secs, 600, "{bad}");
        assert_eq!(cfg.stream_partial_interval_secs, 2, "{bad}");
        assert!(bad.parse::<u64>().is_err());
    }
    let mut vars = no_vars();
    vars.stream_retention_secs = Some("18446744073709551615".into());
    assert_eq!(Config::from_env(vars, "/srv/backend", Platform::Unix).stream_retention_secs, u64::MAX);
}

#[test]
fn the_gpu_is_switched_on_by_one_or_true() {
    for (value, on) in [("1", true), ("true", true), ("True", true), ("0", false), ("yes", false), ("", false)] {
        let mut vars = no_vars();
        vars.whisper_use_gpu = Some(value.into());
        assert_eq!(Config::from_env(vars, "/srv/backend", Platform::Unix).whisper_use_gpu, on, "{value}");
    }
}

#[test]
fn errors_have_messages_and_status_codes() {
    let cases = [
        (AppError::Config("a".into()), "config error: a", 500),
        (AppError::Audio("b".into()), "audio decoding failed: b", 502),
        (AppError::Transcription("c".into()), "transcription failed: c", 502),
        (AppError::Analysis("d".into()), "analysis failed: d", 502),
        (AppError::Unprocessable("e".into()), "unprocessable request: e", 422),
        (AppError::Internal("f".into()), "internal error: f", 500),
    ];
    for (error, message, code) in cases {
        assert_eq!(error.message(), message);
        assert_eq!(error.status_code(), code);
    }
}

fn model(path: &str, home: &str, platform: Platform) -> String {
    let mut vars = no_vars();
    vars.whisper_model = Some(path.into());
    Config::from_env(vars, home, platform).whisper_model
}

#[test]
fn relative_model_paths_resolve_against_the_backend() {
    let unix = Platform::Unix;
    assert_eq!(model("models/ggml-tiny.bin", "/srv/backend", unix), "/srv/backend/models/ggml-tiny.bin");
    assert_eq!(model("models/ggml-tiny.bin", "/srv/backend/", unix), "/srv/backend/models/ggml-tiny.bin");
    assert_eq!(model("m.bin", "", unix), "m.bin");
    assert_eq!(model("/opt/m.bin", "/srv/backend", unix), "/opt/m.bin");
}

#[test]
fn model_paths_are_joined_as_std_joins_them() {
    let slashed = std::path::MAIN_SEPARATOR == '/';
    let platform = if slashed { Platform::Unix } else { Platform::Other };
    for home in ["/srv/backend", "/srv/backend/", "/", "", "rel", "a\\b"] {
        for path in ["models/x.bin", "/opt/x.bin", "", "./x", "../x", "C:x", "\\x"] {
            let joined = std::path::Path::new(home).join(path);
            let expected = joined.to_str().unwrap();
            assert_eq!(model(path, home, platform), expected);
            assert_eq!(model(path, home, Platform::Other), expected);
        }
    }
}
