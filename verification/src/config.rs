//! The configuration, and how it follows from environment variables.

use crate::text;
use crate::text::{chars_of, parse_number, same_ignoring_case, same_text};
use vstd::prelude::*;
use vstd::string::*;

verus! {

/// Seed vocabulary for Whisper's initial-prompt bias. Helps technical terms
/// survive transcription by biasing the decoder toward these tokens.
/// Deliberately domain-general: `WHISPER_VOCAB_HINTS` is the hook for personal
/// terms. Overridable entirely via `WHISPER_INITIAL_PROMPT`.
pub const DEFAULT_WHISPER_INITIAL_PROMPT: &'static str =
    "APIs, microservices, databases, SQL, NoSQL, cloud, WebSockets, REST, CI/CD, Docker, Kubernetes, deployment, TypeScript, JavaScript, React, Node.js, frontend, backend, testing, architecture.";

/// A single-precision number, held by its IEEE 754 bit pattern: the library
/// carries such numbers and does not calculate with them.
#[derive(Clone, Copy, Debug, PartialEq, Eq, Structural)]
pub struct Single {
    pub bits: u32,
}

/// The bit pattern of 0.6.
pub const DEFAULT_LOW_CONF_THRESHOLD_BITS: u32 = 0x3f19_999a;

/// The bit pattern of 0.1.
pub const DEFAULT_TEMPERATURE_BITS: u32 = 0x3dcc_cccd;

/// The bit pattern of 0.002.
pub const DEFAULT_RMS_FLOOR_BITS: u32 = 0x3b03_126f;

#[derive(Debug, Clone)]
pub struct Config {
    pub bind_addr: String,
    /// Path to the ggml Whisper model file (.bin).
    pub whisper_model: String,
    /// Whether whisper.cpp should use the CUDA GPU backend.
    pub whisper_use_gpu: bool,
    /// Seed vocabulary passed to Whisper as an initial prompt.
    pub whisper_initial_prompt: String,
    /// Optional extra terms (company/product names, niche jargon) appended to
    /// the Whisper seed. See `effective_whisper_prompt`.
    pub whisper_vocab_hints: String,
    /// Tokens with confidence below this are treated as likely transcription
    /// artifacts in the analysis.
    pub whisper_low_conf_threshold: Single,
    /// LLM server base URL.
    pub ollama_url: String,
    /// Model name served by the LLM backend.
    pub llm_model: String,
    /// LLM temperature for structured extraction.
    pub llm_temperature: Single,
    /// How long a streaming session is kept before it is swept (seconds).
    pub stream_retention_secs: u64,
    /// Hard cap on recorded audio per session (seconds).
    pub stream_max_secs: usize,
    /// How much new audio triggers a refining partial transcribe (seconds).
    pub stream_partial_interval_secs: usize,
    /// RMS floor below which a chunk is treated as silence and does not trigger
    /// a partial. Keeps Whisper from hallucinating on quiet pauses.
    pub stream_rms_floor: Single,
}

/// The environment variables that the configuration is made from: `None` where
/// a variable is not set or no text, and, for the three that hold a
/// single-precision number, where it is not written as one.
#[derive(Debug, Clone)]
pub struct EnvVars {
    pub bind_addr: Option<String>,
    pub whisper_model: Option<String>,
    pub whisper_use_gpu: Option<String>,
    pub whisper_initial_prompt: Option<String>,
    pub whisper_vocab_hints: Option<String>,
    pub whisper_low_conf_threshold: Option<Single>,
    pub ollama_url: Option<String>,
    pub llm_model: Option<String>,
    pub llm_temperature: Option<Single>,
    pub stream_retention_secs: Option<String>,
    pub stream_max_secs: Option<String>,
    pub stream_partial_interval_secs: Option<String>,
    pub stream_rms_floor: Option<Single>,
}

/// The text of a variable, or `default` where it is not set.
pub open spec fn text_or(var: Option<String>, default: Seq<char>) -> Seq<char> {
    match var {
        Some(v) => v@,
        None => default,
    }
}

/// The number in a variable, or `default` where it is not set or holds no
/// number of at most `max`.
pub open spec fn number_or(var: Option<String>, max: nat, default: nat) -> nat {
    match var {
        Some(v) => match text::number_in(v@, max) {
            Some(n) => n,
            None => default,
        },
        None => default,
    }
}

/// The number in a variable, or `default` where there is none.
pub open spec fn single_or(var: Option<Single>, default_bits: u32) -> Single {
    match var {
        Some(v) => v,
        None => Single { bits: default_bits },
    }
}

/// Whether a variable switches something on: it is `1`, or `true` in any case.
pub open spec fn is_switched_on(var: Option<String>) -> bool {
    match var {
        Some(v) => v@ == "1"@ || text::lower(v@) == text::lower("true"@),
        None => false,
    }
}

/// The platform that the backend runs on, as far as its paths go.
#[derive(Clone, Copy, Debug, PartialEq, Eq, Structural)]
pub enum Platform {
    /// `/` separates the parts of a path and stands in front of an absolute one.
    Unix,
    /// Paths follow other rules.
    Other,
}

/// The path `path` as it is meant in the directory `home`, on Unix: an absolute
/// path stands for itself.
pub open spec fn unix_join(home: Seq<char>, path: Seq<char>) -> Seq<char> {
    if path.len() > 0 && path[0] == '/' {
        path
    } else if home.len() == 0 || home.last() == '/' {
        home + path
    } else {
        home + "/"@ + path
    }
}

/// A directory that is written alike on every platform: it does not end in a
/// separator or a drive, and names no server or device.
pub open spec fn is_plain_directory(home: Seq<char>) -> bool {
    &&& home.len() > 0
    &&& home.last() != '/' && home.last() != '\\' && home.last() != ':'
    &&& !(home.len() > 1 && home[0] == '\\' && home[1] == '\\')
}

/// A path that is relative on every platform: it begins at no root and names no
/// drive.
pub open spec fn is_plain_path(path: Seq<char>) -> bool {
    path.len() > 0 && path[0] != '/' && path[0] != '\\' && !path.contains(':')
}

/// What joining a directory and a path gives, whatever the platform: where both
/// are plain, the two with one separator in between.
pub open spec fn is_joined(home: Seq<char>, path: Seq<char>, out: Seq<char>) -> bool {
    is_plain_directory(home) && is_plain_path(path) ==> out == home + "/"@ + path || out == home
        + "\\"@ + path
}

/// `out` is the path `path` as it is meant in the directory `home`.
pub open spec fn is_resolved(
    platform: Platform,
    home: Seq<char>,
    path: Seq<char>,
    out: Seq<char>,
) -> bool {
    match platform {
        Platform::Unix => out == unix_join(home, path),
        Platform::Other => is_joined(home, path, out),
    }
}

/// Calls `std::path::Path::join`, which adjoins the path to the directory by the
/// rules of the platform that the program runs on. Claimed of it: a path that is
/// relative on every platform comes behind the directory, with one separator,
/// which is `/` or `\`. What becomes of other paths is left to the platform: an
/// absolute one replaces the directory, one that begins at a root keeps its
/// drive.
#[verifier::external_body]
fn join_path(home: &str, path: &str) -> (out: String)
    ensures
        is_joined(home@, path@, out@),
{
    std::path::Path::new(home).join(path).to_string_lossy().into_owned()
}

/// The path `path` as it is meant in the directory `home`.
fn resolve_path(platform: Platform, home: &str, path: String) -> (out: String)
    ensures
        is_resolved(platform, home@, path@, out@),
{
    match platform {
        Platform::Unix => {
            let dir = chars_of(home);
            let chars = chars_of(path.as_str());
            if chars.len() > 0 && chars[0] == '/' {
                path
            } else if dir.len() == 0 || dir[dir.len() - 1] == '/' {
                home.to_owned().concat(path.as_str())
            } else {
                home.to_owned().concat("/").concat(path.as_str())
            }
        },
        Platform::Other => join_path(home, path.as_str()),
    }
}

fn take_text(var: Option<String>, default: &str) -> (out: String)
    ensures
        out@ == text_or(var, default@),
{
    match var {
        Some(v) => v,
        None => default.to_owned(),
    }
}

fn take_number(var: Option<String>, max: u64, default: u64) -> (out: u64)
    requires
        default <= max,
    ensures
        out == number_or(var, max as nat, default as nat),
        out <= max,
{
    match var {
        Some(v) => match parse_number(v.as_str(), max) {
            Some(n) => n,
            None => default,
        },
        None => default,
    }
}

fn take_single(var: Option<Single>, default_bits: u32) -> (out: Single)
    ensures
        out == single_or(var, default_bits),
{
    match var {
        Some(v) => v,
        None => Single { bits: default_bits },
    }
}

impl Config {
    /// The Whisper decoder seed.
    pub open spec fn whisper_prompt(self) -> Seq<char> {
        if self.whisper_vocab_hints@.len() == 0 {
            self.whisper_initial_prompt@
        } else {
            self.whisper_initial_prompt@ + ", "@ + self.whisper_vocab_hints@
        }
    }

    /// The Whisper decoder seed: the base prompt plus the caller's vocabulary
    /// hints, comma-separated. Personal names in the hints bend the decoder
    /// toward them without widening the shipped default.
    pub fn effective_whisper_prompt(&self) -> (out: String)
        ensures
            out@ == self.whisper_prompt(),
    {
        if self.whisper_vocab_hints.as_str().is_empty() {
            self.whisper_initial_prompt.clone()
        } else {
            self.whisper_initial_prompt.clone().concat(", ").concat(
                self.whisper_vocab_hints.as_str(),
            )
        }
    }

    /// The configuration that the environment variables give. A relative model
    /// path is resolved against `home`, the backend's own directory, so that the
    /// backend runs from any working directory.
    pub fn from_env(vars: EnvVars, home: &str, platform: Platform) -> (cfg: Config)
        ensures
            cfg.bind_addr@ == text_or(vars.bind_addr, "127.0.0.1:8787"@),
            is_resolved(
                platform,
                home@,
                text_or(vars.whisper_model, "models/ggml-small.en.bin"@),
                cfg.whisper_model@,
            ),
            cfg.whisper_use_gpu == is_switched_on(vars.whisper_use_gpu),
            cfg.whisper_initial_prompt@ == text_or(
                vars.whisper_initial_prompt,
                DEFAULT_WHISPER_INITIAL_PROMPT@,
            ),
            cfg.whisper_vocab_hints@ == text_or(vars.whisper_vocab_hints, Seq::empty()),
            cfg.whisper_low_conf_threshold == single_or(
                vars.whisper_low_conf_threshold,
                DEFAULT_LOW_CONF_THRESHOLD_BITS,
            ),
            cfg.ollama_url@ == text_or(vars.ollama_url, "http://localhost:11434"@),
            cfg.llm_model@ == text_or(vars.llm_model, "llama3.1:8b"@),
            cfg.llm_temperature == single_or(vars.llm_temperature, DEFAULT_TEMPERATURE_BITS),
            cfg.stream_retention_secs == number_or(vars.stream_retention_secs, u64::MAX as nat, 600),
            cfg.stream_max_secs == number_or(vars.stream_max_secs, usize::MAX as nat, 600),
            cfg.stream_partial_interval_secs == number_or(
                vars.stream_partial_interval_secs,
                usize::MAX as nat,
                2,
            ),
            cfg.stream_rms_floor == single_or(vars.stream_rms_floor, DEFAULT_RMS_FLOOR_BITS),
    {
        let whisper_use_gpu = match &vars.whisper_use_gpu {
            Some(v) => same_text(v.as_str(), "1") || same_ignoring_case(v.as_str(), "true"),
            None => false,
        };
        let max: u64 = usize::MAX as u64;
        Config {
            bind_addr: take_text(vars.bind_addr, "127.0.0.1:8787"),
            whisper_model: resolve_path(
                platform,
                home,
                take_text(vars.whisper_model, "models/ggml-small.en.bin"),
            ),
            whisper_use_gpu,
            whisper_initial_prompt: take_text(
                vars.whisper_initial_prompt,
                DEFAULT_WHISPER_INITIAL_PROMPT,
            ),
            whisper_vocab_hints: match vars.whisper_vocab_hints {
                Some(v) => v,
                None => String::new(),
            },
            whisper_low_conf_threshold: take_single(
                vars.whisper_low_conf_threshold,
                DEFAULT_LOW_CONF_THRESHOLD_BITS,
            ),
            ollama_url: take_text(vars.ollama_url, "http://localhost:11434"),
            llm_model: take_text(vars.llm_model, "llama3.1:8b"),
            llm_temperature: take_single(vars.llm_temperature, DEFAULT_TEMPERATURE_BITS),
            stream_retention_secs: take_number(vars.stream_retention_secs, u64::MAX, 600),
            stream_max_secs: take_number(vars.stream_max_secs, max, 600) as usize,
            stream_partial_interval_secs: take_number(
                vars.stream_partial_interval_secs,
                max,
                2,
            ) as usize,
            stream_rms_floor: take_single(vars.stream_rms_floor, DEFAULT_RMS_FLOOR_BITS),
        }
    }
}

/// A variable that is set gives the text as it is; one that is not gives the
/// default.
pub proof fn law_variables_override_defaults(
    vars: EnvVars,
    home: &str,
    platform: Platform,
    cfg: Config,
)
    requires
        call_ensures(Config::from_env, (vars, home, platform), cfg),
    ensures
        vars.bind_addr matches Some(v) ==> cfg.bind_addr@ == v@,
        vars.bind_addr is None ==> cfg.bind_addr@ == "127.0.0.1:8787"@,
        vars.whisper_initial_prompt matches Some(v) ==> cfg.whisper_initial_prompt@ == v@,
        vars.whisper_initial_prompt is None ==> cfg.whisper_initial_prompt@
            == DEFAULT_WHISPER_INITIAL_PROMPT@,
        vars.whisper_vocab_hints matches Some(v) ==> cfg.whisper_vocab_hints@ == v@,
        vars.whisper_vocab_hints is None ==> cfg.whisper_vocab_hints@.len() == 0,
        vars.ollama_url matches Some(v) ==> cfg.ollama_url@ == v@,
        vars.ollama_url is None ==> cfg.ollama_url@ == "http://localhost:11434"@,
        vars.llm_model matches Some(v) ==> cfg.llm_model@ == v@,
        vars.llm_model is None ==> cfg.llm_model@ == "llama3.1:8b"@,
        vars.whisper_low_conf_threshold matches Some(v) ==> cfg.whisper_low_conf_threshold == v,
        vars.whisper_low_conf_threshold is None ==> cfg.whisper_low_conf_threshold.bits
            == 0x3f19_999a,
        vars.llm_temperature matches Some(v) ==> cfg.llm_temperature == v,
        vars.llm_temperature is None ==> cfg.llm_temperature.bits == 0x3dcc_cccd,
        vars.stream_rms_floor matches Some(v) ==> cfg.stream_rms_floor == v,
        vars.stream_rms_floor is None ==> cfg.stream_rms_floor.bits == 0x3b03_126f,
{
}

/// A limit is the number that its variable writes, or its default where it
/// writes none that fits.
pub proof fn law_limits_are_read_as_numbers(
    vars: EnvVars,
    home: &str,
    platform: Platform,
    cfg: Config,
)
    requires
        call_ensures(Config::from_env, (vars, home, platform), cfg),
    ensures
        vars.stream_retention_secs is None ==> cfg.stream_retention_secs == 600,
        vars.stream_retention_secs matches Some(v) ==> match text::number_in(
            v@,
            u64::MAX as nat,
        ) {
            Some(n) => cfg.stream_retention_secs == n,
            None => cfg.stream_retention_secs == 600,
        },
        vars.stream_max_secs is None ==> cfg.stream_max_secs == 600,
        vars.stream_max_secs matches Some(v) ==> match text::number_in(v@, usize::MAX as nat) {
            Some(n) => cfg.stream_max_secs == n,
            None => cfg.stream_max_secs == 600,
        },
        vars.stream_partial_interval_secs is None ==> cfg.stream_partial_interval_secs == 2,
        vars.stream_partial_interval_secs matches Some(v) ==> match text::number_in(
            v@,
            usize::MAX as nat,
        ) {
            Some(n) => cfg.stream_partial_interval_secs == n,
            None => cfg.stream_partial_interval_secs == 2,
        },
{
}

/// The graphics card is used when the variable says `1`, or `true` in whatever
/// case, and not otherwise.
pub proof fn law_switch_is_one_or_true(
    vars: EnvVars,
    home: &str,
    platform: Platform,
    cfg: Config,
)
    requires
        call_ensures(Config::from_env, (vars, home, platform), cfg),
    ensures
        cfg.whisper_use_gpu <==> (vars.whisper_use_gpu matches Some(v) && (v@ == seq!['1']
            || text::lower(v@) == seq!['t', 'r', 'u', 'e'])),
{
    reveal_strlit("1");
    reveal_strlit("true");
    assert("1"@ =~= seq!['1']);
    assert(text::lower("true"@) =~= seq!['t', 'r', 'u', 'e']);
}

/// On Unix the model's path is the variable's where that is absolute, and else
/// the variable's (or the default) in the backend's directory, with one slash in
/// between where the directory does not end with one.
pub proof fn law_model_path_on_unix(vars: EnvVars, home: &str, cfg: Config, dir: Seq<char>)
    requires
        call_ensures(Config::from_env, (vars, home, Platform::Unix), cfg),
    ensures
        vars.whisper_model matches Some(v) ==> (v@.len() > 0 && v@[0] == '/'
            ==> cfg.whisper_model@ == v@),
        vars.whisper_model matches Some(v) ==> (!(v@.len() > 0 && v@[0] == '/') ==> {
            &&& home@ == dir.push('/') ==> cfg.whisper_model@ == dir + seq!['/'] + v@
            &&& home@ == dir && dir.len() > 0 && dir.last() != '/' ==> cfg.whisper_model@ == dir
                + seq!['/'] + v@
            &&& home@.len() == 0 ==> cfg.whisper_model@ == v@
        }),
        vars.whisper_model is None && home@ == dir && dir.len() > 0 && dir.last() != '/'
            ==> cfg.whisper_model@ == dir + "/models/ggml-small.en.bin"@,
{
    reveal_strlit("/");
    reveal_strlit("models/ggml-small.en.bin");
    reveal_strlit("/models/ggml-small.en.bin");
    assert("/"@ =~= seq!['/']);
    if let Some(v) = vars.whisper_model {
        if home@ == dir.push('/') {
            assert(home@ + v@ =~= dir + seq!['/'] + v@);
        }
        assert(home@.len() == 0 ==> home@ + v@ =~= v@);
    } else {
        assert(dir + "/"@ + "models/ggml-small.en.bin"@ =~= dir + "/models/ggml-small.en.bin"@);
    }
}

/// The decoder is seeded with the base prompt as it is, and, where there are
/// hints, with a comma, a space and the hints as they are behind it.
pub proof fn law_prompt_is_base_and_hints(cfg: Config, out: String)
    requires
        call_ensures(Config::effective_whisper_prompt, (&cfg,), out),
    ensures
        cfg.whisper_vocab_hints@.len() == 0 ==> out@ == cfg.whisper_initial_prompt@,
        cfg.whisper_vocab_hints@.len() > 0 ==> out@ == cfg.whisper_initial_prompt@ + seq![',', ' ']
            + cfg.whisper_vocab_hints@,
{
    reveal_strlit(", ");
    assert(", "@ =~= seq![',', ' ']);
}

} // verus!
