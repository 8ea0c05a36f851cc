//! The errors of the backend.

use vstd::prelude::*;
use vstd::string::*;

verus! {

/// What went wrong, without the details.
#[derive(Clone, Copy, Debug, PartialEq, Eq, Structural)]
pub enum ErrorKind {
    Config,
    Audio,
    Transcription,
    Analysis,
    Unprocessable,
    Internal,
}

/// An error: its kind and its details.
#[derive(Debug)]
pub enum AppError {
    Config(String),
    Audio(String),
    Transcription(String),
    Analysis(String),
    Unprocessable(String),
    Internal(String),
}

/// The mathematical form of an error.
pub struct AppErrorView {
    pub kind: ErrorKind,
    pub detail: Seq<char>,
}

impl View for AppError {
    type V = AppErrorView;

    open spec fn view(&self) -> AppErrorView {
        match self {
            AppError::Config(d) => AppErrorView { kind: ErrorKind::Config, detail: d@ },
            AppError::Audio(d) => AppErrorView { kind: ErrorKind::Audio, detail: d@ },
            AppError::Transcription(d) => AppErrorView {
                kind: ErrorKind::Transcription,
                detail: d@,
            },
            AppError::Analysis(d) => AppErrorView { kind: ErrorKind::Analysis, detail: d@ },
            AppError::Unprocessable(d) => AppErrorView {
                kind: ErrorKind::Unprocessable,
                detail: d@,
            },
            AppError::Internal(d) => AppErrorView { kind: ErrorKind::Internal, detail: d@ },
        }
    }
}

impl AppErrorView {
    /// The words in front of the details in the error's message.
    pub open spec fn heading(self) -> Seq<char> {
        match self.kind {
            ErrorKind::Config => "config error: "@,
            ErrorKind::Audio => "audio decoding failed: "@,
            ErrorKind::Transcription => "transcription failed: "@,
            ErrorKind::Analysis => "analysis failed: "@,
            ErrorKind::Unprocessable => "unprocessable request: "@,
            ErrorKind::Internal => "internal error: "@,
        }
    }

    /// The error's message.
    pub open spec fn message(self) -> Seq<char> {
        self.heading() + self.detail
    }

    /// The HTTP status code of a response that reports the error.
    pub open spec fn status_code(self) -> u16 {
        match self.kind {
            ErrorKind::Config | ErrorKind::Internal => 500,
            ErrorKind::Audio | ErrorKind::Transcription | ErrorKind::Analysis => 502,
            ErrorKind::Unprocessable => 422,
        }
    }
}

impl AppError {
    /// The HTTP status code of a response that reports the error.
    pub fn status_code(&self) -> (code: u16)
        ensures
            code == self@.status_code(),
    {
        match self {
            AppError::Config(_) | AppError::Internal(_) => 500,
            AppError::Audio(_) | AppError::Transcription(_) | AppError::Analysis(_) => 502,
            AppError::Unprocessable(_) => 422,
        }
    }

    /// The error's message: what failed, then the details.
    pub fn message(&self) -> (out: String)
        ensures
            out@ == self@.message(),
    {
        match self {
            AppError::Config(d) => "config error: ".to_owned().concat(d.as_str()),
            AppError::Audio(d) => "audio decoding failed: ".to_owned().concat(d.as_str()),
            AppError::Transcription(d) => "transcription failed: ".to_owned().concat(d.as_str()),
            AppError::Analysis(d) => "analysis failed: ".to_owned().concat(d.as_str()),
            AppError::Unprocessable(d) => "unprocessable request: ".to_owned().concat(d.as_str()),
            AppError::Internal(d) => "internal error: ".to_owned().concat(d.as_str()),
        }
    }
}

/// The message of an error is its heading and then its details as they are,
/// whatever they hold.
pub proof fn law_message_holds_the_details(e: AppError, out: String)
    requires
        call_ensures(AppError::message, (&e,), out),
    ensures
        match e {
            AppError::Config(d) => out@ == "config error: "@ + d@,
            AppError::Audio(d) => out@ == "audio decoding failed: "@ + d@,
            AppError::Transcription(d) => out@ == "transcription failed: "@ + d@,
            AppError::Analysis(d) => out@ == "analysis failed: "@ + d@,
            AppError::Unprocessable(d) => out@ == "unprocessable request: "@ + d@,
            AppError::Internal(d) => out@ == "internal error: "@ + d@,
        },
{
}

/// The message of an error ends with its details and tells its kind: two errors
/// with the same details and different kinds have different messages.
pub proof fn law_message_tells_the_kind(a: AppErrorView, b: AppErrorView)
    ensures
        a.detail.is_suffix_of(a.message()),
        a.detail == b.detail && a.message() == b.message() ==> a.kind == b.kind,
{
    reveal_strlit("config error: ");
    reveal_strlit("audio decoding failed: ");
    reveal_strlit("transcription failed: ");
    reveal_strlit("analysis failed: ");
    reveal_strlit("unprocessable request: ");
    reveal_strlit("internal error: ");
    let n = a.heading().len() as int;
    assert(a.message().subrange(n, a.message().len() as int) =~= a.detail);
    if a.detail == b.detail && a.message() == b.message() {
        assert(a.heading().len() == b.heading().len());
        assert(a.heading()[0] == a.message()[0] && b.heading()[0] == b.message()[0]);
        assert(a.heading()[1] == a.message()[1] && b.heading()[1] == b.message()[1]);
    }
}

/// The status code of an error depends on its kind alone: what the server or its
/// configuration is to blame for is 500, what failed on the way to an analysis
/// is 502, and what the request is to blame for is 422.
pub proof fn law_status_code_follows_the_kind(e: AppError, code: u16)
    requires
        call_ensures(AppError::status_code, (&e,), code),
    ensures
        code == 500 <==> e is Config || e is Internal,
        code == 502 <==> e is Audio || e is Transcription || e is Analysis,
        code == 422 <==> e is Unprocessable,
{
}

} // verus!
