//! The ways in which a probe fails.
use crate::binary64::Binary64;
use std::path::PathBuf;
use vstd::prelude::*;

verus! {

/// `std::io::Error`, carried through as it is.
#[verifier::external_type_specification]
#[verifier::external_body]
pub struct ExIoError(std::io::Error);

/// A failed probe.
#[derive(Debug)]
pub enum ProbeError {
    /// The ffprobe process ended with a failure status, or it could not be spawned; with what it
    /// wrote to its error output, or the reason.
    Execution(String),
    /// What ffprobe wrote is not JSON.
    JsonParse(serde_json::Error),
    /// A required field is absent from what ffprobe wrote; with the field's name.
    MissingData(&'static str),
    /// The file has no video stream.
    NoVideoStream(PathBuf),
    /// The file has no positive, finite duration.
    InvalidDuration { path: PathBuf, duration: Binary64 },
    /// The picture has no width or no height.
    InvalidResolution { path: PathBuf, width: u32, height: u32 },
    /// The frame rate is no fraction, is zero, or is beyond what a file can have.
    InvalidFrameRate { path: PathBuf, fps_str: String },
    /// The video codec or the pixel format is not supported.
    UnsupportedFormat { path: PathBuf, value: String },
    /// The file does not exist or cannot be read.
    InvalidFile(PathBuf),
    /// Reading the file or spawning the process failed.
    Io(std::io::Error),
}

/// A failed probe, with texts by the characters that they hold.
pub enum Failure {
    Execution(Seq<char>),
    JsonParse(serde_json::Error),
    MissingData(Seq<char>),
    NoVideoStream(PathBuf),
    InvalidDuration { path: PathBuf, duration: Binary64 },
    InvalidResolution { path: PathBuf, width: u32, height: u32 },
    InvalidFrameRate { path: PathBuf, fps_str: Seq<char> },
    UnsupportedFormat { path: PathBuf, value: Seq<char> },
    InvalidFile(PathBuf),
    Io(std::io::Error),
}

impl View for ProbeError {
    type V = Failure;

    open spec fn view(&self) -> Failure {
        match *self {
            ProbeError::Execution(s) => Failure::Execution(s@),
            ProbeError::JsonParse(e) => Failure::JsonParse(e),
            ProbeError::MissingData(s) => Failure::MissingData(s@),
            ProbeError::NoVideoStream(path) => Failure::NoVideoStream(path),
            ProbeError::InvalidDuration { path, duration } => Failure::InvalidDuration {
                path,
                duration,
            },
            ProbeError::InvalidResolution { path, width, height } => Failure::InvalidResolution {
                path,
                width,
                height,
            },
            ProbeError::InvalidFrameRate { path, fps_str } => Failure::InvalidFrameRate {
                path,
                fps_str: fps_str@,
            },
            ProbeError::UnsupportedFormat { path, value } => Failure::UnsupportedFormat {
                path,
                value: value@,
            },
            ProbeError::InvalidFile(path) => Failure::InvalidFile(path),
            ProbeError::Io(e) => Failure::Io(e),
        }
    }
}

impl Failure {
    /// The file that the failure is about, where it names one.
    pub open spec fn path(self) -> Option<PathBuf> {
        match self {
            Failure::NoVideoStream(path) => Some(path),
            Failure::InvalidFile(path) => Some(path),
            Failure::InvalidDuration { path, .. } => Some(path),
            Failure::InvalidResolution { path, .. } => Some(path),
            Failure::InvalidFrameRate { path, .. } => Some(path),
            Failure::UnsupportedFormat { path, .. } => Some(path),
            _ => None,
        }
    }
}

impl ProbeError {
    /// The file that the failure is about, where it names one.
    pub fn path(&self) -> (r: Option<&PathBuf>)
        ensures
            match r {
                Some(p) => self@.path() == Some(*p),
                None => self@.path() is None,
            },
    {
        match self {
            ProbeError::NoVideoStream(p) => Some(p),
            ProbeError::InvalidFile(p) => Some(p),
            ProbeError::InvalidDuration { path, .. } => Some(path),
            ProbeError::InvalidResolution { path, .. } => Some(path),
            ProbeError::InvalidFrameRate { path, .. } => Some(path),
            ProbeError::UnsupportedFormat { path, .. } => Some(path),
            _ => None,
        }
    }

    /// Whether another try may succeed: the process or the file system failed, not the file.
    pub fn is_transient(&self) -> (r: bool)
        ensures
            r == (*self is Execution || *self is Io),
    {
        match self {
            ProbeError::Execution(_) => true,
            ProbeError::Io(_) => true,
            _ => false,
        }
    }
}

impl From<serde_json::Error> for ProbeError {
    fn from(e: serde_json::Error) -> (r: ProbeError) {
        ProbeError::JsonParse(e)
    }
}

impl vstd::std_specs::convert::FromSpecImpl<serde_json::Error> for ProbeError {
    open spec fn obeys_from_spec() -> bool {
        true
    }

    open spec fn from_spec(e: serde_json::Error) -> ProbeError {
        ProbeError::JsonParse(e)
    }
}

impl From<std::io::Error> for ProbeError {
    fn from(e: std::io::Error) -> (r: ProbeError) {
        ProbeError::Io(e)
    }
}

impl vstd::std_specs::convert::FromSpecImpl<std::io::Error> for ProbeError {
    open spec fn obeys_from_spec() -> bool {
        true
    }

    open spec fn from_spec(e: std::io::Error) -> ProbeError {
        ProbeError::Io(e)
    }
}

// ─── Laws ───

/// A failure names its file exactly where it is about the file: no video, a file that is not
/// there, and whatever is invalid or unsupported in it.
pub proof fn lemma_failure_names(
    path: PathBuf,
    duration: Binary64,
    width: u32,
    height: u32,
    text: Seq<char>,
)
    ensures
        Failure::NoVideoStream(path).path() == Some(path),
        Failure::InvalidFile(path).path() == Some(path),
        (Failure::InvalidDuration { path, duration }).path() == Some(path),
        (Failure::InvalidResolution { path, width, height }).path() == Some(path),
        (Failure::InvalidFrameRate { path, fps_str: text }).path() == Some(path),
        (Failure::UnsupportedFormat { path, value: text }).path() == Some(path),
        Failure::Execution(text).path() is None,
        Failure::MissingData(text).path() is None,
        forall|e: serde_json::Error| (#[trigger] Failure::JsonParse(e).path()) is None,
        forall|e: std::io::Error| (#[trigger] Failure::Io(e).path()) is None,
{
}

/// What an error is known by tells its kind and all that it carries.
pub proof fn lemma_error_view(e: ProbeError)
    ensures
        e matches ProbeError::Execution(s) ==> e@ == Failure::Execution(s@),
        e matches ProbeError::JsonParse(j) ==> e@ == Failure::JsonParse(j),
        e matches ProbeError::MissingData(s) ==> e@ == Failure::MissingData(s@),
        e matches ProbeError::NoVideoStream(p) ==> e@ == Failure::NoVideoStream(p),
        e matches ProbeError::InvalidFile(p) ==> e@ == Failure::InvalidFile(p),
        e matches ProbeError::Io(x) ==> e@ == Failure::Io(x),
        e matches ProbeError::InvalidDuration { path, duration } ==> e@
            == (Failure::InvalidDuration { path, duration }),
        e matches ProbeError::InvalidResolution { path, width, height } ==> e@
            == (Failure::InvalidResolution { path, width, height }),
        e matches ProbeError::InvalidFrameRate { path, fps_str } ==> e@
            == (Failure::InvalidFrameRate { path, fps_str: fps_str@ }),
        e matches ProbeError::UnsupportedFormat { path, value } ==> e@
            == (Failure::UnsupportedFormat { path, value: value@ }),
{
}

} // verus!
