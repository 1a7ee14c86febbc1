//! The errors that WAV operations end in.
use vstd::prelude::*;

verus! {

/// `hound::Error`, carried as it is: its variants are not looked into here.
#[verifier::external_type_specification]
#[verifier::external_body]
pub struct ExHoundError(hound::Error);

/// `std::io::Error`, carried as it is.
#[verifier::external_type_specification]
#[verifier::external_body]
pub struct ExIoError(std::io::Error);

/// `ndarray::ShapeError`, carried as it is.
#[verifier::external_type_specification]
#[verifier::external_body]
pub struct ExShapeError(ndarray::ShapeError);

/// What a resampler said when it failed.
#[derive(Debug)]
pub struct ResampleError {
    pub message: String,
}

/// Failure conditions of WAV-based audio operations.
#[derive(Debug)]
pub enum AudioError {
    /// The bytes are no WAV file, or its header is corrupted.
    OpenError(hound::Error),
    /// A sample format other than 16-bit PCM and 32-bit float.
    UnsupportedFormat,
    /// Offset or duration reach beyond the samples of the file.
    InvalidRange,
    /// A file could not be read or written.
    IoError(std::io::Error),
    /// A sample could not be read or written.
    HoundError(hound::Error),
    /// Resampling failed.
    ResampleError(ResampleError),
    /// A streaming channel broke.
    StreamError,
    /// Arrays of mismatched shapes.
    ShapeError(ndarray::ShapeError),
    /// Too few samples for an operation.
    InsufficientData(String),
    /// A parameter out of its domain.
    InvalidInput(String),
    /// A numerical computation failed.
    ComputationFailed(String),
    /// No file at the path.
    FileNotFound(String),
}

impl From<hound::Error> for AudioError {
    fn from(err: hound::Error) -> (r: Self) {
        AudioError::OpenError(err)
    }
}

impl vstd::std_specs::convert::FromSpecImpl<hound::Error> for AudioError {
    open spec fn obeys_from_spec() -> bool {
        true
    }

    open spec fn from_spec(err: hound::Error) -> Self {
        AudioError::OpenError(err)
    }
}

impl From<std::io::Error> for AudioError {
    fn from(err: std::io::Error) -> (r: Self) {
        AudioError::IoError(err)
    }
}

impl vstd::std_specs::convert::FromSpecImpl<std::io::Error> for AudioError {
    open spec fn obeys_from_spec() -> bool {
        true
    }

    open spec fn from_spec(err: std::io::Error) -> Self {
        AudioError::IoError(err)
    }
}

impl From<ResampleError> for AudioError {
    fn from(err: ResampleError) -> (r: Self) {
        AudioError::ResampleError(err)
    }
}

impl vstd::std_specs::convert::FromSpecImpl<ResampleError> for AudioError {
    open spec fn obeys_from_spec() -> bool {
        true
    }

    open spec fn from_spec(err: ResampleError) -> Self {
        AudioError::ResampleError(err)
    }
}

impl From<ndarray::ShapeError> for AudioError {
    fn from(err: ndarray::ShapeError) -> (r: Self) {
        AudioError::ShapeError(err)
    }
}

impl vstd::std_specs::convert::FromSpecImpl<ndarray::ShapeError> for AudioError {
    open spec fn obeys_from_spec() -> bool {
        true
    }

    open spec fn from_spec(err: ndarray::ShapeError) -> Self {
        AudioError::ShapeError(err)
    }
}

} // verus!
