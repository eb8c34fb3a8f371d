use vstd::prelude::*;

verus! {

#[verifier::external_type_specification]
#[verifier::external_body]
pub struct ExIoError(std::io::Error);

/// An error that occurred during decompression.
#[derive(Debug)]
pub enum DecompressError {
    /// The compressed data stream ended prematurely.
    TruncatedInput,
    /// The compressed data could not be read.
    ReadFailure(std::io::Error),
    /// Corrupt input: a copy length overflowed.
    InvalidLength,
    /// Corrupt input: a back-reference points outside the output.
    InvalidOffset,
}

/// What kind of failure a decode ended with, without the payload.
#[derive(PartialEq, Eq, Structural, Clone, Copy, Debug)]
pub enum Failure {
    TruncatedInput,
    ReadFailure,
    InvalidLength,
    InvalidOffset,
}

impl DecompressError {
    /// The kind of this error.
    pub open spec fn failure(self) -> Failure {
        match self {
            DecompressError::TruncatedInput => Failure::TruncatedInput,
            DecompressError::ReadFailure(_) => Failure::ReadFailure,
            DecompressError::InvalidLength => Failure::InvalidLength,
            DecompressError::InvalidOffset => Failure::InvalidOffset,
        }
    }
}

/// Relies on `std::io::Error::from(ErrorKind::UnexpectedEof)`: the error that a
/// reader of an in-memory slice reports when it runs out of bytes.
#[verifier::external_body]
pub(crate) fn unexpected_eof() -> (r: std::io::Error) {
    std::io::Error::from(std::io::ErrorKind::UnexpectedEof)
}

} // verus!
