//! Errors of the data plane.
use vstd::prelude::*;

verus! {

/// `std::io::Error`, as an opaque type: it is carried, never looked into.
#[verifier::external_type_specification]
#[verifier::external_body]
pub struct ExIoError(std::io::Error);

/// Why a stream operation failed.
#[derive(Debug)]
pub enum IoError {
    /// A failure that the operating system or a peer reported.
    Io(std::io::Error),
    /// A source ended before the promised number of bytes was there. Holds the
    /// message that says how far it got.
    UnexpectedEof(String),
    /// A write came after the sink was finished.
    Finished,
}

/// Result of a stream operation.
pub type IoResult<T> = Result<T, IoError>;

} // verus!
