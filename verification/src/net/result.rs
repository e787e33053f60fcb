use vstd::prelude::*;

verus! {

/// Declares the standard library's I/O error kind, with its variants, so that errors can carry
/// it and code can tell its variants apart.
#[verifier::external_type_specification]
pub struct ExIoErrorKind(std::io::ErrorKind);

/// Declares the standard library's I/O error so that byte readers can return it.
#[verifier::external_type_specification]
#[verifier::external_body]
pub struct ExIoError(std::io::Error);

/// Errors of the network layer.
#[derive(Debug, PartialEq, Eq)]
pub enum Error {
    Expired,
    Duplicate,
    AlreadyConnected,
    PayloadTooLarge,
    Wait,
    IncorrectCategory,
    ProtocolMismatch,
    VersionMismatch,
    SequenceMismatch,
    Serialization,
    Crypto,
    Io(std::io::ErrorKind),
}

/// `std::io::Error::kind`: the kind of an I/O error. Nothing is claimed of the kind.
#[verifier::external_body]
pub(crate) fn io_error_kind(error: &std::io::Error) -> std::io::ErrorKind {
    error.kind()
}

impl Error {
    /// The network error for an I/O error: its kind, kept as it is.
    pub fn from_io(error: std::io::Error) -> (e: Error)
        ensures
            e is Io,
    {
        Error::Io(io_error_kind(&error))
    }
}

} // verus!
