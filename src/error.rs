//! Errors surfaced by the library: a kind from a fixed taxonomy and a short message.
use vstd::prelude::*;

verus! {

/// The kinds of failure a caller may see.
#[derive(Clone, Copy, PartialEq, Eq, Structural, Debug)]
pub enum ErrorKind {
    Unknown,
    CouldNotVerifySignature,
    DeserializationError,
    EndpointNotFound,
    ModuleNotFound,
    DuplicateEndpoint,
    CertificateExpired,
    CertificateFinalNotLast,
    IdentityMismatch,
    StorageIo,
    GuestTrap,
}

/// The mathematical value of an error: its kind and its message.
pub type ErrorView = (ErrorKind, Seq<char>);

#[derive(Debug, PartialEq, Eq)]
pub struct ManyError {
    pub kind: ErrorKind,
    pub message: String,
}

impl View for ManyError {
    type V = ErrorView;

    open spec fn view(&self) -> ErrorView {
        (self.kind, self.message@)
    }
}

impl ManyError {
    pub fn new(kind: ErrorKind, message: &str) -> (r: ManyError)
        ensures
            r.kind == kind,
            r.message@ == message@,
    {
        ManyError { kind, message: message.to_owned() }
    }

    pub fn with_message(kind: ErrorKind, message: String) -> (r: ManyError)
        ensures
            r.kind == kind,
            r.message == message,
    {
        ManyError { kind, message }
    }

    pub fn unknown(message: &str) -> (r: ManyError)
        ensures
            r.kind == ErrorKind::Unknown,
            r.message@ == message@,
    {
        ManyError::new(ErrorKind::Unknown, message)
    }
}

} // verus!
