use vstd::prelude::*;

verus! {

/// An enum representing the errors that can occur when interacting with a
/// store or a key-value server.
#[derive(Debug)]
pub enum Error {
    /// An OS-level read, write, seek or open failure.
    Io,
    /// A record or wire message failed to decode (a clean end of stream is
    /// not a decode error).
    Decode,
    /// A record or wire message could not be encoded.
    Encode,
    /// A key could not be found.
    KeyNotFound,
    /// A store directory was opened with the wrong engine.
    WrongEngine,
    /// A response did not match the shape of the request it answered.
    ProtocolError,
}

impl Error {
    /// A human-readable description of the error.
    pub fn message(&self) -> (r: &'static str)
        ensures
            self is KeyNotFound ==> r@ == "Key not found"@,
            self is WrongEngine ==> r@ == "Wrong engine"@,
    {
        match self {
            Error::Io => "Database IO error",
            Error::Decode => "Decode error",
            Error::Encode => "Encode error",
            Error::KeyNotFound => "Key not found",
            Error::WrongEngine => "Wrong engine",
            Error::ProtocolError => "Protocol error",
        }
    }
}

} // verus!
