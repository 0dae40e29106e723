//! The error taxonomy shared by the storage engine, the codec and the
//! client/server helpers.
use vstd::prelude::*;

verus! {

/// All errors that the library itself can produce.
///
/// I/O failures can only arise in the unverified shell around the library;
/// the shell wraps this type together with the OS error there.
#[derive(Clone, Debug)]
pub enum Error {
    /// `remove` was called for a key that is absent from the index.
    KeyNotFound,
    /// A persisted record did not decode, or the record a lookup found was
    /// not the expected `Set` record.
    Corruption,
    /// A request or response frame did not decode.
    EncodingError,
    /// The server answered a request with its error-message variant; the
    /// payload is the server's formatted string.
    RemoteError(String),
}

/// The message text of an error, as the server formats it into the
/// error-message response variant.
pub open spec fn spec_error_message(e: Error) -> Seq<char> {
    match e {
        Error::KeyNotFound => "Key not found"@,
        Error::Corruption => "Corruption"@,
        Error::EncodingError => "Encoding error"@,
        Error::RemoteError(m) => m@,
    }
}

impl Error {
    /// Render the error as the human-readable string that is sent over the
    /// wire in error responses.
    pub fn message(&self) -> (r: String)
        ensures
            r@ == spec_error_message(*self),
    {
        match self {
            Error::KeyNotFound => String::from_str("Key not found"),
            Error::Corruption => String::from_str("Corruption"),
            Error::EncodingError => String::from_str("Encoding error"),
            Error::RemoteError(m) => m.clone(),
        }
    }
}

} // verus!
