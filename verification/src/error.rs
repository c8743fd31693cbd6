//! The errors of store operations.

use vstd::prelude::*;

verus! {

#[verifier::external_type_specification]
#[verifier::external_body]
pub struct ExIoError(std::io::Error);

/// What can go wrong in a store operation.
#[derive(Debug)]
pub enum Error {
    /// Reading or writing a file failed.
    Io(std::io::Error),
    /// A value could not be encoded or decoded.
    Serialize(String),
    /// The key is not in the store, or its entry has expired.
    KeyNotFound(String),
    /// The path of the store file cannot be used.
    InvalidPath(String),
    /// The network server failed.
    Server(String),
    /// A transaction could not be committed in full.
    TransactionFailed(String),
}

/// `e` reports that `key` was not found.
pub open spec fn not_found(e: Error, key: Seq<char>) -> bool {
    match e {
        Error::KeyNotFound(k) => k@ == key,
        _ => false,
    }
}

/// The text that `std::io::Error`'s `Display` writes for `e`. Nothing is
/// promised of the text.
#[verifier::external_body]
fn io_error_text(e: &std::io::Error) -> String {
    format!("{}", e)
}

/// `prefix` followed by `text`.
pub(crate) fn prefixed(prefix: &str, text: &str) -> (s: String)
    ensures
        s@ == prefix@ + text@,
{
    let mut s = String::from_str(prefix);
    s.append(text);
    s
}

impl Error {
    /// A human-readable description of the error.
    pub fn message(&self) -> (s: String)
        ensures
            match self {
                Error::Io(_) => exists|t: Seq<char>| s@ == "IO error: "@ + t,
                Error::Serialize(m) => s@ == "Serialize error: "@ + m@,
                Error::KeyNotFound(k) => s@ == "key not found: "@ + k@,
                Error::InvalidPath(p) => s@ == "invalid path: "@ + p@,
                Error::Server(m) => s@ == "server error: "@ + m@,
                Error::TransactionFailed(m) => s@ == "transaction failed: "@ + m@,
            },
    {
        match self {
            Error::Io(e) => {
                let t = io_error_text(e);
                let s = prefixed("IO error: ", t.as_str());
                assert(s@ == "IO error: "@ + t@);
                s
            },
            Error::Serialize(m) => prefixed("Serialize error: ", m.as_str()),
            Error::KeyNotFound(k) => prefixed("key not found: ", k.as_str()),
            Error::InvalidPath(p) => prefixed("invalid path: ", p.as_str()),
            Error::Server(m) => prefixed("server error: ", m.as_str()),
            Error::TransactionFailed(m) => prefixed("transaction failed: ", m.as_str()),
        }
    }
}

impl From<std::io::Error> for Error {
    fn from(e: std::io::Error) -> (r: Self) {
        Error::Io(e)
    }
}

impl vstd::std_specs::convert::FromSpecImpl<std::io::Error> for Error {
    open spec fn obeys_from_spec() -> bool {
        true
    }

    open spec fn from_spec(e: std::io::Error) -> Self {
        Error::Io(e)
    }
}

} // verus!
