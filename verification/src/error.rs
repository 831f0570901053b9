//! The library's error type.

use vstd::prelude::*;

use crate::text::{push_str, string_of};

verus! {

/// What can go wrong with keys, key files and authorized-key documents.
/// File paths and I/O failures are held as their display texts.
#[derive(Debug)]
pub enum Error {
    Invalid(String),
    ReadFile { kind: String, path: String, source: String },
    WriteFile { path: String, source: String },
    FileExists(String),
}

/// `e` is `Error::Invalid` with the message `message`.
pub open spec fn is_invalid(e: &Error, message: Seq<char>) -> bool {
    e matches Error::Invalid(m) && m@ == message
}

impl Error {
    /// The message that describes the error.
    pub open spec fn message(&self) -> Seq<char> {
        match self {
            Error::Invalid(message) => message@,
            Error::ReadFile { kind, path, source } => "Failed to read "@ + kind@ + " file "@ + path@
                + ": "@ + source@,
            Error::WriteFile { path, source } => "Failed to write private key file "@ + path@
                + ": "@ + source@,
            Error::FileExists(path) => "File already exists: "@ + path@
                + ". Use --force to overwrite."@,
        }
    }

    /// The message that describes the error.
    pub fn to_string(&self) -> (s: String)
        ensures
            s@ == self.message(),
    {
        let mut v: Vec<char> = Vec::new();
        match self {
            Error::Invalid(message) => {
                push_str(&mut v, message.as_str());
            },
            Error::ReadFile { kind, path, source } => {
                push_str(&mut v, "Failed to read ");
                push_str(&mut v, kind.as_str());
                push_str(&mut v, " file ");
                push_str(&mut v, path.as_str());
                push_str(&mut v, ": ");
                push_str(&mut v, source.as_str());
            },
            Error::WriteFile { path, source } => {
                push_str(&mut v, "Failed to write private key file ");
                push_str(&mut v, path.as_str());
                push_str(&mut v, ": ");
                push_str(&mut v, source.as_str());
            },
            Error::FileExists(path) => {
                push_str(&mut v, "File already exists: ");
                push_str(&mut v, path.as_str());
                push_str(&mut v, ". Use --force to overwrite.");
            },
        }
        string_of(&v)
    }
}

pub type Result<T> = std::result::Result<T, Error>;

} // verus!
