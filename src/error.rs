//! Errors of the library.

use vstd::prelude::*;

verus! {

#[derive(Debug)]
pub enum ChgError {
    /// failure of reading or writing, as described by the caller
    IOError(String),
    /// reserved for documents that do not look like a changelog at all
    UnrecognizedChangelog(),
    /// the header text
    MissingVersionDateSeparator(String),
    /// the version token, and the header text
    InvalidVersionID(String, String),
    /// the header text
    MissingTimestamp(String),
    /// the offending text, and the header text or the reason
    InvalidTimestamp(String, String),
    /// an item line whose body lacks the ` / <authors>` part
    InvalidItem(String),
    ConfigReadError(String),
    ConfigWriteError,
    Other(String),
}

pub enum ChgErrorV {
    IOError(Seq<char>),
    UnrecognizedChangelog,
    MissingVersionDateSeparator(Seq<char>),
    InvalidVersionID(Seq<char>, Seq<char>),
    MissingTimestamp(Seq<char>),
    InvalidTimestamp(Seq<char>, Seq<char>),
    InvalidItem(Seq<char>),
    ConfigReadError(Seq<char>),
    ConfigWriteError,
    Other(Seq<char>),
}

impl View for ChgError {
    type V = ChgErrorV;

    open spec fn view(&self) -> ChgErrorV {
        match self {
            ChgError::IOError(s) => ChgErrorV::IOError(s@),
            ChgError::UnrecognizedChangelog() => ChgErrorV::UnrecognizedChangelog,
            ChgError::MissingVersionDateSeparator(s) => ChgErrorV::MissingVersionDateSeparator(s@),
            ChgError::InvalidVersionID(a, b) => ChgErrorV::InvalidVersionID(a@, b@),
            ChgError::MissingTimestamp(s) => ChgErrorV::MissingTimestamp(s@),
            ChgError::InvalidTimestamp(a, b) => ChgErrorV::InvalidTimestamp(a@, b@),
            ChgError::InvalidItem(s) => ChgErrorV::InvalidItem(s@),
            ChgError::ConfigReadError(s) => ChgErrorV::ConfigReadError(s@),
            ChgError::ConfigWriteError => ChgErrorV::ConfigWriteError,
            ChgError::Other(s) => ChgErrorV::Other(s@),
        }
    }
}

} // verus!
