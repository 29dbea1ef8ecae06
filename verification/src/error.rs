//! Error taxonomy for the codec: every fallible operation reports one of the
//! kinds below, together with a fixed description and an optional detail text.
use vstd::prelude::*;

verus! {

/// The kind of a codec failure.
///
/// `UnrecognisedCode` carries the offending tag byte, so that a failed decode
/// reports which code it did not recognise.
#[derive(Debug, PartialEq, Clone, Copy)]
pub enum ErrorKind {
    StringDecodeError,
    IoError,
    IncorrectLength,
    UnrecognisedCode(u8),
}

/// A codec error: a kind, a fixed human-readable description determined by the
/// kind, and an optional detail string for diagnostics.
#[derive(Debug, PartialEq)]
pub struct BsonError {
    kind: ErrorKind,
    desc: &'static str,
    detail: Option<String>,
}

/// The description text that `BsonError::new` attaches for each kind.
pub open spec fn desc_for(k: ErrorKind) -> Seq<char> {
    match k {
        ErrorKind::StringDecodeError => "String not UTF-8 encoded"@,
        ErrorKind::IoError => "Reader or writer call failed"@,
        ErrorKind::IncorrectLength => "Input was shorter than expected"@,
        ErrorKind::UnrecognisedCode(_) => "A bson code was not recognised"@,
    }
}

impl BsonError {
    /// The kind this error was built with.
    pub closed spec fn spec_kind(self) -> ErrorKind {
        self.kind
    }

    /// The detail text this error was built with, if any.
    pub closed spec fn spec_detail(self) -> Option<String> {
        self.detail
    }

    /// The fixed description attached to this error.
    pub closed spec fn spec_desc(self) -> Seq<char> {
        self.desc@
    }

    pub fn new(k: ErrorKind, detail: Option<String>) -> (e: BsonError)
        ensures
            e.spec_kind() == k,
            e.spec_detail() == detail,
            e.spec_desc() == desc_for(k),
    {
        let desc: &'static str = match k {
            ErrorKind::StringDecodeError => "String not UTF-8 encoded",
            ErrorKind::IoError => "Reader or writer call failed",
            ErrorKind::IncorrectLength => "Input was shorter than expected",
            ErrorKind::UnrecognisedCode(_) => "A bson code was not recognised",
        };
        BsonError { kind: k, desc, detail }
    }

    /// The kind of this error.
    pub fn kind(&self) -> (k: ErrorKind)
        ensures
            k == self.spec_kind(),
    {
        self.kind
    }

    /// The fixed human-readable description of this error.
    pub fn description(&self) -> (d: &'static str)
        ensures
            d@ == self.spec_desc(),
    {
        self.desc
    }

    /// The optional detail text of this error.
    pub fn detail(&self) -> (d: &Option<String>)
        ensures
            *d == self.spec_detail(),
    {
        &self.detail
    }
}

} // verus!
