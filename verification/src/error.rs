//! Errors of the library.

use vstd::prelude::*;
use crate::text::{str_chars, string_from_chars};

verus! {

/// Why an EPUB could not be opened or read.
#[derive(Debug)]
pub enum EpubError {
    /// The file is not a readable EPUB (bad ZIP, missing or malformed
    /// package documents, safety limits exceeded).
    InvalidEpub(String),
    /// The EPUB holds content this reader does not support (encrypted text).
    UnsupportedContent(String),
    /// Reading a file failed.
    Io(String),
    /// Any other failure.
    Message(String),
}

impl EpubError {
    /// The message carried by the error.
    pub open spec fn message(&self) -> Seq<char> {
        match self {
            EpubError::InvalidEpub(m) => m@,
            EpubError::UnsupportedContent(m) => m@,
            EpubError::Io(m) => m@,
            EpubError::Message(m) => m@,
        }
    }

    /// A human-readable description: a prefix naming the kind of error,
    /// then the message.
    pub fn describe(&self) -> (s: String)
        ensures
            s@ == self.prefix() + self.message(),
    {
        match self {
            EpubError::InvalidEpub(m) => concat("invalid EPUB: ", m.as_str()),
            EpubError::UnsupportedContent(m) => concat("unsupported EPUB content: ", m.as_str()),
            EpubError::Io(m) => concat("I/O error: ", m.as_str()),
            EpubError::Message(m) => concat("", m.as_str()),
        }
    }

    pub open spec fn prefix(&self) -> Seq<char> {
        match self {
            EpubError::InvalidEpub(_) => "invalid EPUB: "@,
            EpubError::UnsupportedContent(_) => "unsupported EPUB content: "@,
            EpubError::Io(_) => "I/O error: "@,
            EpubError::Message(_) => ""@,
        }
    }
}

/// The string `a` followed by `b`.
pub fn concat(a: &str, b: &str) -> (s: String)
    ensures
        s@ == a@ + b@,
{
    let mut v = str_chars(a);
    let w = str_chars(b);
    let ghost v0 = v@;
    let mut i: usize = 0;
    while i < w.len()
        invariant
            i <= w.len(),
            v@ == v0 + w@.take(i as int),
        decreases w.len() - i,
    {
        v.push(w[i]);
        assert(w@.take(i + 1) =~= w@.take(i as int).push(w@[i as int]));
        i += 1;
    }
    assert(w@.take(i as int) =~= w@);
    string_from_chars(v.as_slice())
}

/// An `InvalidEpub` error with message `a` followed by `b`.
pub fn invalid(a: &str, b: &str) -> (e: EpubError)
    ensures
        e is InvalidEpub,
        e.message() == a@ + b@,
{
    EpubError::InvalidEpub(concat(a, b))
}

/// An `InvalidEpub` error with message `a`.
pub fn invalid_msg(a: &str) -> (e: EpubError)
    ensures
        e is InvalidEpub,
        e.message() == a@,
{
    EpubError::InvalidEpub(string_from_chars(str_chars(a).as_slice()))
}

} // verus!
