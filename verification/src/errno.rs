//! The error codes that the streaming handles latch.

use vstd::prelude::*;

verus! {

/// What went wrong on a handle; `NoError` while nothing did.
#[derive(Clone, Copy, Debug, PartialEq, Eq, Structural)]
pub enum Errno {
    /// No error.
    NoError,
    /// A parameter was outside its bounds.
    BadArgument,
    /// Memory could not be obtained.
    MemError,
    /// A function was called in a state that does not allow it.
    SequenceError,
    /// The magic, the version or the dictionary size of a header is invalid.
    HeaderError,
    /// The input ended inside a member.
    UnexpectedEof,
    /// The compressed data or the trailer of a member is corrupt.
    DataError,
    /// An internal invariant was violated.
    LibraryError,
}

impl Errno {
    /// The stable numeric code.
    pub open spec fn spec_code(self) -> u32 {
        match self {
            Errno::NoError => 0,
            Errno::BadArgument => 1,
            Errno::MemError => 2,
            Errno::SequenceError => 3,
            Errno::HeaderError => 4,
            Errno::UnexpectedEof => 5,
            Errno::DataError => 6,
            Errno::LibraryError => 7,
        }
    }

    /// The stable numeric code.
    #[verifier::when_used_as_spec(spec_code)]
    pub fn code(self) -> (c: u32)
        ensures
            c == self.spec_code(),
    {
        match self {
            Errno::NoError => 0,
            Errno::BadArgument => 1,
            Errno::MemError => 2,
            Errno::SequenceError => 3,
            Errno::HeaderError => 4,
            Errno::UnexpectedEof => 5,
            Errno::DataError => 6,
            Errno::LibraryError => 7,
        }
    }

    /// The error with the given numeric code, if there is one.
    pub fn from_code(c: u32) -> (e: Option<Errno>)
        ensures
            c <= 7 <==> e is Some,
            e matches Some(v) ==> v.spec_code() == c,
    {
        if c == 0 {
            Some(Errno::NoError)
        } else if c == 1 {
            Some(Errno::BadArgument)
        } else if c == 2 {
            Some(Errno::MemError)
        } else if c == 3 {
            Some(Errno::SequenceError)
        } else if c == 4 {
            Some(Errno::HeaderError)
        } else if c == 5 {
            Some(Errno::UnexpectedEof)
        } else if c == 6 {
            Some(Errno::DataError)
        } else if c == 7 {
            Some(Errno::LibraryError)
        } else {
            None
        }
    }

    /// A short description of the error.
    pub fn strerror(self) -> (s: &'static str)
        ensures
            s@ == match self {
                Errno::NoError => "ok"@,
                Errno::BadArgument => "Bad argument"@,
                Errno::MemError => "Not enough memory"@,
                Errno::SequenceError => "Sequence error"@,
                Errno::HeaderError => "Header error"@,
                Errno::UnexpectedEof => "Unexpected EOF"@,
                Errno::DataError => "Data error"@,
                Errno::LibraryError => "Library error"@,
            },
    {
        match self {
            Errno::NoError => "ok",
            Errno::BadArgument => "Bad argument",
            Errno::MemError => "Not enough memory",
            Errno::SequenceError => "Sequence error",
            Errno::HeaderError => "Header error",
            Errno::UnexpectedEof => "Unexpected EOF",
            Errno::DataError => "Data error",
            Errno::LibraryError => "Library error",
        }
    }
}

} // verus!
