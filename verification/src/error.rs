//! Errors of the entry codec.

use vstd::prelude::*;

verus! {

/// What can go wrong while encoding or decoding an entry.
#[derive(Debug, PartialEq, Eq, Copy, Clone, Structural)]
pub enum Error {
    /// The first byte of a decoded buffer is not a recognized format version.
    InvalidMagic,
    /// A decoded entry carried no headers at all, so no key/value header
    /// could be extracted; the data is truncated or malformed.
    KVNotFound,
    /// The buffer ended before a complete field could be read.
    DecodeBufNotEnough,
    /// A malformed base-128 length delimiter.
    Decode,
}

impl Error {
    /// A short description, for callers that need to report the error.
    pub fn message(&self) -> (r: &'static str)
        ensures
            true,
    {
        match self {
            Error::InvalidMagic => "invalid magic",
            Error::KVNotFound => "missing kv field in entry",
            Error::DecodeBufNotEnough => "decode buffer not enough",
            Error::Decode => "malformed length delimiter",
        }
    }
}

} // verus!
