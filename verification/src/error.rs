//! The error that the parts of the client share.

use vstd::prelude::*;

use crate::bencoding::ParsingError;
use crate::metainfo::MetaError;

verus! {

/// `std::io::Error`, carried as it is.
#[verifier::external_type_specification]
#[verifier::external_body]
pub struct ExIoError(std::io::Error);

#[derive(Debug)]
pub enum Error {
    Bencode(ParsingError),
    Metainfo(MetaError),
    Tracker(String),
    Peer(String),
    Io(std::io::Error),
    HashMismatch { index: u32 },
    Other(String),
}

impl Error {
    /// Whether this is a peer error with the given text.
    pub open spec fn is_peer(self, text: Seq<char>) -> bool {
        self matches Error::Peer(t) && t@ == text
    }

    /// Whether this is a tracker error with the given text.
    pub open spec fn is_tracker(self, text: Seq<char>) -> bool {
        self matches Error::Tracker(t) && t@ == text
    }

    /// Whether this is some other error with the given text.
    pub open spec fn is_other(self, text: Seq<char>) -> bool {
        self matches Error::Other(t) && t@ == text
    }
}

impl From<ParsingError> for Error {
    fn from(e: ParsingError) -> (res: Self) {
        Error::Bencode(e)
    }
}

impl vstd::std_specs::convert::FromSpecImpl<ParsingError> for Error {
    open spec fn obeys_from_spec() -> bool {
        true
    }

    open spec fn from_spec(e: ParsingError) -> Self {
        Error::Bencode(e)
    }
}

impl From<MetaError> for Error {
    fn from(e: MetaError) -> (res: Self) {
        Error::Metainfo(e)
    }
}

impl vstd::std_specs::convert::FromSpecImpl<MetaError> for Error {
    open spec fn obeys_from_spec() -> bool {
        true
    }

    open spec fn from_spec(e: MetaError) -> Self {
        Error::Metainfo(e)
    }
}

impl From<std::io::Error> for Error {
    fn from(e: std::io::Error) -> (res: Self) {
        Error::Io(e)
    }
}

impl vstd::std_specs::convert::FromSpecImpl<std::io::Error> for Error {
    open spec fn obeys_from_spec() -> bool {
        true
    }

    open spec fn from_spec(e: std::io::Error) -> Self {
        Error::Io(e)
    }
}

pub type Result<T> = std::result::Result<T, Error>;

} // verus!
