use vstd::prelude::*;

verus! {

/// The single error domain of the library.
///
/// `Io` carries the text of a host error raised while reading the
/// filesystem; the identifier-parse variants carry the offending field
/// (or, for `InvalidHashLength`, the length that was seen).  Nothing is
/// recovered internally: every operation returns either a value or one
/// of these.
#[derive(Debug)]
pub enum SwhidError {
    Io(String),
    InvalidFormat(String),
    InvalidNamespace(String),
    InvalidVersion(String),
    InvalidObjectType(String),
    InvalidHash(String),
    InvalidHashLength(usize),
    InvalidPath(String),
    DuplicateEntry(String),
    UnsupportedOperation(String),
    InvalidQualifier(String),
    InvalidQualifierValue(String),
    UnknownQualifier(String),
    InvalidInput(String),
}

} // verus!
