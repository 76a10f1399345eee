//! Failures that abort a compilation. No partial graph survives an error: a
//! schema either compiles entirely or not at all.

use vstd::prelude::*;

verus! {

/// Why a compilation was aborted.
#[derive(Debug, PartialEq, Eq)]
pub enum CompileError {
    /// A pointer or fragment designates a sub-value absent from its document;
    /// carries the offending reference.
    LocationNotFound(String),
    /// A reference resolves to an absolute location with no registered
    /// resolver; every reachable document must be pre-registered.
    UnknownDocument(String),
    /// A reference string is not a well-formed pointer or location; carries
    /// the raw string.
    MalformedReference(String),
    /// A recognized keyword's value has the wrong shape; carries the keyword
    /// name and the node holding the value.
    MalformedKeywordValue { keyword: String, node: usize },
    /// The type keyword holds a string that names no known type.
    UnrecognizedType(String),
}

} // verus!
