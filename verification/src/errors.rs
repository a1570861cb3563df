//! Failure kinds for parsing and voting over protocol-version strings.

use vstd::prelude::*;

verus! {

/// Everything that can go wrong while parsing a version set or a
/// protocol entry.  Strict parsing surfaces the first of these it meets;
/// permissive aggregation treats a failing unit as ignored instead.
#[derive(Clone, Copy, Debug, PartialEq, Eq, Structural)]
pub enum ProtoverError {
    /// An entry is malformed: the `=` separator is missing or the
    /// protocol name is empty.
    Unparseable,
    /// A strict-mode protocol name is not one of the known identifiers.
    UnknownProtocol,
    /// A version token or range bound is not a base-10 integer.
    NonNumericVersion,
    /// A range's low bound exceeds its high bound.
    BadRange,
    /// A version equals the reserved sentinel maximum.
    ReservedVersionValue,
    /// Expanding the input would exceed the cumulative version bound.
    TooManyVersions,
}

impl ProtoverError {
    /// A short human-readable description of the failure.
    pub fn describe(&self) -> (s: &'static str)
        ensures
            s@ == spec_describe(*self),
    {
        match self {
            ProtoverError::Unparseable => "protocol entry is unparseable",
            ProtoverError::UnknownProtocol => "protocol name is unknown",
            ProtoverError::NonNumericVersion => "version is not a number",
            ProtoverError::BadRange => "version range is badly formed",
            ProtoverError::ReservedVersionValue => "version is reserved",
            ProtoverError::TooManyVersions => "too many versions to expand",
        }
    }
}

/// What [`ProtoverError::describe`] returns for each failure kind.
pub open spec fn spec_describe(e: ProtoverError) -> Seq<char> {
    match e {
        ProtoverError::Unparseable => "protocol entry is unparseable"@,
        ProtoverError::UnknownProtocol => "protocol name is unknown"@,
        ProtoverError::NonNumericVersion => "version is not a number"@,
        ProtoverError::BadRange => "version range is badly formed"@,
        ProtoverError::ReservedVersionValue => "version is reserved"@,
        ProtoverError::TooManyVersions => "too many versions to expand"@,
    }
}

} // verus!
