//! Protocol lists for peers too old to advertise their own.
//!
//! Old software cannot say which subprotocols it speaks, so a static
//! table maps brackets of old version numbers, newest first, to the
//! protocol lists those releases were known to support.  Deciding
//! whether a peer's version reaches a bracket takes the host's
//! dotted-version comparator, which this crate does not reimplement:
//! the caller evaluates, for each bracket, whether the peer's version
//! is at least the bracket's threshold, and hands the answers in.

use vstd::prelude::*;

verus! {

/// How many version brackets the legacy table holds.  The newest
/// bracket is the first release that advertises its own protocols.
pub const LEGACY_BRACKET_COUNT: usize = 4;

/// The threshold version of each bracket, newest first.
pub open spec fn spec_legacy_version(i: int) -> Seq<char> {
    if i == 0 {
        "0.2.9.3-alpha"@
    } else if i == 1 {
        "0.2.9.1-alpha"@
    } else if i == 2 {
        "0.2.7.5"@
    } else {
        "0.2.4.19"@
    }
}

/// The protocol list of each bracket, newest first.  A peer at least as
/// new as the first bracket advertises for itself, so that bracket is
/// empty.
pub open spec fn spec_legacy_protocols(i: int) -> Seq<char> {
    if i == 0 {
        ""@
    } else if i == 1 {
        "Cons=1-2 Desc=1-2 DirCache=1 HSDir=1 HSIntro=3 HSRend=1-2 Link=1-4 LinkAuth=1 Microdesc=1-2 Relay=1-2"@
    } else if i == 2 {
        "Cons=1-2 Desc=1-2 DirCache=1 HSDir=1 HSIntro=3 HSRend=1 Link=1-4 LinkAuth=1 Microdesc=1-2 Relay=1-2"@
    } else {
        "Cons=1 Desc=1 DirCache=1 HSDir=1 HSIntro=3 HSRend=1 Link=1-4 LinkAuth=1 Microdesc=1 Relay=1-2"@
    }
}

/// The threshold versions the caller must compare the peer's version
/// against, newest first.
pub fn legacy_version_brackets() -> (v: Vec<&'static str>)
    ensures
        v@.len() == LEGACY_BRACKET_COUNT,
        forall|i: int| 0 <= i < v@.len() ==> (#[trigger] v@[i])@ == spec_legacy_version(i),
{
    let mut v: Vec<&'static str> = Vec::new();
    v.push("0.2.9.3-alpha");
    v.push("0.2.9.1-alpha");
    v.push("0.2.7.5");
    v.push("0.2.4.19");
    v
}

/// What the legacy lookup answers, given for each bracket whether the
/// peer's version is at least that bracket's threshold: the first
/// bracket reached decides, and a peer older than every bracket gets
/// the empty list.
pub open spec fn spec_compute_for_old_tor(as_new_as: Seq<bool>) -> Seq<char> {
    if as_new_as[0] {
        spec_legacy_protocols(0)
    } else if as_new_as[1] {
        spec_legacy_protocols(1)
    } else if as_new_as[2] {
        spec_legacy_protocols(2)
    } else if as_new_as[3] {
        spec_legacy_protocols(3)
    } else {
        ""@
    }
}

/// The protocol list for an old peer.  `as_new_as[i]` must say whether
/// the peer's version is at least the `i`-th bracket's threshold, as
/// the host's version comparator judges it.
pub fn compute_for_old_tor(as_new_as: &Vec<bool>) -> (r: &'static str)
    requires
        as_new_as@.len() == LEGACY_BRACKET_COUNT,
    ensures
        r@ == spec_compute_for_old_tor(as_new_as@),
{
    if as_new_as[0] {
        ""
    } else if as_new_as[1] {
        "Cons=1-2 Desc=1-2 DirCache=1 HSDir=1 HSIntro=3 HSRend=1-2 Link=1-4 LinkAuth=1 Microdesc=1-2 Relay=1-2"
    } else if as_new_as[2] {
        "Cons=1-2 Desc=1-2 DirCache=1 HSDir=1 HSIntro=3 HSRend=1 Link=1-4 LinkAuth=1 Microdesc=1-2 Relay=1-2"
    } else if as_new_as[3] {
        "Cons=1 Desc=1 DirCache=1 HSDir=1 HSIntro=3 HSRend=1 Link=1-4 LinkAuth=1 Microdesc=1 Relay=1-2"
    } else {
        ""
    }
}

} // verus!
