//! Subprotocol capability negotiation.
//!
//! Peers on the overlay network advertise the subprotocol versions they
//! speak as compact entry strings such as `"Link=1-4,6 HSDir=1-2"`.  This
//! crate holds the canonical representation of such version sets and
//! entries, the string codec with its expansion bound, the support-query
//! predicates, and the threshold vote that merges many advertisements
//! into one canonical consensus string.

pub mod entries;
pub mod errors;
pub mod legacy;
pub mod protoset;
pub mod queries;
pub mod text;
pub mod versions;
pub mod vote;

pub use entries::{get_supported_protocols, ProtoEntry, Protocol, UnknownProtocol};
pub use errors::ProtoverError;
pub use legacy::{compute_for_old_tor, legacy_version_brackets, LEGACY_BRACKET_COUNT};
pub use protoset::{find_range, ProtoSet, Version, MAX_PROTOCOLS_TO_EXPAND};
pub use queries::{
    all_supported, contains_only_supported_protocols, is_supported_here,
    protover_string_supports_protocol, protover_string_supports_protocol_or_later,
};
pub use text::byte_slice_is_c_like;
pub use versions::{contract_protocol_list, expand_version_range, Versions};
pub use vote::{compute_vote, parse_protocols_from_string_with_no_validation, write_vote_to_string};
