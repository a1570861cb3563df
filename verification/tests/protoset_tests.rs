//! Tests for version sets: parsing, compaction, ranges, and the
//! expansion bound.

use std::collections::HashSet;

use protover::contract_protocol_list;
use protover::expand_version_range;
use protover::find_range;
use protover::ProtoSet;
use protover::ProtoverError;
use protover::Version;
use protover::Versions;

#[test]
fn test_versions_from_version_string() {
    assert_eq!(
        Err("invalid protocol entry"),
        Versions::from_version_string("a,b")
    );
    assert_eq!(
        Err("invalid protocol entry"),
        Versions::from_version_string("1,!")
    );

    {
        let mut versions: HashSet<Version> = HashSet::new();
        versions.insert(1);
        assert_eq!(versions, Versions::from_version_string("1").unwrap().0);
    }
    {
        let mut versions: HashSet<Version> = HashSet::new();
        versions.insert(1);
        versions.insert(2);
        assert_eq!(versions, Versions::from_version_string("1,2").unwrap().0);
    }
    {
        let mut versions: HashSet<Version> = HashSet::new();
        versions.insert(1);
        versions.insert(2);
        versions.insert(3);
        assert_eq!(versions, Versions::from_version_string("1-3").unwrap().0);
    }
    {
        let mut versions: HashSet<Version> = HashSet::new();
        versions.insert(1);
        versions.insert(2);
        versions.insert(5);
        assert_eq!(versions, Versions::from_version_string("1-2,5").unwrap().0);
    }
    {
        let mut versions: HashSet<Version> = HashSet::new();
        versions.insert(1);
        versions.insert(3);
        versions.insert(4);
        versions.insert(5);
        assert_eq!(versions, Versions::from_version_string("1,3-5").unwrap().0);
    }
}

#[test]
fn test_find_range() {
    assert_eq!((false, 0), find_range(&vec![]));
    assert_eq!((false, 1), find_range(&vec![1]));
    assert_eq!((true, 2), find_range(&vec![1, 2]));
    assert_eq!((true, 3), find_range(&vec![1, 2, 3]));
    assert_eq!((true, 3), find_range(&vec![1, 2, 3, 5]));
}

#[test]
fn test_expand_version_range() {
    assert_eq!(Err("version string empty"), expand_version_range(""));
    assert_eq!(Ok(1..3), expand_version_range("1-2"));
    assert_eq!(Ok(1..5), expand_version_range("1-4"));
    assert_eq!(
        Err("cannot parse protocol range lower bound"),
        expand_version_range("a")
    );
    assert_eq!(
        Err("cannot parse protocol range upper bound"),
        expand_version_range("1-a")
    );
    assert_eq!(Ok(1000..66536), expand_version_range("1000-66535"));
    assert_eq!(
        Err("Too many protocols in expanded range"),
        expand_version_range("1000-66536")
    );
}

#[test]
fn test_contract_protocol_list() {
    {
        let mut versions = HashSet::<Version>::new();
        assert_eq!(String::from(""), contract_protocol_list(&versions));

        versions.insert(1);
        assert_eq!(String::from("1"), contract_protocol_list(&versions));

        versions.insert(2);
        assert_eq!(String::from("1-2"), contract_protocol_list(&versions));
    }

    {
        let mut versions = HashSet::<Version>::new();
        versions.insert(1);
        versions.insert(3);
        assert_eq!(String::from("1,3"), contract_protocol_list(&versions));
    }

    {
        let mut versions = HashSet::<Version>::new();
        versions.insert(1);
        versions.insert(2);
        versions.insert(3);
        versions.insert(4);
        assert_eq!(String::from("1-4"), contract_protocol_list(&versions));
    }

    {
        let mut versions = HashSet::<Version>::new();
        versions.insert(1);
        versions.insert(3);
        versions.insert(5);
        versions.insert(6);
        versions.insert(7);
        assert_eq!(String::from("1,3,5-7"), contract_protocol_list(&versions));
    }

    {
        let mut versions = HashSet::<Version>::new();
        versions.insert(1);
        versions.insert(2);
        versions.insert(3);
        versions.insert(500);
        assert_eq!(String::from("1-3,500"), contract_protocol_list(&versions));
    }
}

#[test]
fn canonical_encoding_is_a_fixed_point() {
    for s in ["", "1", "1-2", "1-3,500", "0,2-4,6", "5-10,13"] {
        let parsed = ProtoSet::from_str(s).unwrap();
        assert_eq!(s, parsed.to_string());
    }
}

#[test]
fn parsing_compacts_to_canonical_form() {
    let parsed = ProtoSet::from_str("1,2,3,5").unwrap();
    assert_eq!("1-3,5", parsed.to_string());

    let unordered = ProtoSet::from_str("5,3,2,1").unwrap();
    assert_eq!("1-3,5", unordered.to_string());

    let dup = ProtoSet::from_str("1,1,1-2").unwrap();
    assert_eq!("1-2", dup.to_string());
}

#[test]
fn expansion_bound_is_exact() {
    // A range expanding to exactly 65536 versions parses.
    let full = ProtoSet::from_str("1000-66535").unwrap();
    assert_eq!(65536, full.len());

    // One more version fails.
    assert_eq!(
        Err(ProtoverError::TooManyVersions),
        ProtoSet::from_str("1000-66536")
    );
    assert_eq!(
        Err(ProtoverError::TooManyVersions),
        ProtoSet::from_str("0,1000-66535")
    );

    // The bound is cumulative over the whole input, not per token;
    // overlapping ranges only count once.
    assert!(ProtoSet::from_str("1000-66535,1000-66535").is_ok());

    // The permissive parser enforces the same bound.
    assert_eq!(65536, Versions::from_version_string("1000-66535").unwrap().0.len());
    assert_eq!(
        Err("Too many protocols in expanded range"),
        Versions::from_version_string("1000-66536")
    );
}

#[test]
fn version_set_error_variants() {
    assert_eq!(
        Err(ProtoverError::NonNumericVersion),
        ProtoSet::from_str("a")
    );
    assert_eq!(
        Err(ProtoverError::NonNumericVersion),
        ProtoSet::from_str("1-a")
    );
    assert_eq!(
        Err(ProtoverError::ReservedVersionValue),
        ProtoSet::from_str("4294967295")
    );
    assert_eq!(
        Err(ProtoverError::ReservedVersionValue),
        ProtoSet::from_str("1-4294967295")
    );
    assert_eq!(Err(ProtoverError::BadRange), ProtoSet::from_str("2-1"));

    // Empty strings and empty tokens are fine and denote nothing.
    assert_eq!(0, ProtoSet::from_str("").unwrap().len());
    assert_eq!(2, ProtoSet::from_str("1,,2,").unwrap().len());
}

#[test]
fn version_set_queries() {
    let ps = ProtoSet::from_str("1-3,9").unwrap();
    assert!(ps.contains(1));
    assert!(ps.contains(3));
    assert!(!ps.contains(4));
    assert!(ps.contains(9));
    assert!(ps.supports_or_later(9));
    assert!(ps.supports_or_later(4));
    assert!(!ps.supports_or_later(10));
    assert!(!ps.is_empty());
    assert_eq!(4, ps.len());

    let small = ProtoSet::from_str("1,3").unwrap();
    assert!(small.is_subset_of(&ps));
    assert!(!ps.is_subset_of(&small));
}
