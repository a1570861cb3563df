//! Tests for protocol entries and the support queries.

use protover::all_supported;
use protover::contains_only_supported_protocols;
use protover::get_supported_protocols;
use protover::is_supported_here;
use protover::protover_string_supports_protocol;
use protover::protover_string_supports_protocol_or_later;
use protover::ProtoEntry;
use protover::ProtoSet;
use protover::Protocol;
use protover::ProtoverError;
use protover::UnknownProtocol;

#[test]
fn test_contains_only_supported_protocols() {
    assert_eq!(false, contains_only_supported_protocols(""));
    assert_eq!(true, contains_only_supported_protocols("Cons="));
    assert_eq!(true, contains_only_supported_protocols("Cons=1"));
    assert_eq!(false, contains_only_supported_protocols("Cons=0"));
    assert_eq!(false, contains_only_supported_protocols("Cons=0-1"));
    assert_eq!(false, contains_only_supported_protocols("Cons=5"));
    assert_eq!(false, contains_only_supported_protocols("Cons=1-5"));
    assert_eq!(false, contains_only_supported_protocols("Cons=1,5"));
    assert_eq!(false, contains_only_supported_protocols("Cons=5,6"));
    assert_eq!(false, contains_only_supported_protocols("Cons=1,5,6"));
    assert_eq!(true, contains_only_supported_protocols("Cons=1,2"));
    assert_eq!(true, contains_only_supported_protocols("Cons=1-2"));
}

#[test]
fn all_supported_accepts_supported_entries() {
    let (ok, unsupported) = all_supported("Link=1");
    assert_eq!(true, ok);
    assert_eq!("", unsupported);

    let (ok, unsupported) = all_supported("Link=1-5 Cons=1,2 HSIntro=3-4");
    assert_eq!(true, ok);
    assert_eq!("", unsupported);

    let (ok, unsupported) = all_supported("");
    assert_eq!(true, ok);
    assert_eq!("", unsupported);
}

#[test]
fn all_supported_reports_unsupported_entries() {
    let (ok, unsupported) = all_supported("Link=5-6");
    assert_eq!(false, ok);
    assert_eq!("Link=5-6", unsupported);

    // The whole offending entry is reported, in original order, and a
    // name unknown here counts as unsupported.
    let (ok, unsupported) = all_supported("Wombat=9 Link=1 Cons=5");
    assert_eq!(false, ok);
    assert_eq!("Wombat=9 Cons=5", unsupported);

    // A malformed entry is unsupported; the others still pass.
    let (ok, unsupported) = all_supported("Link=1 bogus");
    assert_eq!(false, ok);
    assert_eq!("bogus", unsupported);
}

#[test]
fn supports_version_or_later_is_an_existence_test() {
    assert_eq!(
        true,
        protover_string_supports_protocol_or_later("Cons=5", Protocol::Cons, 4)
    );
    assert_eq!(
        true,
        protover_string_supports_protocol_or_later("Cons=5", Protocol::Cons, 5)
    );
    assert_eq!(
        false,
        protover_string_supports_protocol_or_later("Cons=5", Protocol::Cons, 6)
    );
    assert_eq!(
        false,
        protover_string_supports_protocol_or_later("Link=3-4 Cons=5", Protocol::HSDir, 1)
    );
}

#[test]
fn supports_protocol_is_a_membership_test() {
    assert_eq!(
        true,
        protover_string_supports_protocol("Link=3-4 Cons=1", Protocol::Cons, 1)
    );
    assert_eq!(
        false,
        protover_string_supports_protocol("Link=3-4 Cons=1", Protocol::Cons, 5)
    );
    assert_eq!(
        false,
        protover_string_supports_protocol("Link=3-4", Protocol::Cons, 1)
    );
    // A malformed list supports nothing.
    assert_eq!(
        false,
        protover_string_supports_protocol("Link", Protocol::Link, 1)
    );
}

#[test]
fn is_supported_here_consults_the_local_table() {
    assert_eq!(true, is_supported_here(Protocol::Link, 1));
    assert_eq!(true, is_supported_here(Protocol::Link, 5));
    assert_eq!(false, is_supported_here(Protocol::Link, 10));
    assert_eq!(true, is_supported_here(Protocol::LinkAuth, 3));
    assert_eq!(false, is_supported_here(Protocol::LinkAuth, 2));
    assert_eq!(false, is_supported_here(Protocol::HSIntro, 1));
    assert_eq!(true, is_supported_here(Protocol::HSIntro, 3));
}

#[test]
fn supported_protocols_string_is_canonical() {
    assert_eq!(
        "Cons=1-2 Desc=1-2 DirCache=1-2 HSDir=1-2 HSIntro=3-4 HSRend=1-2 \
         Link=1-5 LinkAuth=1,3 Microdesc=1-2 Relay=1-2",
        get_supported_protocols()
    );
    let table = ProtoEntry::supported().unwrap();
    let link = table.get(&Protocol::Link).unwrap();
    assert!(link.contains(5));
    assert!(!link.contains(6));
}

#[test]
fn entry_parsing_errors() {
    assert_eq!(
        Err(ProtoverError::Unparseable),
        ProtoEntry::from_str("").map(|_| ())
    );
    assert_eq!(
        Err(ProtoverError::Unparseable),
        ProtoEntry::from_str("Cons").map(|_| ())
    );
    assert_eq!(
        Err(ProtoverError::Unparseable),
        ProtoEntry::from_str("=1").map(|_| ())
    );
    assert_eq!(
        Err(ProtoverError::UnknownProtocol),
        ProtoEntry::from_str("Wombat=1").map(|_| ())
    );
    assert_eq!(
        Err(ProtoverError::NonNumericVersion),
        ProtoEntry::from_str("Cons=x").map(|_| ())
    );
    assert_eq!(
        Err(ProtoverError::BadRange),
        ProtoEntry::from_str("Cons=2-1").map(|_| ())
    );
}

#[test]
fn entry_map_operations() {
    let mut entry = ProtoEntry::from_str("Cons=1-2 Link=3").unwrap();
    assert!(!entry.is_empty());

    let cons = entry.get(&Protocol::Cons).unwrap();
    assert!(cons.contains(1) && cons.contains(2) && !cons.contains(3));
    assert!(entry.get(&Protocol::HSDir).is_none());

    // Re-insertion overwrites.
    entry.insert(Protocol::Cons, ProtoSet::from_str("7").unwrap());
    let cons = entry.get(&Protocol::Cons).unwrap();
    assert!(cons.contains(7) && !cons.contains(1));

    // A later duplicate name wins during parsing, too.
    let dup = ProtoEntry::from_str("Cons=1 Cons=2").unwrap();
    let cons = dup.get(&Protocol::Cons).unwrap();
    assert!(cons.contains(2) && !cons.contains(1));

    let removed = entry.remove(&Protocol::Link).unwrap();
    assert!(removed.contains(3));
    assert!(entry.get(&Protocol::Link).is_none());
    assert!(entry.remove(&Protocol::HSDir).is_none());

    let pairs = entry.iter();
    assert_eq!(1, pairs.len());

    let empty = ProtoEntry::default();
    assert!(empty.is_empty());
}

#[test]
fn protocol_names_round_trip() {
    let all = [
        Protocol::Cons,
        Protocol::Desc,
        Protocol::DirCache,
        Protocol::HSDir,
        Protocol::HSIntro,
        Protocol::HSRend,
        Protocol::Link,
        Protocol::LinkAuth,
        Protocol::Microdesc,
        Protocol::Relay,
    ];
    for p in all {
        assert_eq!(Ok(p), Protocol::from_str(p.name()));
    }
    assert_eq!(
        Err(ProtoverError::UnknownProtocol),
        Protocol::from_str("Conz")
    );
    assert_eq!(Err(ProtoverError::UnknownProtocol), Protocol::from_str(""));
}

#[test]
fn protocol_from_host_index() {
    assert_eq!(Ok(Protocol::Link), Protocol::from_index(0));
    assert_eq!(Ok(Protocol::LinkAuth), Protocol::from_index(1));
    assert_eq!(Ok(Protocol::Relay), Protocol::from_index(2));
    assert_eq!(Ok(Protocol::DirCache), Protocol::from_index(3));
    assert_eq!(Ok(Protocol::HSDir), Protocol::from_index(4));
    assert_eq!(Ok(Protocol::HSIntro), Protocol::from_index(5));
    assert_eq!(Ok(Protocol::HSRend), Protocol::from_index(6));
    assert_eq!(Ok(Protocol::Desc), Protocol::from_index(7));
    assert_eq!(Ok(Protocol::Microdesc), Protocol::from_index(8));
    assert_eq!(Ok(Protocol::Cons), Protocol::from_index(9));
    assert_eq!(
        Err(ProtoverError::UnknownProtocol),
        Protocol::from_index(10)
    );
}

#[test]
fn unknown_protocol_keeps_raw_names() {
    let u = UnknownProtocol::from_str("Wombat").unwrap();
    assert_eq!("Wombat", u.as_str());
    let k = UnknownProtocol::from_protocol(Protocol::Cons);
    assert_eq!("Cons", k.as_str());
}

#[test]
fn entry_to_string_is_canonical() {
    let entry = ProtoEntry::from_str("Link=3,1,2 Cons=1").unwrap();
    assert_eq!("Cons=1 Link=1-3", entry.to_string());

    // An entry whose version set is empty is omitted from the output.
    let sparse = ProtoEntry::from_str("Link= Cons=1").unwrap();
    assert_eq!("Cons=1", sparse.to_string());

    // The support table renders back to its defining string.
    let table = ProtoEntry::supported().unwrap();
    assert_eq!(get_supported_protocols(), table.to_string());

    assert_eq!("", ProtoEntry::default().to_string());
}

#[test]
fn error_descriptions_name_the_failure() {
    assert_eq!(
        "protocol entry is unparseable",
        ProtoverError::Unparseable.describe()
    );
    assert_eq!(
        "too many versions to expand",
        ProtoverError::TooManyVersions.describe()
    );
}

#[test]
fn all_supported_splits_on_any_whitespace() {
    let (ok, unsupported) = all_supported("Link=1\tCons=1\nHSDir=1");
    assert_eq!(true, ok);
    assert_eq!("", unsupported);

    let (ok, unsupported) = all_supported("  Link=9  \t Cons=1 ");
    assert_eq!(false, ok);
    assert_eq!("Link=9", unsupported);
}
