//! Tests for the threshold vote, the legacy bracket lookup, and the
//! C-like byte-string check.

use protover::byte_slice_is_c_like;
use protover::compute_for_old_tor;
use protover::compute_vote;
use protover::legacy_version_brackets;
use protover::parse_protocols_from_string_with_no_validation;
use protover::write_vote_to_string;

#[test]
fn compute_vote_applies_the_threshold() {
    let protos = vec![String::from("Link=3-4"), String::from("Link=3")];
    assert_eq!("Link=3", compute_vote(protos, 2));

    let protos = vec![String::from("Link=3-4"), String::from("Link=3")];
    assert_eq!("Link=3-4", compute_vote(protos, 1));

    let protos = vec![String::from("Link=3-4"), String::from("Link=3")];
    assert_eq!("", compute_vote(protos, 3));
}

#[test]
fn compute_vote_of_nothing_is_empty() {
    assert_eq!("", compute_vote(vec![], 0));
    assert_eq!("", compute_vote(vec![], 1));
    assert_eq!("", compute_vote(vec![], -1));
}

#[test]
fn compute_vote_is_order_independent() {
    let a = vec![
        String::from("Link=1-5 Cons=2"),
        String::from("Link=3-7 Desc=1"),
        String::from("Cons=2 Link=4"),
    ];
    let mut b = a.clone();
    b.reverse();
    let c = vec![a[1].clone(), a[2].clone(), a[0].clone()];
    let expected = compute_vote(a, 2);
    assert_eq!(expected, compute_vote(b, 2));
    assert_eq!(expected, compute_vote(c, 2));
    assert_eq!("Cons=2 Link=3-5", expected);
}

#[test]
fn compute_vote_skips_malformed_ballots() {
    let clean = vec![String::from("Link=3-4"), String::from("Link=3")];
    let noisy = vec![
        String::from("Link=3-4"),
        String::from("bogus"),
        String::from("Link=3"),
    ];
    assert_eq!(compute_vote(clean, 2), compute_vote(noisy, 2));

    // Unknown names are tallied, not rejected.
    let protos = vec![String::from("Wombat=9"), String::from("Wombat=9")];
    assert_eq!("Wombat=9", compute_vote(protos, 2));
}

#[test]
fn compute_vote_output_is_a_fixed_point() {
    let protos = vec![
        String::from("Link=1-5 Cons=2"),
        String::from("Link=3-7 Desc=1"),
        String::from("Cons=2 Link=4"),
    ];
    let once = compute_vote(protos, 2);
    let again = compute_vote(vec![once.clone()], 1);
    assert_eq!(once, again);
}

#[test]
fn ballots_parse_permissively() {
    let pairs = parse_protocols_from_string_with_no_validation("Wombat=1-3 Link=2").unwrap();
    assert_eq!(2, pairs.len());
    let wombat = pairs.iter().find(|p| p.0 == "Wombat").unwrap();
    assert!(wombat.1 .0.contains(&1) && wombat.1 .0.contains(&3));
    assert!(!wombat.1 .0.contains(&4));

    assert_eq!(
        Err("invalid protover entry"),
        parse_protocols_from_string_with_no_validation("").map(|_| ())
    );
    assert_eq!(
        Err("invalid protover entry"),
        parse_protocols_from_string_with_no_validation("=1").map(|_| ())
    );
    assert_eq!(
        Err("invalid protocol entry"),
        parse_protocols_from_string_with_no_validation("Link=a").map(|_| ())
    );
}

#[test]
fn vote_string_sorts_names_alphabetically() {
    let vote = vec![
        (String::from("Relay"), String::from("1-2")),
        (String::from("Cons"), String::from("1")),
        (String::from("Link"), String::from("3,5")),
    ];
    assert_eq!("Cons=1 Link=3,5 Relay=1-2", write_vote_to_string(&vote));

    let empty: Vec<(String, String)> = vec![];
    assert_eq!("", write_vote_to_string(&empty));
}

#[test]
fn legacy_brackets_fall_through_newest_first() {
    // As new as the first self-advertising release: nothing to infer.
    assert_eq!("", compute_for_old_tor(&vec![true, true, true, true]));
    assert_eq!(
        "Cons=1-2 Desc=1-2 DirCache=1 HSDir=1 HSIntro=3 HSRend=1-2 \
         Link=1-4 LinkAuth=1 Microdesc=1-2 Relay=1-2",
        compute_for_old_tor(&vec![false, true, true, true])
    );
    assert_eq!(
        "Cons=1-2 Desc=1-2 DirCache=1 HSDir=1 HSIntro=3 HSRend=1 \
         Link=1-4 LinkAuth=1 Microdesc=1-2 Relay=1-2",
        compute_for_old_tor(&vec![false, false, true, true])
    );
    assert_eq!(
        "Cons=1 Desc=1 DirCache=1 HSDir=1 HSIntro=3 HSRend=1 \
         Link=1-4 LinkAuth=1 Microdesc=1 Relay=1-2",
        compute_for_old_tor(&vec![false, false, false, true])
    );
    // Older than every bracket: nothing is known.
    assert_eq!("", compute_for_old_tor(&vec![false, false, false, false]));

    let brackets = legacy_version_brackets();
    assert_eq!(
        vec!["0.2.9.3-alpha", "0.2.9.1-alpha", "0.2.7.5", "0.2.4.19"],
        brackets
    );
}

#[test]
fn c_like_byte_strings_end_in_nul() {
    let bytes: &[u8] = b"foo bar baz";
    assert!(byte_slice_is_c_like(&bytes) == false);

    let bytes: &[u8] = b"foo\0bar baz";
    assert!(byte_slice_is_c_like(&bytes) == false);

    let bytes: &[u8] = b"foo bar baz\0";
    assert!(byte_slice_is_c_like(&bytes) == true);

    let bytes: &[u8] = b"\0";
    assert!(byte_slice_is_c_like(&bytes) == true);
}
