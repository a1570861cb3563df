//! The vote engine's permissive version-set type.
//!
//! The threshold vote must tolerate advertisements from peers it does
//! not fully trust, so its version lists are parsed into a plain hash
//! set and failures are reported as plain messages rather than typed
//! errors.  The grammar is the one of [`crate::protoset`].

use vstd::prelude::*;
use std::collections::HashSet;
use std::ops::Range;
use crate::protoset::{
    MAX_PROTOCOLS_TO_EXPAND, Version, encode_sorted_chars, encode_version_set, find_first,
    find_char, insert_sorted, lemma_sorted_of, lemma_sorted_strict_set_len,
    lemma_sorted_strict_unique, sorted_of, sorted_strict, version_range, lemma_version_range_len,
};
use crate::text::{
    chars_to_string, parse_u32, parse_u32_chars, split_at_char, split_char_vec, to_char_vec,
};

verus! {

/// What [`expand_version_range`] computes for a range token: the
/// half-open bounds of the inclusive range `lo-hi`, or a message saying
/// why the token is no usable range.
pub open spec fn spec_expand_version_range(t: Seq<char>) -> Result<(u32, u32), Seq<char>> {
    if t.len() == 0 {
        Err("version string empty"@)
    } else {
        let d = find_first(t, '-');
        if d < 0 {
            match parse_u32(t) {
                None => Err("cannot parse protocol range lower bound"@),
                Some(_) => Err("cannot parse protocol range upper bound"@),
            }
        } else {
            match parse_u32(t.subrange(0, d)) {
                None => Err("cannot parse protocol range lower bound"@),
                Some(lo) => match parse_u32(t.subrange(d + 1, t.len() as int)) {
                    None => Err("cannot parse protocol range upper bound"@),
                    Some(hi) => if lo == u32::MAX || hi == u32::MAX {
                        Err("protocol range value out of range"@)
                    } else if lo > hi {
                        Err("protocol range is badly formed"@)
                    } else if hi + 1 - lo > MAX_PROTOCOLS_TO_EXPAND {
                        Err("Too many protocols in expanded range"@)
                    } else {
                        Ok((lo, (hi + 1) as u32))
                    },
                },
            }
        }
    }
}

/// Expand a range token `"lo-hi"` into the half-open range of versions
/// it covers, refusing ranges that would expand past the bound.
pub fn expand_version_range(range: &str) -> (r: Result<Range<u32>, &'static str>)
    ensures
        match r {
            Ok(rg) => spec_expand_version_range(range@) == Ok::<(u32, u32), Seq<char>>(
                (rg.start, rg.end),
            ),
            Err(m) => spec_expand_version_range(range@) == Err::<(u32, u32), Seq<char>>(m@),
        },
{
    let chars = to_char_vec(range);
    match expand_version_range_chars(&chars) {
        Ok((lo, end)) => Ok(lo..end),
        Err(m) => Err(m),
    }
}

/// The bounds of a range token, as characters.
pub(crate) fn expand_version_range_chars(t: &Vec<char>) -> (r: Result<(u32, u32), &'static str>)
    ensures
        match r {
            Ok(b) => spec_expand_version_range(t@) == Ok::<(u32, u32), Seq<char>>(b),
            Err(m) => spec_expand_version_range(t@) == Err::<(u32, u32), Seq<char>>(m@),
        },
{
    if t.len() == 0 {
        return Err("version string empty");
    }
    match find_char(t, '-') {
        None => {
            proof {
                assert(t@.subrange(0, t@.len() as int) =~= t@);
            }
            match parse_u32_chars(t, 0, t.len()) {
                None => Err("cannot parse protocol range lower bound"),
                Some(_) => Err("cannot parse protocol range upper bound"),
            }
        },
        Some(d) => {
            proof {
                crate::protoset::lemma_find_first(t@, '-');
            }
            let lo = match parse_u32_chars(t, 0, d) {
                Some(lo) => lo,
                None => {
                    return Err("cannot parse protocol range lower bound");
                },
            };
            let hi = match parse_u32_chars(t, d + 1, t.len()) {
                Some(hi) => hi,
                None => {
                    return Err("cannot parse protocol range upper bound");
                },
            };
            if lo == u32::MAX || hi == u32::MAX {
                return Err("protocol range value out of range");
            }
            if lo > hi {
                return Err("protocol range is badly formed");
            }
            if (hi + 1 - lo) as usize > MAX_PROTOCOLS_TO_EXPAND {
                return Err("Too many protocols in expanded range");
            }
            Ok((lo, hi + 1))
        },
    }
}

/// A set of versions advertised for one protocol in a ballot.
#[derive(Debug, PartialEq, Eq)]
pub struct Versions(pub HashSet<Version>);

/// What parsing the comma-separated tokens of a permissive version list
/// yields, given what earlier tokens contributed: empty tokens are
/// skipped, and the running set is held to the expansion bound after
/// every token.
pub open spec fn parse_old_tokens(ts: Seq<Seq<char>>, acc: Set<u32>) -> Result<Set<u32>, Seq<char>>
    decreases ts.len(),
{
    if ts.len() == 0 {
        Ok(acc)
    } else {
        let t = ts[0];
        if t.len() == 0 {
            parse_old_tokens(ts.drop_first(), acc)
        } else if find_first(t, '-') >= 0 {
            match spec_expand_version_range(t) {
                Err(m) => Err(m),
                Ok(b) => {
                    let u = acc.union(version_range(b.0, (b.1 - 1) as u32));
                    if u.len() > MAX_PROTOCOLS_TO_EXPAND {
                        Err("Too many protocols in expanded range"@)
                    } else {
                        parse_old_tokens(ts.drop_first(), u)
                    }
                },
            }
        } else {
            match parse_u32(t) {
                None => Err("invalid protocol entry"@),
                Some(v) => if v == u32::MAX {
                    Err("invalid protocol entry"@)
                } else {
                    let u = acc.insert(v);
                    if u.len() > MAX_PROTOCOLS_TO_EXPAND {
                        Err("Too many protocols in expanded range"@)
                    } else {
                        parse_old_tokens(ts.drop_first(), u)
                    }
                },
            }
        }
    }
}

/// What [`Versions::from_version_string`] yields for a whole list.
pub open spec fn spec_from_version_string(s: Seq<char>) -> Result<Set<u32>, Seq<char>> {
    parse_old_tokens(split_at_char(s, ','), Set::<u32>::empty())
}

impl Versions {
    /// Parse a comma-separated version list into a plain set, reporting
    /// failures as messages.
    pub fn from_version_string(version_string: &str) -> (r: Result<Versions, &'static str>)
        ensures
            match r {
                Ok(v) => spec_from_version_string(version_string@) == Ok::<Set<u32>, Seq<char>>(
                    v.0@,
                ) && v.0@.finite() && v.0@.len() <= MAX_PROTOCOLS_TO_EXPAND,
                Err(m) => spec_from_version_string(version_string@) == Err::<Set<u32>, Seq<char>>(
                    m@,
                ),
            },
    {
        let chars = to_char_vec(version_string);
        let tokens = split_char_vec(&chars, ',');
        let ghost ts = split_at_char(version_string@, ',');
        let mut versions: HashSet<Version> = HashSet::new();
        let mut ti: usize = 0;
        proof {
            assert(ts.skip(0) =~~= ts);
        }
        while ti < tokens.len()
            invariant
                tokens.deep_view() == ts,
                ts == split_at_char(version_string@, ','),
                ti <= ts.len(),
                versions@.finite(),
                versions@.len() <= MAX_PROTOCOLS_TO_EXPAND,
                spec_from_version_string(version_string@) == parse_old_tokens(
                    ts.skip(ti as int),
                    versions@,
                ),
            decreases ts.len() - ti,
        {
            let ghost acc = versions@;
            let ghost rest = ts.skip(ti as int);
            proof {
                assert(rest[0] == ts[ti as int]);
                assert(rest.drop_first() =~~= ts.skip(ti + 1));
            }
            let t: &Vec<char> = &tokens[ti];
            proof {
                assert(t@ == tokens.deep_view()[ti as int]);
            }
            if t.len() == 0 {
                // An empty token contributes nothing.
            } else {
                match find_char(t, '-') {
                    Some(_) => {
                        let (lo, end) = match expand_version_range_chars(t) {
                            Ok(b) => b,
                            Err(m) => {
                                return Err(m);
                            },
                        };
                        let hi = end - 1;
                        let ghost u = acc.union(version_range(lo, hi));
                        proof {
                            lemma_version_range_len(lo, hi);
                            vstd::set_lib::lemma_set_union_finite_iff(
                                acc,
                                version_range(lo, hi),
                            );
                        }
                        let mut w = lo;
                        proof {
                            assert(acc.union(Set::new(|v: u32| lo <= v && v < w)) =~= acc);
                        }
                        while w <= hi
                            invariant
                                lo <= w <= hi + 1,
                                hi < u32::MAX,
                                versions@.finite(),
                                versions@ == acc.union(Set::new(|v: u32| lo <= v && v < w)),
                            decreases hi + 1 - w,
                        {
                            versions.insert(w);
                            proof {
                                assert(versions@ =~= acc.union(
                                    Set::new(|v: u32| lo <= v && v < w + 1),
                                ));
                            }
                            w = w + 1;
                        }
                        proof {
                            assert(Set::new(|v: u32| lo <= v && v < w) =~= version_range(lo, hi));
                            assert(versions@ == u);
                        }
                        if versions.len() > MAX_PROTOCOLS_TO_EXPAND {
                            return Err("Too many protocols in expanded range");
                        }
                    },
                    None => {
                        proof {
                            assert(t@.subrange(0, t@.len() as int) =~= t@);
                        }
                        let v = match parse_u32_chars(t, 0, t.len()) {
                            Some(v) => v,
                            None => {
                                return Err("invalid protocol entry");
                            },
                        };
                        if v == u32::MAX {
                            return Err("invalid protocol entry");
                        }
                        versions.insert(v);
                        if versions.len() > MAX_PROTOCOLS_TO_EXPAND {
                            return Err("Too many protocols in expanded range");
                        }
                    },
                }
            }
            ti = ti + 1;
        }
        proof {
            assert(ts.skip(ti as int) =~~= Seq::<Seq<char>>::empty());
        }
        Ok(Versions(versions))
    }
}


/// The elements of a hash set, in the order its iterator yields them.
fn hash_set_elements(s: &HashSet<u32>) -> (v: Vec<u32>)
    ensures
        v@.to_set() == s@,
        v@.no_duplicates(),
{
    let mut v: Vec<u32> = Vec::new();
    for x in it: s.iter()
        invariant
            v@.len() == it.index(),
            forall|i: int| 0 <= i < it.index() ==> v@[i] == *it.seq()[i],
            it.index() == it.seq().len() ==> v@.to_set() == s@ && v@.no_duplicates(),
    {
        let ghost k = it.index();
        v.push(*x);
        proof {
            vstd::std_specs::hash::axiom_spec_hash_keys_iter(s);
            assert(v@ =~= it.seq().take(k + 1).unref());
            assert(k + 1 == it.seq().len() ==> it.seq().take(k + 1) =~= it.seq());
            assert(k + 1 == it.seq().len() ==> v@ =~= it.seq().unref());
            assert(it.seq().unref().to_set() == s@);
            assert(it.seq().unref().no_duplicates()) by {
                assert(it.seq().no_duplicates());
                assert(forall|i: int, j: int|
                    0 <= i < j < it.seq().len() && it.seq().unref()[i] == it.seq().unref()[j]
                        ==> it.seq()[i] == it.seq()[j]);
            }
        }
    }
    v
}

/// The same values, sorted ascending with duplicates merged.
pub fn sort_versions(v: &Vec<u32>) -> (out: Vec<u32>)
    ensures
        sorted_strict(out@),
        out@.to_set() == v@.to_set(),
{
    let mut out: Vec<u32> = Vec::new();
    let mut i: usize = 0;
    proof {
        assert(out@.to_set() =~= v@.take(0).to_set());
    }
    while i < v.len()
        invariant
            i <= v@.len(),
            sorted_strict(out@),
            out@.to_set() == v@.take(i as int).to_set(),
        decreases v@.len() - i,
    {
        insert_sorted(&mut out, v[i]);
        proof {
            let p = v@.take(i as int);
            assert(v@.take(i + 1) =~= p.push(v@[i as int]));
            assert(p.push(v@[i as int]).to_set() =~= p.to_set().insert(v@[i as int])) by {
                assert forall|y: u32|
                    p.push(v@[i as int]).to_set().contains(y) implies p.to_set().insert(
                    v@[i as int],
                ).contains(y) by {
                    let j = choose|j: int|
                        0 <= j < p.push(v@[i as int]).len() && p.push(v@[i as int])[j] == y;
                    if j < p.len() {
                        assert(p[j] == y);
                    }
                }
                assert forall|y: u32|
                    p.to_set().insert(v@[i as int]).contains(y) implies p.push(
                    v@[i as int],
                ).to_set().contains(y) by {
                    if y == v@[i as int] {
                        assert(p.push(v@[i as int])[p.len() as int] == y);
                    } else {
                        let j = choose|j: int| 0 <= j < p.len() && p[j] == y;
                        assert(p.push(v@[i as int])[j] == y);
                    }
                }
            }
        }
        i = i + 1;
    }
    proof {
        assert(v@.take(i as int) =~= v@);
    }
    out
}

/// The elements of a hash set, sorted ascending into a vector.
pub fn hash_set_sorted_vec(s: &HashSet<u32>) -> (v: Vec<u32>)
    ensures
        sorted_strict(v@),
        v@.to_set() == s@,
{
    let elems = hash_set_elements(s);
    sort_versions(&elems)
}

/// Compact a set of versions into the canonical ascending, range-merged
/// string form, e.g. `"1,3,5-7"`.
pub fn contract_protocol_list(supported_set: &HashSet<Version>) -> (r: String)
    ensures
        r@ == encode_version_set(supported_set@),
{
    let sorted = hash_set_sorted_vec(supported_set);
    proof {
        lemma_sorted_strict_set_len(sorted@);
        lemma_sorted_of(supported_set@);
        lemma_sorted_strict_unique(sorted_of(supported_set@), sorted@);
    }
    let cs = encode_sorted_chars(&sorted);
    chars_to_string(&cs)
}

} // verus!
