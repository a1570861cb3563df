//! Sets of protocol versions and their canonical string codec.
//!
//! A version set is a finite set of 32-bit version numbers.  Its string
//! form lists versions ascending, compacted into ranges: `"1-3,5"`.
//! Parsing enforces a cumulative expansion bound so that a compact
//! input such as `"0-999999999"` cannot blow memory up.

use vstd::prelude::*;
use crate::errors::ProtoverError;
use crate::text::{
    is_digit, parse_u32, parse_u32_chars, split_at_char, split_char_vec, to_char_vec,
    u32_to_chars, chars_to_string, lemma_dec_str_val, lemma_split_if_whole,
    lemma_split_if_append, eq_sep, dec_str,
};

verus! {

/// A single version number of a subprotocol.
pub type Version = u32;

/// The most versions a parse may expand to before it is rejected as a
/// denial-of-service attempt.
pub const MAX_PROTOCOLS_TO_EXPAND: usize = 65536;

/// Strictly ascending: sorted with no duplicates.
pub open spec fn sorted_strict(s: Seq<u32>) -> bool {
    forall|i: int, j: int| 0 <= i < j < s.len() ==> s[i] < s[j]
}

/// A strictly ascending sequence has no duplicates, so its length is the
/// cardinality of its set of elements.
pub proof fn lemma_sorted_strict_set_len(s: Seq<u32>)
    requires
        sorted_strict(s),
    ensures
        s.no_duplicates(),
        s.to_set().len() == s.len(),
        s.to_set().finite(),
{
    s.unique_seq_to_set();
}

/// Two strictly ascending sequences over the same set are equal.
pub proof fn lemma_sorted_strict_unique(a: Seq<u32>, b: Seq<u32>)
    requires
        sorted_strict(a),
        sorted_strict(b),
        a.to_set() == b.to_set(),
    ensures
        a == b,
    decreases a.len(),
{
    lemma_sorted_strict_set_len(a);
    lemma_sorted_strict_set_len(b);
    if a.len() == 0 {
        assert(b.to_set().len() == 0);
        assert(a =~= b);
    } else {
        // Both heads are the minimum of the common set.
        assert(a.to_set().contains(b[0]));
        assert(b.to_set().contains(a[0]));
        let ia = choose|i: int| 0 <= i < a.len() && a[i] == b[0];
        let ib = choose|i: int| 0 <= i < b.len() && b[i] == a[0];
        assert(a[0] <= a[ia] && b[0] <= b[ib]);
        assert(a[0] == b[0]);
        let at = a.drop_first();
        let bt = b.drop_first();
        assert(at.to_set() =~= bt.to_set()) by {
            assert forall|x: u32| at.to_set().contains(x) implies bt.to_set().contains(x) by {
                let i = choose|i: int| 0 <= i < at.len() && at[i] == x;
                assert(a[i + 1] == x);
                assert(a[0] < x);
                assert(b.to_set().contains(x));
                let j = choose|j: int| 0 <= j < b.len() && b[j] == x;
                assert(j != 0);
                assert(bt[j - 1] == x);
            }
            assert forall|x: u32| bt.to_set().contains(x) implies at.to_set().contains(x) by {
                let i = choose|i: int| 0 <= i < bt.len() && bt[i] == x;
                assert(b[i + 1] == x);
                assert(b[0] < x);
                assert(a.to_set().contains(x));
                let j = choose|j: int| 0 <= j < a.len() && a[j] == x;
                assert(j != 0);
                assert(at[j - 1] == x);
            }
        }
        lemma_sorted_strict_unique(at, bt);
        assert(a =~= b) by {
            assert(forall|i: int| 1 <= i < a.len() ==> a[i] == at[i - 1] && b[i] == bt[i - 1]);
        }
    }
}

/// The sorted sequence listing a finite set of versions, ascending.
pub open spec fn sorted_of(s: Set<u32>) -> Seq<u32> {
    choose|q: Seq<u32>| sorted_strict(q) && q.to_set() == s
}

/// Insertion into a sorted sequence, at spec level.
pub open spec fn spec_ins_sorted(q: Seq<u32>, x: u32) -> Seq<u32>
    decreases q.len(),
{
    if q.len() == 0 {
        seq![x]
    } else if x < q[0] {
        seq![x] + q
    } else if x == q[0] {
        q
    } else {
        seq![q[0]] + spec_ins_sorted(q.drop_first(), x)
    }
}

proof fn lemma_spec_ins_sorted(q: Seq<u32>, x: u32)
    requires
        sorted_strict(q),
    ensures
        sorted_strict(spec_ins_sorted(q, x)),
        spec_ins_sorted(q, x).to_set() == q.to_set().insert(x),
    decreases q.len(),
{
    let r = spec_ins_sorted(q, x);
    if q.len() == 0 {
        assert(r =~= seq![x]);
        assert(r.to_set() =~= q.to_set().insert(x)) by {
            assert(r[0] == x);
            assert(r.contains(x));
            assert(forall|y: u32| r.contains(y) ==> y == x);
        }
    } else if x < q[0] {
        assert(sorted_strict(r)) by {
            assert(forall|i: int| 1 <= i < r.len() ==> r[i] == q[i - 1]);
        }
        assert(r.to_set() =~= q.to_set().insert(x)) by {
            assert forall|y: u32| r.to_set().contains(y) implies q.to_set().insert(x).contains(
                y,
            ) by {
                let i = choose|i: int| 0 <= i < r.len() && r[i] == y;
                if i > 0 {
                    assert(q[i - 1] == y);
                }
            }
            assert forall|y: u32| q.to_set().insert(x).contains(y) implies r.to_set().contains(
                y,
            ) by {
                if y == x {
                    assert(r[0] == x);
                } else {
                    let i = choose|i: int| 0 <= i < q.len() && q[i] == y;
                    assert(r[i + 1] == y);
                }
            }
        }
    } else if x == q[0] {
        assert(r.to_set() =~= q.to_set().insert(x)) by {
            assert(q[0] == x);
            assert(q.contains(x));
        }
    } else {
        let qt = q.drop_first();
        lemma_spec_ins_sorted(qt, x);
        let rt = spec_ins_sorted(qt, x);
        assert(r == seq![q[0]] + rt);
        assert(sorted_strict(r)) by {
            assert(forall|i: int| 1 <= i < r.len() ==> r[i] == rt[i - 1]);
            assert forall|i: int| 1 <= i < r.len() implies q[0] < r[i] by {
                assert(rt.to_set().contains(rt[i - 1]));
                let y = rt[i - 1];
                if y == x {
                    assert(q[0] < x);
                } else {
                    assert(qt.to_set().contains(y));
                    let j = choose|j: int| 0 <= j < qt.len() && qt[j] == y;
                    assert(q[j + 1] == y);
                    assert(q[0] < y);
                }
            }
        }
        assert(r.to_set() =~= q.to_set().insert(x)) by {
            assert forall|y: u32| r.to_set().contains(y) implies q.to_set().insert(x).contains(
                y,
            ) by {
                let i = choose|i: int| 0 <= i < r.len() && r[i] == y;
                if i > 0 {
                    assert(rt.to_set().contains(y));
                    if y != x {
                        assert(qt.to_set().contains(y));
                        let j = choose|j: int| 0 <= j < qt.len() && qt[j] == y;
                        assert(q[j + 1] == y);
                    }
                }
            }
            assert forall|y: u32| q.to_set().insert(x).contains(y) implies r.to_set().contains(
                y,
            ) by {
                if y == x || qt.to_set().contains(y) {
                    assert(rt.to_set().contains(y) || y == q[0]) by {
                        if y != q[0] && q.contains(y) {
                            let j = choose|j: int| 0 <= j < q.len() && q[j] == y;
                            assert(j != 0);
                            assert(qt[j - 1] == y);
                        }
                    }
                    if rt.to_set().contains(y) {
                        let i = choose|i: int| 0 <= i < rt.len() && rt[i] == y;
                        assert(r[i + 1] == y);
                    } else {
                        assert(r[0] == y);
                    }
                } else {
                    assert(q.contains(y));
                    let j = choose|j: int| 0 <= j < q.len() && q[j] == y;
                    if j == 0 {
                        assert(r[0] == y);
                    } else {
                        assert(qt[j - 1] == y);
                    }
                }
            }
        }
    }
}

/// Every finite set of versions has a sorted listing, so [`sorted_of`]
/// denotes one: it is strictly ascending and lists exactly the set.
pub proof fn lemma_sorted_of(s: Set<u32>)
    requires
        s.finite(),
    ensures
        sorted_strict(sorted_of(s)),
        sorted_of(s).to_set() == s,
        sorted_of(s).len() == s.len(),
    decreases s.len(),
{
    if s.len() == 0 {
        assert(s =~= Set::<u32>::empty()) by {
            s.lemma_len0_is_empty();
        }
        assert(sorted_strict(Seq::<u32>::empty()));
        assert(Seq::<u32>::empty().to_set() =~= s);
        assert(exists|q: Seq<u32>| sorted_strict(q) && q.to_set() == s);
    } else {
        let x = s.choose();
        assert(s.contains(x));
        lemma_sorted_of(s.remove(x));
        let q0 = sorted_of(s.remove(x));
        lemma_spec_ins_sorted(q0, x);
        assert(s.remove(x).insert(x) =~= s);
        assert(sorted_strict(spec_ins_sorted(q0, x)) && spec_ins_sorted(q0, x).to_set() == s);
        assert(exists|q: Seq<u32>| sorted_strict(q) && q.to_set() == s);
    }
    let q = sorted_of(s);
    assert(sorted_strict(q) && q.to_set() == s);
    lemma_sorted_strict_set_len(q);
}

/// Insert `x` into the ascending vector `v`, keeping it ascending.
pub fn insert_sorted(v: &mut Vec<u32>, x: u32)
    requires
        sorted_strict(old(v)@),
    ensures
        sorted_strict(final(v)@),
        final(v)@.to_set() == old(v)@.to_set().insert(x),
        final(v)@.len() == old(v)@.len() + if old(v)@.contains(x) {
            0int
        } else {
            1int
        },
{
    let mut j: usize = 0;
    while j < v.len() && v[j] < x
        invariant
            j <= v@.len(),
            sorted_strict(v@),
            v@ == old(v)@,
            forall|k: int| 0 <= k < j ==> v@[k] < x,
        decreases v@.len() - j,
    {
        j = j + 1;
    }
    if j < v.len() && v[j] == x {
        proof {
            assert(v@.contains(x));
            assert(v@.to_set() =~= old(v)@.to_set().insert(x));
        }
        return ;
    }
    proof {
        assert(!old(v)@.contains(x)) by {
            if old(v)@.contains(x) {
                let i = choose|i: int| 0 <= i < old(v)@.len() && old(v)@[i] == x;
                if i < j {
                    assert(v@[i] < x);
                } else {
                    assert(v@[j as int] <= v@[i] || j == i);
                }
            }
        }
    }
    v.insert(j, x);
    proof {
        assert(sorted_strict(v@)) by {
            assert(forall|k: int| 0 <= k < j ==> v@[k] == old(v)@[k]);
            assert(forall|k: int| j < k < v@.len() ==> v@[k] == old(v)@[k - 1]);
            assert(v@[j as int] == x);
            assert forall|k: int| j < k < v@.len() implies x < v@[k] by {
                assert(old(v)@[j as int] <= old(v)@[k - 1] && old(v)@[k - 1] != x);
            }
        }
        assert(v@.to_set() =~= old(v)@.to_set().insert(x)) by {
            assert forall|y: u32| v@.contains(y) implies old(v)@.contains(y) || y == x by {
                let i = choose|i: int| 0 <= i < v@.len() && v@[i] == y;
                if i < j {
                    assert(old(v)@[i] == y);
                } else if i > j {
                    assert(old(v)@[i - 1] == y);
                }
            }
            assert forall|y: u32| old(v)@.contains(y) implies v@.contains(y) by {
                let i = choose|i: int| 0 <= i < old(v)@.len() && old(v)@[i] == y;
                if i < j {
                    assert(v@[i] == y);
                } else {
                    assert(v@[i + 1] == y);
                }
            }
            assert(v@[j as int] == x);
            assert(v@.contains(x));
        }
    }
}

// ---------------------------------------------------------------------
// Runs of consecutive versions, and the canonical encoding.
// ---------------------------------------------------------------------

/// The index ending the maximal consecutive run that starts at `i`.
pub open spec fn run_end(s: Seq<u32>, i: int) -> int
    decreases s.len() - i,
{
    if i + 1 < s.len() && s[i] < u32::MAX && s[i + 1] == s[i] + 1 {
        run_end(s, i + 1)
    } else {
        i
    }
}

/// The run end stays within the sequence and does not precede its start.
pub proof fn lemma_run_end_bounds(s: Seq<u32>, i: int)
    requires
        0 <= i < s.len(),
    ensures
        i <= run_end(s, i) < s.len(),
    decreases s.len() - i,
{
    if i + 1 < s.len() && s[i] < u32::MAX && s[i + 1] == s[i] + 1 {
        lemma_run_end_bounds(s, i + 1);
    }
}

/// Between a run's start and its end, values are consecutive.
pub proof fn lemma_run_consecutive(s: Seq<u32>, i: int, k: int)
    requires
        0 <= i < s.len(),
        i <= k <= run_end(s, i),
    ensures
        s[k] == s[i] + (k - i),
    decreases k - i,
{
    lemma_run_end_bounds(s, i);
    if k > i {
        assert(run_end(s, i) == run_end(s, i + 1));
        lemma_run_consecutive(s, i + 1, k);
    }
}

/// The canonical encoding of an ascending version sequence: each maximal
/// consecutive run is one token, `"lo"` or `"lo-hi"`, tokens joined by
/// commas.
pub open spec fn encode_versions(s: Seq<u32>) -> Seq<char>
    decreases s.len(),
    via encode_versions_decreases
{
    if s.len() == 0 {
        Seq::<char>::empty()
    } else {
        let j = run_end(s, 0);
        let tok = if j == 0 {
            dec_str(s[0] as int)
        } else {
            dec_str(s[0] as int) + seq!['-'] + dec_str(s[j] as int)
        };
        if j + 1 >= s.len() {
            tok
        } else {
            tok + seq![','] + encode_versions(s.skip(j + 1))
        }
    }
}

#[via_fn]
proof fn encode_versions_decreases(s: Seq<u32>) {
    if s.len() > 0 {
        lemma_run_end_bounds(s, 0);
    }
}

/// The canonical string of a finite set of versions.
pub open spec fn encode_version_set(s: Set<u32>) -> Seq<char> {
    encode_versions(sorted_of(s))
}

/// A suffix of an ascending sequence is ascending.
pub proof fn lemma_sorted_skip(s: Seq<u32>, k: int)
    requires
        sorted_strict(s),
        0 <= k <= s.len(),
    ensures
        sorted_strict(s.skip(k)),
{
    assert(forall|i: int, j: int|
        0 <= i < j < s.len() - k ==> s.skip(k)[i] == s[i + k] && s.skip(k)[j] == s[j + k]);
}

/// Find the index ending the consecutive run that starts at `i`.
fn run_end_index(v: &Vec<u32>, i: usize) -> (j: usize)
    requires
        i < v@.len(),
    ensures
        j == run_end(v@, i as int),
    decreases v@.len() - i,
{
    let n = v.len();
    if i < n - 1 && v[i] < u32::MAX && v[i + 1] == v[i] + 1 {
        run_end_index(v, i + 1)
    } else {
        i
    }
}

/// Walk a sorted version list: does it begin with a run of length more
/// than one, and where does that first run end?  An empty list reports
/// no run ending at version zero.
pub fn find_range(list: &Vec<Version>) -> (r: (bool, Version))
    ensures
        r == spec_find_range(list@),
{
    if list.len() == 0 {
        return (false, 0);
    }
    let j = run_end_index(list, 0);
    proof {
        lemma_run_end_bounds(list@, 0);
    }
    (j > 0, list[j])
}

/// What [`find_range`] reports for a version list.
pub open spec fn spec_find_range(l: Seq<u32>) -> (bool, Version) {
    if l.len() == 0 {
        (false, 0u32)
    } else {
        let j = run_end(l, 0);
        (j > 0, l[j])
    }
}

/// The canonical characters of an ascending version vector.
pub(crate) fn encode_sorted_chars(v: &Vec<u32>) -> (out: Vec<char>)
    requires
        sorted_strict(v@),
    ensures
        out@ == encode_versions(v@),
{
    let mut out: Vec<char> = Vec::new();
    let mut i: usize = 0;
    proof {
        assert(v@.skip(0) =~= v@);
        assert(Seq::<char>::empty() + encode_versions(v@) =~= encode_versions(v@));
    }
    while i < v.len()
        invariant
            sorted_strict(v@),
            i <= v@.len(),
            encode_versions(v@) == out@ + encode_versions(v@.skip(i as int)),
        decreases v@.len() - i,
    {
        let ghost pre = v@.skip(i as int);
        proof {
            lemma_sorted_skip(v@, i as int);
        }
        let j = run_end_index(v, i);
        proof {
            lemma_run_end_bounds(v@, i as int);
            lemma_run_end_shift(v@, i as int, i as int);
            assert(run_end(pre, 0) == j - i);
            assert(pre[0] == v@[i as int]);
            assert(pre[j - i] == v@[j as int]);
        }
        let mut tok = u32_to_chars(v[i]);
        if j > i {
            tok.push('-');
            let mut hi = u32_to_chars(v[j]);
            tok.append(&mut hi);
            proof {
                assert(tok@ =~= dec_str(v@[i as int] as int) + seq!['-'] + dec_str(
                    v@[j as int] as int,
                ));
            }
        }
        if j + 1 < v.len() {
            tok.push(',');
            proof {
                assert(pre.skip(j - i + 1) =~= v@.skip(j + 1));
                assert(encode_versions(pre) == tok@ + encode_versions(v@.skip(j + 1)));
                assert(out@ + (tok@ + encode_versions(v@.skip(j + 1))) =~= (out@ + tok@)
                    + encode_versions(v@.skip(j + 1)));
            }
            out.append(&mut tok);
            i = j + 1;
        } else {
            proof {
                assert(encode_versions(pre) == tok@);
                assert(v@.skip(j + 1) =~= Seq::<u32>::empty());
                assert(encode_versions(v@.skip(j + 1)) == Seq::<char>::empty());
                assert(out@ + tok@ =~= (out@ + tok@) + Seq::<char>::empty());
            }
            out.append(&mut tok);
            i = j + 1;
        }
    }
    proof {
        assert(v@.skip(i as int) =~= Seq::<u32>::empty());
        assert(encode_versions(v@) =~= out@);
    }
    out
}

// ---------------------------------------------------------------------
// Parsing version lists.
// ---------------------------------------------------------------------

/// The index of the first occurrence of `c` in `s`, or `-1`.
pub open spec fn find_first(s: Seq<char>, c: char) -> int
    decreases s.len(),
{
    if s.len() == 0 {
        -1
    } else if s[0] == c {
        0
    } else {
        let r = find_first(s.drop_first(), c);
        if r == -1 {
            -1
        } else {
            r + 1
        }
    }
}

/// What [`find_first`] finds: the first occurrence, if there is one.
pub proof fn lemma_find_first(s: Seq<char>, c: char)
    ensures
        find_first(s, c) == -1 ==> forall|i: int| 0 <= i < s.len() ==> s[i] != c,
        find_first(s, c) != -1 ==> 0 <= find_first(s, c) < s.len() && s[find_first(s, c)] == c
            && forall|i: int| 0 <= i < find_first(s, c) ==> s[i] != c,
    decreases s.len(),
{
    if s.len() > 0 && s[0] != c {
        lemma_find_first(s.drop_first(), c);
        assert(forall|i: int| 1 <= i < s.len() ==> s[i] == s.drop_first()[i - 1]);
    }
}

/// Find the first occurrence of `c` in the character vector `t`.
pub(crate) fn find_char(t: &Vec<char>, c: char) -> (r: Option<usize>)
    ensures
        match r {
            Some(i) => find_first(t@, c) == i,
            None => find_first(t@, c) == -1,
        },
{
    proof {
        lemma_find_first(t@, c);
    }
    let mut i: usize = 0;
    while i < t.len()
        invariant
            i <= t@.len(),
            forall|j: int| 0 <= j < i ==> t@[j] != c,
            find_first(t@, c) == -1 ==> forall|j: int| 0 <= j < t@.len() ==> t@[j] != c,
            find_first(t@, c) != -1 ==> 0 <= find_first(t@, c) < t@.len() && t@[find_first(
                t@,
                c,
            )] == c && forall|j: int| 0 <= j < find_first(t@, c) ==> t@[j] != c,
        decreases t@.len() - i,
    {
        if t[i] == c {
            return Some(i);
        }
        i = i + 1;
    }
    None
}

/// The versions from `lo` to `hi`, both inclusive.
pub open spec fn version_range(lo: u32, hi: u32) -> Set<u32> {
    Set::new(|v: u32| lo <= v && v <= hi)
}

/// An inclusive version range is finite, with one version per step.
pub proof fn lemma_version_range_len(lo: u32, hi: u32)
    requires
        lo <= hi,
    ensures
        version_range(lo, hi).finite(),
        version_range(lo, hi).len() == hi - lo + 1,
    decreases hi - lo,
{
    if lo == hi {
        assert(version_range(lo, hi) =~= Set::<u32>::empty().insert(lo));
    } else {
        lemma_version_range_len(lo, (hi - 1) as u32);
        assert(version_range(lo, hi) =~= version_range(lo, (hi - 1) as u32).insert(hi));
        assert(!version_range(lo, (hi - 1) as u32).contains(hi));
    }
}

/// What one comma-separated token of a version list denotes: nothing for
/// an empty token, one version, or an inclusive range; or the failure
/// the token's text earns.
pub open spec fn parse_version_token(t: Seq<char>) -> Result<Set<u32>, ProtoverError> {
    if t.len() == 0 {
        Ok(Set::<u32>::empty())
    } else {
        let d = find_first(t, '-');
        if d >= 0 {
            let lo_s = t.subrange(0, d);
            let hi_s = t.subrange(d + 1, t.len() as int);
            match parse_u32(lo_s) {
                None => Err(ProtoverError::NonNumericVersion),
                Some(lo) => match parse_u32(hi_s) {
                    None => Err(ProtoverError::NonNumericVersion),
                    Some(hi) => if lo == u32::MAX || hi == u32::MAX {
                        Err(ProtoverError::ReservedVersionValue)
                    } else if lo > hi {
                        Err(ProtoverError::BadRange)
                    } else {
                        Ok(version_range(lo, hi))
                    },
                },
            }
        } else {
            match parse_u32(t) {
                None => Err(ProtoverError::NonNumericVersion),
                Some(v) => if v == u32::MAX {
                    Err(ProtoverError::ReservedVersionValue)
                } else {
                    Ok(Set::<u32>::empty().insert(v))
                },
            }
        }
    }
}

/// Fold the tokens into the set parsed so far.  After each token the
/// running set is held to the expansion bound.
pub open spec fn parse_version_tokens(ts: Seq<Seq<char>>, acc: Set<u32>) -> Result<
    Set<u32>,
    ProtoverError,
>
    decreases ts.len(),
{
    if ts.len() == 0 {
        Ok(acc)
    } else {
        match parse_version_token(ts[0]) {
            Err(e) => Err(e),
            Ok(s) => {
                let u = acc.union(s);
                if u.len() > MAX_PROTOCOLS_TO_EXPAND {
                    Err(ProtoverError::TooManyVersions)
                } else {
                    parse_version_tokens(ts.drop_first(), u)
                }
            },
        }
    }
}

/// What parsing a whole version list denotes.
pub open spec fn parse_versions(s: Seq<char>) -> Result<Set<u32>, ProtoverError> {
    parse_version_tokens(split_at_char(s, ','), Set::<u32>::empty())
}

/// A canonical set of protocol versions, held ascending.
#[derive(Debug, PartialEq, Eq)]
pub struct ProtoSet {
    versions: Vec<Version>,
}

impl View for ProtoSet {
    type V = Seq<u32>;

    closed spec fn view(&self) -> Seq<u32> {
        self.versions@
    }
}

impl Default for ProtoSet {
    /// The empty version set.
    fn default() -> (r: Self)
        ensures
            r@ == Seq::<u32>::empty(),
            r.wf(),
    {
        ProtoSet { versions: Vec::new() }
    }
}

impl Clone for ProtoSet {
    /// An identical version set.
    fn clone(&self) -> (r: Self)
        ensures
            r@ == self@,
    {
        let mut versions: Vec<u32> = Vec::new();
        let mut i: usize = 0;
        while i < self.versions.len()
            invariant
                i <= self.versions@.len(),
                versions@ == self.versions@.take(i as int),
            decreases self.versions@.len() - i,
        {
            versions.push(self.versions[i]);
            i = i + 1;
            proof {
                assert(versions@ =~= self.versions@.take(i as int));
            }
        }
        proof {
            assert(versions@ =~= self.versions@);
        }
        ProtoSet { versions }
    }
}

impl ProtoSet {
    /// A well-formed set holds its versions strictly ascending.
    pub open spec fn wf(&self) -> bool {
        sorted_strict(self@)
    }

    /// Parse a comma-separated version list, e.g. `"1-3,5"`.  The empty
    /// string is the empty set, empty tokens are skipped, and the
    /// cumulative expansion bound is enforced after every token.
    pub fn from_str(s: &str) -> (r: Result<ProtoSet, ProtoverError>)
        ensures
            match r {
                Ok(p) => p.wf() && p@.len() <= MAX_PROTOCOLS_TO_EXPAND && parse_versions(s@)
                    == Ok::<Set<u32>, ProtoverError>(p@.to_set()),
                Err(e) => parse_versions(s@) == Err::<Set<u32>, ProtoverError>(e),
            },
    {
        let chars = to_char_vec(s);
        ProtoSet::from_chars(&chars)
    }

    /// As [`ProtoSet::from_str`], over a character vector.
    pub(crate) fn from_chars(chars: &Vec<char>) -> (r: Result<ProtoSet, ProtoverError>)
        ensures
            match r {
                Ok(p) => p.wf() && p@.len() <= MAX_PROTOCOLS_TO_EXPAND && parse_versions(chars@)
                    == Ok::<Set<u32>, ProtoverError>(p@.to_set()),
                Err(e) => parse_versions(chars@) == Err::<Set<u32>, ProtoverError>(e),
            },
    {
        let tokens = split_char_vec(chars, ',');
        let ghost ts = split_at_char(chars@, ',');
        let mut vs: Vec<u32> = Vec::new();
        let mut ti: usize = 0;
        proof {
            assert(ts.skip(0) =~~= ts);
            assert(vs@.to_set() =~= Set::<u32>::empty());
        }
        while ti < tokens.len()
            invariant
                tokens.deep_view() == ts,
                ts == split_at_char(chars@, ','),
                ti <= ts.len(),
                sorted_strict(vs@),
                vs@.len() <= MAX_PROTOCOLS_TO_EXPAND,
                parse_versions(chars@) == parse_version_tokens(ts.skip(ti as int), vs@.to_set()),
            decreases ts.len() - ti,
        {
            let ghost acc = vs@.to_set();
            let ghost rest = ts.skip(ti as int);
            proof {
                assert(rest[0] == ts[ti as int]);
                assert(rest.drop_first() =~~= ts.skip(ti + 1));
                lemma_sorted_strict_set_len(vs@);
            }
            let t: &Vec<char> = &tokens[ti];
            proof {
                assert(t@ == tokens.deep_view()[ti as int]);
            }
            if t.len() == 0 {
                proof {
                    assert(acc.union(Set::<u32>::empty()) =~= acc);
                    assert(acc.len() <= MAX_PROTOCOLS_TO_EXPAND);
                }
            } else {
                match find_char(t, '-') {
                    Some(d) => {
                        proof {
                            lemma_find_first(t@, '-');
                        }
                        let lo_opt = parse_u32_chars(t, 0, d);
                        let lo = match lo_opt {
                            Some(lo) => lo,
                            None => {
                                return Err(ProtoverError::NonNumericVersion);
                            },
                        };
                        let hi_opt = parse_u32_chars(t, d + 1, t.len());
                        let hi = match hi_opt {
                            Some(hi) => hi,
                            None => {
                                return Err(ProtoverError::NonNumericVersion);
                            },
                        };
                        if lo == u32::MAX || hi == u32::MAX {
                            return Err(ProtoverError::ReservedVersionValue);
                        }
                        if lo > hi {
                            return Err(ProtoverError::BadRange);
                        }
                        let ghost u = acc.union(version_range(lo, hi));
                        proof {
                            lemma_version_range_len(lo, hi);
                            vstd::set_lib::lemma_len_subset(
                                version_range(lo, hi),
                                version_range(lo, hi),
                            );
                        }
                        if (hi - lo) as usize >= MAX_PROTOCOLS_TO_EXPAND {
                            proof {
                                assert(version_range(lo, hi).subset_of(u));
                                assert(u.finite()) by {
                                    vstd::set_lib::lemma_set_union_finite_iff(
                                        acc,
                                        version_range(lo, hi),
                                    );
                                }
                                vstd::set_lib::lemma_len_subset(version_range(lo, hi), u);
                                assert(u.len() > MAX_PROTOCOLS_TO_EXPAND);
                            }
                            return Err(ProtoverError::TooManyVersions);
                        }
                        let mut w = lo;
                        proof {
                            assert(acc.union(Set::new(|v: u32| lo <= v && v < w)) =~= acc);
                        }
                        while w <= hi
                            invariant
                                lo <= w <= hi + 1,
                                hi < u32::MAX,
                                sorted_strict(vs@),
                                vs@.to_set() == acc.union(Set::new(|v: u32| lo <= v && v < w)),
                            decreases hi + 1 - w,
                        {
                            insert_sorted(&mut vs, w);
                            proof {
                                assert(vs@.to_set() =~= acc.union(
                                    Set::new(|v: u32| lo <= v && v < w + 1),
                                ));
                            }
                            w = w + 1;
                        }
                        proof {
                            assert(Set::new(|v: u32| lo <= v && v < w) =~= version_range(lo, hi));
                            assert(vs@.to_set() == u);
                            lemma_sorted_strict_set_len(vs@);
                        }
                        if vs.len() > MAX_PROTOCOLS_TO_EXPAND {
                            return Err(ProtoverError::TooManyVersions);
                        }
                    },
                    None => {
                        let v_opt = parse_u32_chars(t, 0, t.len());
                        proof {
                            assert(t@.subrange(0, t@.len() as int) =~= t@);
                        }
                        let v = match v_opt {
                            Some(v) => v,
                            None => {
                                return Err(ProtoverError::NonNumericVersion);
                            },
                        };
                        if v == u32::MAX {
                            return Err(ProtoverError::ReservedVersionValue);
                        }
                        insert_sorted(&mut vs, v);
                        proof {
                            assert(vs@.to_set() =~= acc.union(Set::<u32>::empty().insert(v)));
                            lemma_sorted_strict_set_len(vs@);
                        }
                        if vs.len() > MAX_PROTOCOLS_TO_EXPAND {
                            return Err(ProtoverError::TooManyVersions);
                        }
                    },
                }
            }
            ti = ti + 1;
        }
        proof {
            assert(ts.skip(ti as int) =~~= Seq::<Seq<char>>::empty());
        }
        Ok(ProtoSet { versions: vs })
    }

    /// The canonical string form: ascending, range-compacted.
    pub fn to_string(&self) -> (r: String)
        requires
            self.wf(),
        ensures
            r@ == encode_versions(self@),
    {
        let cs = encode_sorted_chars(&self.versions);
        chars_to_string(&cs)
    }

    /// Whether `v` is in the set.
    pub fn contains(&self, v: Version) -> (r: bool)
        requires
            self.wf(),
        ensures
            r == self@.contains(v),
    {
        let mut i: usize = 0;
        while i < self.versions.len()
            invariant
                i <= self@.len(),
                forall|j: int| 0 <= j < i ==> self@[j] != v,
            decreases self@.len() - i,
        {
            if self.versions[i] == v {
                return true;
            }
            i = i + 1;
        }
        false
    }

    /// Whether any version in the set is at least `v`.
    pub fn supports_or_later(&self, v: Version) -> (r: bool)
        requires
            self.wf(),
        ensures
            r == exists|i: int| 0 <= i < self@.len() && self@[i] >= v,
    {
        if self.versions.len() == 0 {
            return false;
        }
        let last = self.versions[self.versions.len() - 1];
        if last >= v {
            proof {
                assert(self@[self@.len() - 1] >= v);
            }
            true
        } else {
            proof {
                assert forall|i: int| 0 <= i < self@.len() implies self@[i] < v by {
                    if i < self@.len() - 1 {
                        assert(self@[i] < self@[self@.len() - 1]);
                    }
                }
            }
            false
        }
    }

    /// Whether every version in the set is also in `other`.
    pub fn is_subset_of(&self, other: &ProtoSet) -> (r: bool)
        requires
            self.wf(),
            other.wf(),
        ensures
            r == self@.to_set().subset_of(other@.to_set()),
    {
        let mut i: usize = 0;
        while i < self.versions.len()
            invariant
                self.wf(),
                other.wf(),
                i <= self@.len(),
                forall|j: int| 0 <= j < i ==> other@.contains(#[trigger] self@[j]),
            decreases self@.len() - i,
        {
            if !other.contains(self.versions[i]) {
                proof {
                    assert(self@.to_set().contains(self@[i as int]));
                    assert(!other@.to_set().contains(self@[i as int]));
                }
                return false;
            }
            i = i + 1;
        }
        proof {
            assert forall|x: u32| self@.to_set().contains(x) implies other@.to_set().contains(
                x,
            ) by {
                let j = choose|j: int| 0 <= j < self@.len() && self@[j] == x;
                assert(other@.contains(self@[j]));
            }
        }
        true
    }

    /// Whether the set is empty.
    pub fn is_empty(&self) -> (r: bool)
        ensures
            r == (self@.len() == 0),
    {
        self.versions.len() == 0
    }

    /// How many versions the set holds.
    pub fn len(&self) -> (r: usize)
        ensures
            r == self@.len(),
    {
        self.versions.len()
    }

    /// The versions, ascending.
    pub fn as_sorted_vec(&self) -> (r: &Vec<Version>)
        ensures
            r@ == self@,
    {
        &self.versions
    }
}

// ---------------------------------------------------------------------
// The canonicalization fixed point: decoding a canonical string and
// re-encoding it gives the same string back.
// ---------------------------------------------------------------------

/// If `c` first occurs at index `i`, that is where [`find_first`] points.
proof fn lemma_find_first_at(s: Seq<char>, c: char, i: int)
    requires
        0 <= i < s.len(),
        s[i] == c,
        forall|j: int| 0 <= j < i ==> s[j] != c,
    ensures
        find_first(s, c) == i,
    decreases i,
{
    if i > 0 {
        assert(forall|j: int| 1 <= j < s.len() ==> s[j] == s.drop_first()[j - 1]);
        lemma_find_first_at(s.drop_first(), c, i - 1);
    }
}

/// If `c` does not occur, [`find_first`] reports so.
proof fn lemma_find_first_missing(s: Seq<char>, c: char)
    requires
        forall|j: int| 0 <= j < s.len() ==> s[j] != c,
    ensures
        find_first(s, c) == -1,
{
    lemma_find_first(s, c);
    if find_first(s, c) != -1 {
        assert(s[find_first(s, c)] == c);
    }
}

/// The token for a single version parses back to that version.
proof fn lemma_parse_scalar_token(n: u32)
    requires
        n < u32::MAX,
    ensures
        parse_version_token(dec_str(n as int)) == Ok::<Set<u32>, ProtoverError>(
            Set::<u32>::empty().insert(n),
        ),
{
    let t = dec_str(n as int);
    lemma_dec_str_val(n as int);
    assert(forall|j: int| 0 <= j < t.len() ==> t[j] != '-') by {
        assert(forall|j: int| 0 <= j < t.len() ==> is_digit(#[trigger] t[j]));
    }
    lemma_find_first_missing(t, '-');
    assert(parse_u32(t) == Some(n));
}

/// The token for a range parses back to that inclusive range.
proof fn lemma_parse_range_token(lo: u32, hi: u32)
    requires
        lo < hi,
        hi < u32::MAX,
    ensures
        parse_version_token(dec_str(lo as int) + seq!['-'] + dec_str(hi as int)) == Ok::<
            Set<u32>,
            ProtoverError,
        >(version_range(lo, hi)),
{
    let a = dec_str(lo as int);
    let b = dec_str(hi as int);
    let t = a + seq!['-'] + b;
    lemma_dec_str_val(lo as int);
    lemma_dec_str_val(hi as int);
    let d = a.len() as int;
    assert(t[d] == '-');
    assert(forall|j: int| 0 <= j < d ==> t[j] == a[j] && is_digit(#[trigger] t[j]));
    assert(forall|j: int| 0 <= j < d ==> t[j] != '-');
    lemma_find_first_at(t, '-', d);
    assert(t.subrange(0, d) =~= a);
    assert(t.subrange(d + 1, t.len() as int) =~= b);
    assert(parse_u32(a) == Some(lo));
    assert(parse_u32(b) == Some(hi));
}

/// The first run of an ascending sequence covers exactly the versions
/// between its endpoints.
proof fn lemma_run_set(s: Seq<u32>)
    requires
        sorted_strict(s),
        s.len() > 0,
    ensures
        s.take(run_end(s, 0) + 1).to_set() == version_range(s[0], s[run_end(s, 0)]),
{
    let j = run_end(s, 0);
    lemma_run_end_bounds(s, 0);
    let p = s.take(j + 1);
    assert(p.to_set() =~= version_range(s[0], s[j])) by {
        assert forall|v: u32| p.to_set().contains(v) implies version_range(s[0], s[j]).contains(
            v,
        ) by {
            let k = choose|k: int| 0 <= k < p.len() && p[k] == v;
            assert(s[k] == v);
            lemma_run_consecutive(s, 0, k);
            lemma_run_consecutive(s, 0, j);
        }
        assert forall|v: u32| version_range(s[0], s[j]).contains(v) implies p.to_set().contains(
            v,
        ) by {
            lemma_run_consecutive(s, 0, j);
            let k = v - s[0];
            lemma_run_consecutive(s, 0, k as int);
            assert(p[k as int] == v);
        }
    }
}

/// A sequence's elements are those of any prefix plus those of the rest.
proof fn lemma_take_skip_to_set(s: Seq<u32>, k: int)
    requires
        0 <= k <= s.len(),
    ensures
        s.to_set() == s.take(k).to_set().union(s.skip(k).to_set()),
{
    assert(s.to_set() =~= s.take(k).to_set().union(s.skip(k).to_set())) by {
        assert forall|v: u32| s.to_set().contains(v) implies s.take(k).to_set().union(
            s.skip(k).to_set(),
        ).contains(v) by {
            let i = choose|i: int| 0 <= i < s.len() && s[i] == v;
            if i < k {
                assert(s.take(k)[i] == v);
            } else {
                assert(s.skip(k)[i - k] == v);
            }
        }
        assert forall|v: u32|
            s.take(k).to_set().union(s.skip(k).to_set()).contains(v) implies s.to_set().contains(
            v,
        ) by {
            if s.take(k).to_set().contains(v) {
                let i = choose|i: int| 0 <= i < k && s.take(k)[i] == v;
                assert(s[i] == v);
            } else {
                let i = choose|i: int| 0 <= i < s.len() - k && s.skip(k)[i] == v;
                assert(s[i + k] == v);
            }
        }
    }
}

/// The characters of an encoded token are digits or the range dash.
proof fn lemma_token_no_comma(s: Seq<u32>)
    requires
        sorted_strict(s),
        s.len() > 0,
    ensures
        forall|i: int|
            0 <= i < encode_token(s).len() ==> #[trigger] encode_token(s)[i] != ',',
{
    let j = run_end(s, 0);
    lemma_run_end_bounds(s, 0);
    lemma_dec_str_val(s[0] as int);
    lemma_dec_str_val(s[j] as int);
    let a = dec_str(s[0] as int);
    let b = dec_str(s[j] as int);
    if j == 0 {
        assert(forall|i: int| 0 <= i < a.len() ==> is_digit(#[trigger] a[i]));
    } else {
        assert(forall|i: int| 0 <= i < a.len() ==> is_digit(#[trigger] a[i]));
        assert(forall|i: int| 0 <= i < b.len() ==> is_digit(#[trigger] b[i]));
        assert(forall|i: int|
            0 <= i < encode_token(s).len() ==> encode_token(s)[i] == (a + seq!['-'] + b)[i]);
    }
}

/// The leading token of the canonical encoding.
pub open spec fn encode_token(s: Seq<u32>) -> Seq<char> {
    let j = run_end(s, 0);
    if j == 0 {
        dec_str(s[0] as int)
    } else {
        dec_str(s[0] as int) + seq!['-'] + dec_str(s[run_end(s, 0)] as int)
    }
}

/// Parsing the canonical encoding of `s` adds exactly the versions of
/// `s` to whatever was already accumulated.
proof fn lemma_parse_encode_rec(s: Seq<u32>, acc: Set<u32>)
    requires
        sorted_strict(s),
        acc.finite(),
        acc.union(s.to_set()).len() <= MAX_PROTOCOLS_TO_EXPAND,
        forall|i: int| 0 <= i < s.len() ==> #[trigger] s[i] < u32::MAX,
    ensures
        parse_version_tokens(split_at_char(encode_versions(s), ','), acc) == Ok::<
            Set<u32>,
            ProtoverError,
        >(acc.union(s.to_set())),
    decreases s.len(),
{
    broadcast use vstd::set_lib::lemma_set_union_finite_iff;

    if s.len() == 0 {
        assert(s.to_set() =~= Set::<u32>::empty());
        assert(acc.union(s.to_set()) =~= acc);
        assert(encode_versions(s) == Seq::<char>::empty());
        let ts = split_at_char(Seq::<char>::empty(), ',');
        assert(ts == seq![Seq::<char>::empty()]);
        assert(ts[0].len() == 0);
        assert(parse_version_token(ts[0]) == Ok::<Set<u32>, ProtoverError>(Set::<u32>::empty()));
        assert(acc.union(Set::<u32>::empty()) =~= acc);
        assert(ts.drop_first() =~~= Seq::<Seq<char>>::empty());
        assert(parse_version_tokens(Seq::<Seq<char>>::empty(), acc.union(Set::<u32>::empty()))
            == Ok::<Set<u32>, ProtoverError>(acc.union(Set::<u32>::empty())));
        assert(parse_version_tokens(ts, acc) == Ok::<Set<u32>, ProtoverError>(acc));
    } else {
        let j = run_end(s, 0);
        lemma_run_end_bounds(s, 0);
        let tok = encode_token(s);
        lemma_token_no_comma(s);
        lemma_run_set(s);

        // The leading token parses to the first run's set of versions.
        let runset = version_range(s[0], s[j as int]);
        assert(parse_version_token(tok) == Ok::<Set<u32>, ProtoverError>(runset)) by {
            if j == 0 {
                lemma_parse_scalar_token(s[0]);
                assert(Set::<u32>::empty().insert(s[0]) =~= version_range(s[0], s[0]));
            } else {
                lemma_run_consecutive(s, 0, j);
                lemma_parse_range_token(s[0], s[j as int]);
            }
        }
        let u = acc.union(runset);
        lemma_take_skip_to_set(s, j + 1);
        assert(runset == s.take(j + 1).to_set());
        lemma_sorted_strict_set_len(s);
        assert(u.subset_of(acc.union(s.to_set()))) by {
            assert(s.take(j + 1).to_set().subset_of(s.to_set()));
        }
        vstd::set_lib::lemma_len_subset(u, acc.union(s.to_set()));
        assert(u.len() <= MAX_PROTOCOLS_TO_EXPAND);

        if j + 1 >= s.len() {
            assert(encode_versions(s) == tok);
            lemma_split_if_whole(tok, eq_sep(','));
            let ts = split_at_char(tok, ',');
            assert(ts == seq![tok]);
            assert(ts[0] == tok);
            assert(ts.drop_first() =~~= Seq::<Seq<char>>::empty());
            assert(s.take(j + 1) =~= s);
            assert(u == acc.union(s.to_set()));
            assert(parse_version_tokens(Seq::<Seq<char>>::empty(), u) == Ok::<
                Set<u32>,
                ProtoverError,
            >(u));
            assert(parse_version_tokens(ts, acc) == Ok::<Set<u32>, ProtoverError>(u));
        } else {
            let rest = s.skip(j + 1);
            lemma_sorted_skip(s, j + 1);
            assert(encode_versions(s) == tok + seq![','] + encode_versions(rest));
            lemma_split_if_append(tok, ',', encode_versions(rest), eq_sep(','));
            assert(eq_sep(',')(','));
            lemma_split_if_whole(tok, eq_sep(','));
            let ts = split_at_char(encode_versions(s), ',');
            assert(ts == seq![tok] + split_at_char(encode_versions(rest), ','));
            assert(ts[0] == tok);
            assert(ts.drop_first() =~~= split_at_char(encode_versions(rest), ','));
            assert(forall|i: int| 0 <= i < rest.len() ==> #[trigger] rest[i] < u32::MAX) by {
                assert(forall|i: int| 0 <= i < rest.len() ==> rest[i] == s[i + j + 1]);
            }
            assert(u.union(rest.to_set()) =~= acc.union(s.to_set()));
            lemma_parse_encode_rec(rest, u);
            assert(parse_version_tokens(ts.drop_first(), u) == Ok::<Set<u32>, ProtoverError>(
                u.union(rest.to_set()),
            ));
            assert(parse_version_tokens(ts, acc) == parse_version_tokens(ts.drop_first(), u));
        }
    }
}

/// Decoding the canonical encoding of an ascending version sequence
/// recovers exactly its set of versions.
pub proof fn lemma_decode_encode(s: Seq<u32>)
    requires
        sorted_strict(s),
        s.len() <= MAX_PROTOCOLS_TO_EXPAND,
        forall|i: int| 0 <= i < s.len() ==> #[trigger] s[i] < u32::MAX,
    ensures
        parse_versions(encode_versions(s)) == Ok::<Set<u32>, ProtoverError>(s.to_set()),
{
    lemma_sorted_strict_set_len(s);
    assert(Set::<u32>::empty().union(s.to_set()) =~= s.to_set());
    lemma_parse_encode_rec(s, Set::<u32>::empty());
}

/// A canonical version string: the encoding of some bounded ascending
/// version sequence.
pub open spec fn is_canonical_versions(s: Seq<char>) -> bool {
    exists|q: Seq<u32>|
        sorted_strict(q) && q.len() <= MAX_PROTOCOLS_TO_EXPAND && (forall|i: int|
            0 <= i < q.len() ==> #[trigger] q[i] < u32::MAX) && s == #[trigger] encode_versions(q)
}

/// The canonicalization fixed point: a canonical version string decodes
/// successfully, and re-encoding the decoded set gives the very same
/// string back.
pub proof fn lemma_encode_decode_fixed_point(s: Seq<char>)
    requires
        is_canonical_versions(s),
    ensures
        parse_versions(s) is Ok,
        encode_version_set(parse_versions(s)->Ok_0) == s,
{
    let q = choose|q: Seq<u32>|
        sorted_strict(q) && q.len() <= MAX_PROTOCOLS_TO_EXPAND && (forall|i: int|
            0 <= i < q.len() ==> #[trigger] q[i] < u32::MAX) && s == #[trigger] encode_versions(q);
    lemma_decode_encode(q);
    lemma_sorted_strict_set_len(q);
    lemma_sorted_of(q.to_set());
    lemma_sorted_strict_unique(sorted_of(q.to_set()), q);
}

/// As [`lemma_find_first_at`], for use by the entry parsers.
pub(crate) proof fn lemma_find_first_at_pub(s: Seq<char>, c: char, i: int)
    requires
        0 <= i < s.len(),
        s[i] == c,
        forall|j: int| 0 <= j < i ==> s[j] != c,
    ensures
        find_first(s, c) == i,
{
    lemma_find_first_at(s, c, i);
}

/// As [`lemma_parse_range_token`], for use by the entry parsers.
pub(crate) proof fn lemma_parse_range_token_pub(lo: u32, hi: u32)
    requires
        lo < hi,
        hi < u32::MAX,
    ensures
        parse_version_token(dec_str(lo as int) + seq!['-'] + dec_str(hi as int)) == Ok::<
            Set<u32>,
            ProtoverError,
        >(version_range(lo, hi)),
{
    lemma_parse_range_token(lo, hi);
}

/// A run end in a suffix sits at the same distance from the suffix start.
proof fn lemma_run_end_shift(s: Seq<u32>, base: int, i: int)
    requires
        0 <= base <= i < s.len(),
    ensures
        run_end(s.skip(base), i - base) == run_end(s, i) - base,
    decreases s.len() - i,
{
    let t = s.skip(base);
    assert(t[i - base] == s[i]);
    if i + 1 < s.len() {
        assert(t[i + 1 - base] == s[i + 1]);
    }
    if i + 1 < s.len() && s[i] < u32::MAX && s[i + 1] == s[i] + 1 {
        lemma_run_end_shift(s, base, i + 1);
    }
}

} // verus!
