//! The threshold vote: merging many peers' raw advertisements into one
//! canonical consensus entry string.

use vstd::prelude::*;
use vstd::multiset::Multiset;
use crate::protoset::{
    encode_sorted_chars, encode_version_set, find_char, find_first, insert_sorted,
    lemma_find_first, lemma_sorted_of, lemma_sorted_strict_set_len, lemma_sorted_strict_unique,
    sorted_of, sorted_strict,
};
use crate::text::{
    chars_to_string, lemma_filter_push, lemma_join_with_push, lemma_lex_asymmetric,
    lemma_lex_connected, lemma_lex_transitive, lex_lt, join_with, split_at_char, split_char_vec,
    str_lex_lt, subvec, to_char_vec,
};
use crate::versions::{
    spec_from_version_string, Versions, hash_set_sorted_vec,
};

verus! {

// ---------------------------------------------------------------------
// The canonical rendering of a finite map of entries, smallest name
// first.
// ---------------------------------------------------------------------

/// The lexicographically least element of a set of names.
pub open spec fn lex_least(s: Set<Seq<char>>) -> Seq<char> {
    choose|n: Seq<char>|
        s.contains(n) && forall|o: Seq<char>| s.contains(o) && o != n ==> lex_lt(n, o)
}

/// A finite, non-empty set of names has a least element, and
/// [`lex_least`] denotes one.
pub proof fn lemma_lex_least(s: Set<Seq<char>>)
    requires
        s.finite(),
        s.len() > 0,
    ensures
        s.contains(lex_least(s)),
        forall|o: Seq<char>| s.contains(o) && o != lex_least(s) ==> lex_lt(lex_least(s), o),
    decreases s.len(),
{
    let x = s.choose();
    assert(s.contains(x));
    if s.len() == 1 {
        assert forall|o: Seq<char>| s.contains(o) && o != x implies lex_lt(x, o) by {
            assert(s.remove(x).contains(o));
            assert(s.remove(x).len() == 0);
            s.remove(x).lemma_len0_is_empty();
        }
        assert(exists|n: Seq<char>|
            s.contains(n) && forall|o: Seq<char>| s.contains(o) && o != n ==> lex_lt(n, o));
    } else {
        lemma_lex_least(s.remove(x));
        let m = lex_least(s.remove(x));
        lemma_lex_connected(x, m);
        if lex_lt(x, m) {
            assert forall|o: Seq<char>| s.contains(o) && o != x implies lex_lt(x, o) by {
                assert(s.remove(x).contains(o));
                if o != m {
                    lemma_lex_transitive(x, m, o);
                }
            }
            assert(exists|n: Seq<char>|
                s.contains(n) && forall|o: Seq<char>| s.contains(o) && o != n ==> lex_lt(n, o));
        } else {
            assert(x == m || lex_lt(m, x));
            assert forall|o: Seq<char>| s.contains(o) && o != m implies lex_lt(m, o) by {
                if o == x {
                    assert(lex_lt(m, x));
                } else {
                    assert(s.remove(x).contains(o));
                }
            }
            assert(s.contains(m));
            assert(exists|n: Seq<char>|
                s.contains(n) && forall|o: Seq<char>| s.contains(o) && o != n ==> lex_lt(n, o));
        }
    }
    let n = lex_least(s);
    assert(s.contains(n) && forall|o: Seq<char>| s.contains(o) && o != n ==> lex_lt(n, o));
}

/// The canonical rendering of a map from names to already-encoded
/// version strings: entries `name=text`, smallest name first, joined by
/// single spaces.
pub open spec fn spec_write_vote(m: Map<Seq<char>, Seq<char>>) -> Seq<char>
    decreases m.dom().len(),
    via spec_write_vote_decreases
{
    if !m.dom().finite() || m.dom().len() == 0 {
        Seq::<char>::empty()
    } else {
        let n = lex_least(m.dom());
        let entry = n + seq!['='] + m[n];
        let rest = m.remove(n);
        if rest.dom().len() == 0 {
            entry
        } else {
            entry + seq![' '] + spec_write_vote(rest)
        }
    }
}

#[via_fn]
proof fn spec_write_vote_decreases(m: Map<Seq<char>, Seq<char>>) {
    if m.dom().finite() && m.dom().len() > 0 {
        lemma_lex_least(m.dom());
        assert(m.remove(lex_least(m.dom())).dom() =~= m.dom().remove(lex_least(m.dom())));
    }
}

/// The map a list of name/text pairs denotes; a repeated name keeps its
/// last pair.
pub open spec fn pairs_to_map(s: Seq<(Seq<char>, Seq<char>)>) -> Map<Seq<char>, Seq<char>>
    decreases s.len(),
{
    if s.len() == 0 {
        Map::<Seq<char>, Seq<char>>::empty()
    } else {
        pairs_to_map(s.drop_last()).insert(s.last().0, s.last().1)
    }
}

/// On a list with unique names the denoted map holds exactly the listed
/// names, each with its listed text.
pub proof fn lemma_pairs_to_map(s: Seq<(Seq<char>, Seq<char>)>)
    requires
        forall|i: int, j: int|
            0 <= i < j < s.len() ==> (#[trigger] s[i]).0 != (#[trigger] s[j]).0,
    ensures
        pairs_to_map(s).dom().finite(),
        pairs_to_map(s).dom().len() == s.len(),
        forall|n: Seq<char>|
            #[trigger] pairs_to_map(s).contains_key(n) <==> exists|i: int|
                0 <= i < s.len() && (#[trigger] s[i]).0 == n,
        forall|i: int| 0 <= i < s.len() ==> pairs_to_map(s)[(#[trigger] s[i]).0] == s[i].1,
    decreases s.len(),
{
    if s.len() == 0 {
        assert(pairs_to_map(s).dom() =~= Set::<Seq<char>>::empty());
    } else {
        let t = s.drop_last();
        assert(forall|i: int| 0 <= i < t.len() ==> #[trigger] t[i] == s[i]);
        lemma_pairs_to_map(t);
        let m = pairs_to_map(s);
        assert(m == pairs_to_map(t).insert(s.last().0, s.last().1));
        assert(!pairs_to_map(t).contains_key(s.last().0)) by {
            if pairs_to_map(t).contains_key(s.last().0) {
                let i = choose|i: int| 0 <= i < t.len() && (#[trigger] t[i]).0 == s.last().0;
                assert(s[i].0 == s[s.len() - 1].0);
            }
        }
        assert(m.dom() =~= pairs_to_map(t).dom().insert(s.last().0));
        assert forall|n: Seq<char>| #[trigger] m.contains_key(n) implies exists|i: int|
            0 <= i < s.len() && (#[trigger] s[i]).0 == n by {
            if n == s.last().0 {
                assert(s[s.len() - 1].0 == n);
            } else {
                let i = choose|i: int| 0 <= i < t.len() && (#[trigger] t[i]).0 == n;
                assert(s[i].0 == n);
            }
        }
        assert forall|n: Seq<char>| (exists|i: int|
            0 <= i < s.len() && (#[trigger] s[i]).0 == n) implies #[trigger] m.contains_key(n) by {
            let i = choose|i: int| 0 <= i < s.len() && (#[trigger] s[i]).0 == n;
            if i < s.len() - 1 {
                assert(t[i] == s[i]);
                assert(t[i].0 == n);
                assert(pairs_to_map(t).contains_key(n));
            }
        }
        assert forall|i: int| 0 <= i < s.len() implies m[(#[trigger] s[i]).0] == s[i].1 by {
            if i < s.len() - 1 {
                assert(s[i].0 != s.last().0);
                assert(t[i] == s[i]);
                assert(pairs_to_map(t)[t[i].0] == t[i].1);
            }
        }
    }
}

/// The rendered entries of a pair list, in order: `name=text`.
pub open spec fn entries_of(s: Seq<(Seq<char>, Seq<char>)>) -> Seq<Seq<char>> {
    s.map_values(|p: (Seq<char>, Seq<char>)| p.0 + seq!['='] + p.1)
}

/// Strictly ascending names, lexicographically.
pub open spec fn lex_sorted(s: Seq<(Seq<char>, Seq<char>)>) -> bool {
    forall|i: int, j: int|
        0 <= i < j < s.len() ==> lex_lt((#[trigger] s[i]).0, (#[trigger] s[j]).0)
}

/// Rendering the map of a name-sorted pair list lists the pairs in
/// their given order.
proof fn lemma_write_vote_sorted(s: Seq<(Seq<char>, Seq<char>)>)
    requires
        lex_sorted(s),
    ensures
        spec_write_vote(pairs_to_map(s)) == join_with(entries_of(s), " "@),
    decreases s.len(),
{
    assert(forall|i: int, j: int|
        0 <= i < j < s.len() ==> (#[trigger] s[i]).0 != (#[trigger] s[j]).0) by {
        assert forall|i: int, j: int|
            0 <= i < j < s.len() implies (#[trigger] s[i]).0 != (#[trigger] s[j]).0 by {
            lemma_lex_asymmetric(s[i].0, s[j].0);
        }
    }
    lemma_pairs_to_map(s);
    let m = pairs_to_map(s);
    let entries = entries_of(s);
    if s.len() == 0 {
        assert(m.dom().len() == 0);
        assert(spec_write_vote(m) == Seq::<char>::empty());
    } else {
        lemma_lex_least(m.dom());
        // The head of the sorted list is the least name.
        assert(s[0].0 == lex_least(m.dom())) by {
            assert(m.contains_key(s[0].0));
            let n = lex_least(m.dom());
            if n != s[0].0 {
                let i = choose|i: int| 0 <= i < s.len() && (#[trigger] s[i]).0 == n;
                if i > 0 {
                    assert(lex_lt(s[0].0, s[i].0));
                    assert(lex_lt(n, s[0].0));
                    lemma_lex_transitive(n, s[0].0, n);
                    lemma_lex_asymmetric(n, n);
                }
            }
        }
        let t = s.drop_first();
        assert(forall|i: int| 0 <= i < t.len() ==> #[trigger] t[i] == s[i + 1]);
        assert(lex_sorted(t));
        lemma_write_vote_sorted(t);
        assert(forall|i: int, j: int|
            0 <= i < j < t.len() ==> (#[trigger] t[i]).0 != (#[trigger] t[j]).0) by {
            assert forall|i: int, j: int|
                0 <= i < j < t.len() implies (#[trigger] t[i]).0 != (#[trigger] t[j]).0 by {
                lemma_lex_asymmetric(t[i].0, t[j].0);
            }
        }
        lemma_pairs_to_map(t);
        assert(m.remove(s[0].0) =~= pairs_to_map(t)) by {
            assert forall|n: Seq<char>| #[trigger]
                m.remove(s[0].0).contains_key(n) implies pairs_to_map(t).contains_key(n)
                && m.remove(s[0].0)[n] == pairs_to_map(t)[n] by {
                let i = choose|i: int| 0 <= i < s.len() && (#[trigger] s[i]).0 == n;
                assert(i != 0);
                assert(t[i - 1] == s[i]);
                assert(t[i - 1].0 == n);
                assert(pairs_to_map(t)[t[i - 1].0] == t[i - 1].1);
                assert(m[s[i].0] == s[i].1);
            }
            assert forall|n: Seq<char>| #[trigger]
                pairs_to_map(t).contains_key(n) implies m.remove(s[0].0).contains_key(n) by {
                let i = choose|i: int| 0 <= i < t.len() && (#[trigger] t[i]).0 == n;
                assert(s[i + 1].0 == n);
                assert(m.contains_key(n));
                assert(lex_lt(s[0].0, s[i + 1].0));
                lemma_lex_asymmetric(s[0].0, s[i + 1].0);
            }
        }
        assert(m.dom().len() == s.len());
        assert(spec_write_vote(m) == if pairs_to_map(t).dom().len() == 0 {
            s[0].0 + seq!['='] + m[s[0].0]
        } else {
            s[0].0 + seq!['='] + m[s[0].0] + seq![' '] + spec_write_vote(pairs_to_map(t))
        });
        assert(m[s[0].0] == s[0].1);
        assert(entries.len() == s.len());
        assert(entries[0] == s[0].0 + seq!['='] + s[0].1);
        assert(entries.drop_first() =~~= entries_of(t)) by {
            assert(forall|i: int|
                0 <= i < t.len() ==> #[trigger] entries.drop_first()[i] == entries[i + 1]);
        }
        if t.len() == 0 {
            assert(join_with(entries, " "@) == entries[0]);
        } else {
            assert(join_with(entries, " "@) == entries[0] + " "@ + join_with(
                entries.drop_first(),
                " "@,
            ));
            reveal_strlit(" ");
            assert(" "@ =~= seq![' ']);
        }
    }
}


/// Insert a pair into a name-sorted pair list, keeping it sorted.
fn insert_pair_sorted(v: &mut Vec<(String, String)>, p: (String, String))
    requires
        lex_sorted(old(v).deep_view()),
        forall|i: int|
            0 <= i < old(v).deep_view().len() ==> (#[trigger] old(v).deep_view()[i]).0 != p.0@,
    ensures
        lex_sorted(final(v).deep_view()),
        pairs_to_map(final(v).deep_view()) == pairs_to_map(old(v).deep_view()).insert(p.0@, p.1@),
        final(v).deep_view().len() == old(v).deep_view().len() + 1,
        forall|n: Seq<char>|
            pairs_has_name(final(v).deep_view(), n) <==> pairs_has_name(old(v).deep_view(), n)
                || n == p.0@,
{
    let ghost d = old(v).deep_view();
    let mut j: usize = 0;
    while j < v.len() && str_lex_lt(v[j].0.as_str(), p.0.as_str())
        invariant
            v@ == old(v)@,
            j <= d.len(),
            d == old(v).deep_view(),
            forall|k: int| 0 <= k < j ==> lex_lt((#[trigger] d[k]).0, p.0@),
        decreases d.len() - j,
    {
        proof {
            assert(d[j as int] == (v@[j as int].0@, v@[j as int].1@));
        }
        j = j + 1;
    }
    proof {
        assert(forall|k: int| 0 <= k < v@.len() ==> #[trigger] d[k] == (v@[k].0@, v@[k].1@));
        if j < d.len() {
            assert(!lex_lt(d[j as int].0, p.0@));
            assert(d[j as int].0 != p.0@);
            lemma_lex_connected(d[j as int].0, p.0@);
            assert(lex_lt(p.0@, d[j as int].0));
        }
    }
    let ghost p0 = p.0@;
    let ghost p1 = p.1@;
    v.insert(j, p);
    proof {
        let e = v.deep_view();
        assert(e.len() == d.len() + 1);
        assert(forall|k: int| 0 <= k < v@.len() ==> #[trigger] e[k] == (v@[k].0@, v@[k].1@));
        assert(forall|k: int| 0 <= k < j ==> e[k] == d[k]);
        assert(forall|k: int| j < k < e.len() ==> e[k] == d[k - 1]);
        assert(e[j as int] == (p0, p1));
        assert(lex_sorted(e)) by {
            assert forall|a: int, b: int|
                0 <= a < b < e.len() implies lex_lt((#[trigger] e[a]).0, (#[trigger] e[b]).0) by {
                if a == j {
                    if b - 1 > j {
                        assert(lex_lt(d[j as int].0, d[b - 1].0));
                        lemma_lex_transitive(p0, d[j as int].0, d[b - 1].0);
                    }
                    assert(lex_lt(p0, d[b - 1].0));
                } else if b == j {
                    assert(lex_lt(d[a].0, p0));
                } else if a < j && b > j {
                    assert(lex_lt(d[a].0, d[b - 1].0));
                }
            }
        }
        assert(forall|a: int, b: int|
            0 <= a < b < e.len() ==> (#[trigger] e[a]).0 != (#[trigger] e[b]).0) by {
            assert forall|a: int, b: int|
                0 <= a < b < e.len() implies (#[trigger] e[a]).0 != (#[trigger] e[b]).0 by {
                lemma_lex_asymmetric(e[a].0, e[b].0);
            }
        }
        assert(forall|a: int, b: int|
            0 <= a < b < d.len() ==> (#[trigger] d[a]).0 != (#[trigger] d[b]).0) by {
            assert forall|a: int, b: int|
                0 <= a < b < d.len() implies (#[trigger] d[a]).0 != (#[trigger] d[b]).0 by {
                assert(lex_lt(d[a].0, d[b].0));
                lemma_lex_asymmetric(d[a].0, d[b].0);
            }
        }
        lemma_pairs_to_map(d);
        lemma_pairs_to_map(e);
        assert(pairs_to_map(e) =~= pairs_to_map(d).insert(p0, p1)) by {
            assert forall|n: Seq<char>| #[trigger]
                pairs_to_map(e).contains_key(n) implies pairs_to_map(d).insert(p0, p1).contains_key(
                n,
            ) && pairs_to_map(e)[n] == pairs_to_map(d).insert(p0, p1)[n] by {
                let k = choose|k: int| 0 <= k < e.len() && (#[trigger] e[k]).0 == n;
                if k != j {
                    let ghost ko = if k < j { k } else { k - 1 };
                    assert(d[ko] == e[k]);
                    assert(d[ko].0 == n);
                    assert(pairs_to_map(d)[d[ko].0] == d[ko].1);
                    assert(n != p0);
                }
            }
            assert forall|n: Seq<char>| #[trigger]
                pairs_to_map(d).insert(p0, p1).contains_key(n) implies pairs_to_map(
                e,
            ).contains_key(n) by {
                if n == p0 {
                    assert(e[j as int].0 == n);
                } else {
                    let k = choose|k: int| 0 <= k < d.len() && (#[trigger] d[k]).0 == n;
                    if k < j {
                        assert(e[k].0 == n);
                    } else {
                        assert(e[k + 1].0 == n);
                    }
                }
            }
        }
        assert forall|n: Seq<char>|
            pairs_has_name(e, n) <==> pairs_has_name(d, n) || n == p0 by {
            if pairs_has_name(e, n) {
                assert(pairs_to_map(e).contains_key(n));
            }
            if pairs_has_name(d, n) {
                assert(pairs_to_map(d).contains_key(n));
                assert(pairs_to_map(e).contains_key(n));
            }
            if n == p0 {
                assert(e[j as int].0 == n);
            }
        }
    }
}

/// Whether some pair of the list carries the name `n`.
pub open spec fn pairs_has_name(s: Seq<(Seq<char>, Seq<char>)>, n: Seq<char>) -> bool {
    exists|i: int| 0 <= i < s.len() && (#[trigger] s[i]).0 == n
}

/// Render a finished tally as one canonical string: entries sorted by
/// name, each `name=versions`, joined by single spaces.
pub fn write_vote_to_string(vote: &Vec<(String, String)>) -> (r: String)
    requires
        forall|i: int, j: int|
            0 <= i < j < vote.deep_view().len() ==> (#[trigger] vote.deep_view()[i]).0 != (
            #[trigger] vote.deep_view()[j]).0,
    ensures
        r@ == spec_write_vote(pairs_to_map(vote.deep_view())),
{
    let ghost d = vote.deep_view();
    let mut sorted: Vec<(String, String)> = Vec::new();
    let mut i: usize = 0;
    proof {
        assert(forall|k: int| 0 <= k < vote@.len() ==> #[trigger] d[k] == (vote@[k].0@, vote@[k].1@));
        assert(sorted.deep_view() =~~= Seq::<(Seq<char>, Seq<char>)>::empty());
        assert(d.take(0) =~~= Seq::<(Seq<char>, Seq<char>)>::empty());
        assert(pairs_to_map(sorted.deep_view()) == pairs_to_map(d.take(0)));
    }
    while i < vote.len()
        invariant
            d == vote.deep_view(),
            forall|k: int| 0 <= k < d.len() ==> #[trigger] d[k] == (vote@[k].0@, vote@[k].1@),
            forall|a: int, b: int|
                0 <= a < b < d.len() ==> (#[trigger] d[a]).0 != (#[trigger] d[b]).0,
            i <= d.len(),
            lex_sorted(sorted.deep_view()),
            pairs_to_map(sorted.deep_view()) == pairs_to_map(d.take(i as int)),
            forall|n: Seq<char>|
                pairs_has_name(sorted.deep_view(), n) <==> pairs_has_name(d.take(i as int), n),
        decreases d.len() - i,
    {
        let name = vote[i].0.clone();
        let val = vote[i].1.clone();
        proof {
            assert(name@ == d[i as int].0);
            assert(val@ == d[i as int].1);
            assert forall|k: int|
                0 <= k < sorted.deep_view().len() implies (#[trigger] sorted.deep_view()[k]).0
                != name@ by {
                assert(pairs_has_name(sorted.deep_view(), sorted.deep_view()[k].0));
                let ko = choose|ko: int|
                    0 <= ko < i && (#[trigger] d.take(i as int)[ko]).0 == sorted.deep_view()[k].0;
                assert(d[ko].0 == sorted.deep_view()[k].0);
            }
        }
        let ghost before = sorted.deep_view();
        insert_pair_sorted(&mut sorted, (name, val));
        proof {
            assert(d.take(i + 1) =~~= d.take(i as int).push(d[i as int]));
            assert(pairs_to_map(d.take(i + 1)) == pairs_to_map(d.take(i as int)).insert(
                d[i as int].0,
                d[i as int].1,
            )) by {
                assert(d.take(i + 1).drop_last() =~~= d.take(i as int));
                assert(d.take(i + 1).last() == d[i as int]);
            }
            assert forall|n: Seq<char>|
                pairs_has_name(sorted.deep_view(), n) <==> pairs_has_name(d.take(i + 1), n) by {
                if pairs_has_name(d.take(i + 1), n) {
                    let k = choose|k: int|
                        0 <= k < i + 1 && (#[trigger] d.take(i + 1)[k]).0 == n;
                    if k < i {
                        assert(d.take(i as int)[k].0 == n);
                        assert(pairs_has_name(d.take(i as int), n));
                    }
                }
                if pairs_has_name(d.take(i as int), n) {
                    let k = choose|k: int|
                        0 <= k < i && (#[trigger] d.take(i as int)[k]).0 == n;
                    assert(d.take(i + 1)[k].0 == n);
                }
                if n == d[i as int].0 {
                    assert(d.take(i + 1)[i as int].0 == n);
                }
            }
        }
        i = i + 1;
    }
    proof {
        assert(d.take(i as int) =~~= d);
        lemma_write_vote_sorted(sorted.deep_view());
    }
    // Emit the sorted entries.
    let ghost sd = sorted.deep_view();
    let mut out: Vec<char> = Vec::new();
    let mut k: usize = 0;
    proof {
        assert(entries_of(sd).take(0) =~~= Seq::<Seq<char>>::empty());
        assert(out@ == join_with(entries_of(sd).take(0), " "@));
    }
    while k < sorted.len()
        invariant
            sd == sorted.deep_view(),
            forall|j: int| 0 <= j < sd.len() ==> #[trigger] sd[j] == (sorted@[j].0@, sorted@[j].1@),
            k <= sd.len(),
            out@ == join_with(entries_of(sd).take(k as int), " "@),
        decreases sd.len() - k,
    {
        proof {
            lemma_join_with_push(entries_of(sd).take(k as int), " "@, entries_of(sd)[k as int]);
            assert(entries_of(sd).take(k + 1) =~~= entries_of(sd).take(k as int).push(
                entries_of(sd)[k as int],
            ));
            reveal_strlit(" ");
        }
        if k > 0 {
            out.push(' ');
            proof {
                assert(out@ =~= join_with(entries_of(sd).take(k as int), " "@) + " "@);
            }
        }
        let ghost base = out@;
        let name_chars = to_char_vec(sorted[k].0.as_str());
        let mut m: usize = 0;
        while m < name_chars.len()
            invariant
                m <= name_chars@.len(),
                out@ == base + name_chars@.take(m as int),
            decreases name_chars@.len() - m,
        {
            out.push(name_chars[m]);
            m = m + 1;
            proof {
                assert(out@ =~= base + name_chars@.take(m as int));
            }
        }
        out.push('=');
        let ghost base2 = out@;
        let val_chars = to_char_vec(sorted[k].1.as_str());
        let mut m2: usize = 0;
        while m2 < val_chars.len()
            invariant
                m2 <= val_chars@.len(),
                out@ == base2 + val_chars@.take(m2 as int),
            decreases val_chars@.len() - m2,
        {
            out.push(val_chars[m2]);
            m2 = m2 + 1;
            proof {
                assert(out@ =~= base2 + val_chars@.take(m2 as int));
            }
        }
        proof {
            assert(name_chars@.take(name_chars@.len() as int) =~= name_chars@);
            assert(val_chars@.take(val_chars@.len() as int) =~= val_chars@);
            assert(entries_of(sd)[k as int] == sd[k as int].0 + seq!['='] + sd[k as int].1);
            assert(out@ =~= base + sd[k as int].0 + seq!['='] + sd[k as int].1);
            assert(out@ =~= base + entries_of(sd)[k as int]);
            if k == 0 {
                assert(join_with(entries_of(sd).take(0), " "@) == Seq::<char>::empty());
                assert(base =~= Seq::<char>::empty());
                assert(out@ =~= entries_of(sd)[0]);
            }
        }
        k = k + 1;
    }
    proof {
        assert(entries_of(sd).take(k as int) =~~= entries_of(sd));
    }
    chars_to_string(&out)
}


// ---------------------------------------------------------------------
// Permissive ballot parsing: names are kept as raw text.
// ---------------------------------------------------------------------

/// What one `name=versions` ballot token denotes, with the name kept
/// raw: the pair, or the message the token earns.
pub open spec fn parse_unvalidated_token(t: Seq<char>) -> Result<(Seq<char>, Set<u32>), Seq<char>> {
    let d = find_first(t, '=');
    if d <= 0 {
        Err("invalid protover entry"@)
    } else {
        match spec_from_version_string(t.subrange(d + 1, t.len() as int)) {
            Err(m) => Err(m),
            Ok(vs) => Ok((t.subrange(0, d), vs)),
        }
    }
}

/// Fold ballot tokens into a map; a repeated name keeps its last entry.
pub open spec fn parse_unvalidated_tokens(
    ts: Seq<Seq<char>>,
    acc: Map<Seq<char>, Set<u32>>,
) -> Result<Map<Seq<char>, Set<u32>>, Seq<char>>
    decreases ts.len(),
{
    if ts.len() == 0 {
        Ok(acc)
    } else {
        match parse_unvalidated_token(ts[0]) {
            Err(m) => Err(m),
            Ok(nv) => parse_unvalidated_tokens(ts.drop_first(), acc.insert(nv.0, nv.1)),
        }
    }
}

/// What permissive parsing of a whole ballot denotes.
pub open spec fn parse_unvalidated(s: Seq<char>) -> Result<Map<Seq<char>, Set<u32>>, Seq<char>> {
    parse_unvalidated_tokens(split_at_char(s, ' '), Map::<Seq<char>, Set<u32>>::empty())
}

/// The map a list of name/version-set pairs denotes.
pub open spec fn vote_pairs_map(s: Seq<(Seq<char>, Set<u32>)>) -> Map<Seq<char>, Set<u32>>
    decreases s.len(),
{
    if s.len() == 0 {
        Map::<Seq<char>, Set<u32>>::empty()
    } else {
        vote_pairs_map(s.drop_last()).insert(s.last().0, s.last().1)
    }
}

/// The name/version-set view of a parsed ballot's pairs.
pub open spec fn ballot_pairs_view(v: Seq<(String, Versions)>) -> Seq<(Seq<char>, Set<u32>)> {
    v.map_values(|p: (String, Versions)| (p.0@, p.1.0@))
}

/// On a list with unique names the denoted map holds exactly the listed
/// names, each with its listed set.
pub proof fn lemma_vote_pairs_map(s: Seq<(Seq<char>, Set<u32>)>)
    requires
        forall|i: int, j: int|
            0 <= i < j < s.len() ==> (#[trigger] s[i]).0 != (#[trigger] s[j]).0,
    ensures
        forall|n: Seq<char>|
            #[trigger] vote_pairs_map(s).contains_key(n) <==> exists|i: int|
                0 <= i < s.len() && (#[trigger] s[i]).0 == n,
        forall|i: int| 0 <= i < s.len() ==> vote_pairs_map(s)[(#[trigger] s[i]).0] == s[i].1,
    decreases s.len(),
{
    if s.len() > 0 {
        let t = s.drop_last();
        assert(forall|i: int| 0 <= i < t.len() ==> #[trigger] t[i] == s[i]);
        lemma_vote_pairs_map(t);
        let m = vote_pairs_map(s);
        assert(m == vote_pairs_map(t).insert(s.last().0, s.last().1));
        assert forall|n: Seq<char>| #[trigger] m.contains_key(n) implies exists|i: int|
            0 <= i < s.len() && (#[trigger] s[i]).0 == n by {
            if n == s.last().0 {
                assert(s[s.len() - 1].0 == n);
            } else {
                let i = choose|i: int| 0 <= i < t.len() && (#[trigger] t[i]).0 == n;
                assert(s[i].0 == n);
            }
        }
        assert forall|n: Seq<char>| (exists|i: int|
            0 <= i < s.len() && (#[trigger] s[i]).0 == n) implies #[trigger] m.contains_key(n) by {
            let i = choose|i: int| 0 <= i < s.len() && (#[trigger] s[i]).0 == n;
            if i < s.len() - 1 {
                assert(t[i] == s[i]);
                assert(t[i].0 == n);
                assert(vote_pairs_map(t).contains_key(n));
            }
        }
        assert forall|i: int| 0 <= i < s.len() implies m[(#[trigger] s[i]).0] == s[i].1 by {
            if i < s.len() - 1 {
                assert(s[i].0 != s.last().0);
                assert(t[i] == s[i]);
                assert(vote_pairs_map(t)[t[i].0] == t[i].1);
            }
        }
    }
}

/// Dropping the pair at `i` removes exactly its name.
proof fn lemma_vote_pairs_map_remove(before: Seq<(Seq<char>, Set<u32>)>, i: int, n: Seq<char>)
    requires
        forall|p: int, q: int|
            0 <= p < q < before.len() ==> (#[trigger] before[p]).0 != (#[trigger] before[q]).0,
        0 <= i < before.len(),
        before[i].0 == n,
    ensures
        vote_pairs_map(before.remove(i)) == vote_pairs_map(before).remove(n),
{
    let after = before.remove(i);
    assert(forall|j: int| 0 <= j < i ==> after[j] == before[j]);
    assert(forall|j: int| i <= j < after.len() ==> after[j] == before[j + 1]);
    assert(forall|p: int, q: int|
        0 <= p < q < after.len() ==> (#[trigger] after[p]).0 != (#[trigger] after[q]).0);
    lemma_vote_pairs_map(before);
    lemma_vote_pairs_map(after);
    assert(vote_pairs_map(after) =~= vote_pairs_map(before).remove(n)) by {
        assert forall|p: Seq<char>| #[trigger]
            vote_pairs_map(after).contains_key(p) implies vote_pairs_map(before).remove(
            n,
        ).contains_key(p) && vote_pairs_map(after)[p] == vote_pairs_map(before).remove(n)[p] by {
            let j = choose|j: int| 0 <= j < after.len() && (#[trigger] after[j]).0 == p;
            if j < i {
                assert(before[j].0 == p);
            } else {
                assert(before[j + 1].0 == p);
            }
        }
        assert forall|p: Seq<char>| #[trigger]
            vote_pairs_map(before).remove(n).contains_key(p) implies vote_pairs_map(
            after,
        ).contains_key(p) by {
            let j = choose|j: int| 0 <= j < before.len() && (#[trigger] before[j]).0 == p;
            assert(j != i);
            if j < i {
                assert(after[j].0 == p);
            } else {
                assert(after[j - 1].0 == p);
            }
        }
    }
}

/// The position of the pair carrying `name`, if one does.
fn find_name_position(pairs: &Vec<(String, Versions)>, name: &String) -> (r: Option<usize>)
    ensures
        match r {
            Some(i) => i < pairs@.len() && pairs@[i as int].0@ == name@,
            None => forall|j: int| 0 <= j < pairs@.len() ==> (#[trigger] pairs@[j]).0@ != name@,
        },
{
    let mut i: usize = 0;
    while i < pairs.len()
        invariant
            i <= pairs@.len(),
            forall|j: int| 0 <= j < i ==> (#[trigger] pairs@[j]).0@ != name@,
        decreases pairs@.len() - i,
    {
        if pairs[i].0 == *name {
            return Some(i);
        }
        i = i + 1;
    }
    None
}

/// Record `vs` for `name` in a ballot's pair list, replacing any earlier
/// pair with the same name.
fn upsert_ballot_pair(pairs: &mut Vec<(String, Versions)>, name: String, vs: Versions)
    requires
        forall|i: int, j: int|
            0 <= i < j < old(pairs)@.len() ==> (#[trigger] old(pairs)@[i]).0@ != (#[trigger] old(
                pairs,
            )@[j]).0@,
    ensures
        forall|i: int, j: int|
            0 <= i < j < final(pairs)@.len() ==> (#[trigger] final(pairs)@[i]).0@ != (
            #[trigger] final(pairs)@[j]).0@,
        vote_pairs_map(ballot_pairs_view(final(pairs)@)) == vote_pairs_map(
            ballot_pairs_view(old(pairs)@),
        ).insert(name@, vs.0@),
{
    let ghost d = ballot_pairs_view(pairs@);
    proof {
        assert(forall|k: int|
            0 <= k < pairs@.len() ==> #[trigger] d[k] == (pairs@[k].0@, pairs@[k].1.0@));
        assert(forall|i: int, j: int|
            0 <= i < j < d.len() ==> (#[trigger] d[i]).0 != (#[trigger] d[j]).0);
    }
    match find_name_position(pairs, &name) {
        Some(i) => {
            pairs.remove(i);
            proof {
                assert(ballot_pairs_view(pairs@) =~~= d.remove(i as int)) by {
                    assert(forall|k: int|
                        0 <= k < pairs@.len() ==> #[trigger] ballot_pairs_view(pairs@)[k] == (
                        pairs@[k].0@,
                        pairs@[k].1.0@,
                        ));
                }
                lemma_vote_pairs_map_remove(d, i as int, name@);
            }
        },
        None => {
            proof {
                lemma_vote_pairs_map(d);
                assert(!vote_pairs_map(d).contains_key(name@)) by {
                    if vote_pairs_map(d).contains_key(name@) {
                        let j = choose|j: int| 0 <= j < d.len() && (#[trigger] d[j]).0 == name@;
                        assert(pairs@[j].0@ == name@);
                    }
                }
                assert(vote_pairs_map(d) =~= vote_pairs_map(d).remove(name@));
            }
        },
    }
    let ghost mid = ballot_pairs_view(pairs@);
    proof {
        assert(forall|k: int|
            0 <= k < mid.len() ==> #[trigger] mid[k] == (pairs@[k].0@, pairs@[k].1.0@));
        assert(vote_pairs_map(mid) == vote_pairs_map(d).remove(name@));
        assert(forall|i2: int, j2: int|
            0 <= i2 < j2 < mid.len() ==> (#[trigger] mid[i2]).0 != (#[trigger] mid[j2]).0);
        lemma_vote_pairs_map(mid);
        assert forall|j: int| 0 <= j < mid.len() implies (#[trigger] mid[j]).0 != name@ by {
            if mid[j].0 == name@ {
                assert(vote_pairs_map(mid).contains_key(name@));
            }
        }
    }
    let ghost nv = name@;
    pairs.push((name, vs));
    proof {
        let e = ballot_pairs_view(pairs@);
        assert(forall|k: int|
            0 <= k < e.len() ==> #[trigger] e[k] == (pairs@[k].0@, pairs@[k].1.0@));
        assert(e.drop_last() =~~= mid);
        assert(e.last() == (nv, vs.0@));
        assert(vote_pairs_map(e) == vote_pairs_map(mid).insert(nv, vs.0@));
        assert(vote_pairs_map(d).remove(nv).insert(nv, vs.0@) =~= vote_pairs_map(d).insert(
            nv,
            vs.0@,
        ));
        assert(forall|i2: int, j2: int|
            0 <= i2 < j2 < pairs@.len() ==> (#[trigger] pairs@[i2]).0@ != (
            #[trigger] pairs@[j2]).0@) by {
            assert(forall|k: int| 0 <= k < mid.len() ==> (#[trigger] pairs@[k].0@) == mid[k].0);
            assert(pairs@[pairs@.len() - 1].0@ == nv);
        }
    }
}

/// Parse a whole ballot permissively: space-separated `name=versions`
/// tokens whose names are kept raw; a repeated name keeps its last
/// entry.  The returned pairs carry unique names.
pub fn parse_protocols_from_string_with_no_validation(protocol_string: &str) -> (r: Result<
    Vec<(String, Versions)>,
    &'static str,
>)
    ensures
        match r {
            Ok(v) => (forall|i: int, j: int|
                0 <= i < j < v@.len() ==> (#[trigger] v@[i]).0@ != (#[trigger] v@[j]).0@)
                && parse_unvalidated(protocol_string@) == Ok::<Map<Seq<char>, Set<u32>>, Seq<char>>(
                vote_pairs_map(ballot_pairs_view(v@)),
            ),
            Err(m) => parse_unvalidated(protocol_string@) == Err::<
                Map<Seq<char>, Set<u32>>,
                Seq<char>,
            >(m@),
        },
{
    let chars = to_char_vec(protocol_string);
    let tokens = split_char_vec(&chars, ' ');
    let ghost ts = split_at_char(protocol_string@, ' ');
    let mut pairs: Vec<(String, Versions)> = Vec::new();
    let mut ti: usize = 0;
    proof {
        assert(ts.skip(0) =~~= ts);
        assert(ballot_pairs_view(pairs@) =~~= Seq::<(Seq<char>, Set<u32>)>::empty());
        assert(vote_pairs_map(ballot_pairs_view(pairs@)) == Map::<Seq<char>, Set<u32>>::empty());
    }
    while ti < tokens.len()
        invariant
            tokens.deep_view() == ts,
            ts == split_at_char(protocol_string@, ' '),
            ti <= ts.len(),
            forall|i: int, j: int|
                0 <= i < j < pairs@.len() ==> (#[trigger] pairs@[i]).0@ != (
                #[trigger] pairs@[j]).0@,
            parse_unvalidated(protocol_string@) == parse_unvalidated_tokens(
                ts.skip(ti as int),
                vote_pairs_map(ballot_pairs_view(pairs@)),
            ),
        decreases ts.len() - ti,
    {
        let ghost rest = ts.skip(ti as int);
        proof {
            assert(rest[0] == ts[ti as int]);
            assert(rest.drop_first() =~~= ts.skip(ti + 1));
        }
        let t: &Vec<char> = &tokens[ti];
        proof {
            assert(t@ == tokens.deep_view()[ti as int]);
        }
        let d = match find_char(t, '=') {
            None => {
                return Err("invalid protover entry");
            },
            Some(d) => d,
        };
        if d == 0 {
            return Err("invalid protover entry");
        }
        let n = t.len();
        proof {
            lemma_find_first(t@, '=');
            assert(d < n);
        }
        let vers_chars = subvec(t, d + 1, n);
        let vers_string = chars_to_string(&vers_chars);
        let vs = match Versions::from_version_string(vers_string.as_str()) {
            Ok(vs) => vs,
            Err(m) => {
                return Err(m);
            },
        };
        let name_chars = subvec(t, 0, d);
        let name = chars_to_string(&name_chars);
        upsert_ballot_pair(&mut pairs, name, vs);
        ti = ti + 1;
    }
    proof {
        assert(ts.skip(ti as int) =~~= Seq::<Seq<char>>::empty());
    }
    Ok(pairs)
}


// ---------------------------------------------------------------------
// The tally and its meaning.
// ---------------------------------------------------------------------

/// Whether a ballot parses and asserts support for version `v` of the
/// protocol named `name`.
pub open spec fn ballot_votes(b: Seq<char>, name: Seq<char>, v: u32) -> bool {
    match parse_unvalidated(b) {
        Err(_) => false,
        Ok(m) => m.contains_key(name) && m[name].contains(v),
    }
}

/// The ballots asserting support for `(name, v)`.
pub open spec fn votes_pred(name: Seq<char>, v: u32) -> spec_fn(Seq<char>) -> bool {
    |b: Seq<char>| ballot_votes(b, name, v)
}

/// The parsed ballot maps asserting support for `(name, v)`.
pub open spec fn map_votes_pred(name: Seq<char>, v: u32) -> spec_fn(Map<Seq<char>, Set<u32>>) -> bool {
    |m: Map<Seq<char>, Set<u32>>| m.contains_key(name) && m[name].contains(v)
}

/// How many ballots of the multiset assert support for `(name, v)`.
/// A ballot listing a version twice still counts once: each ballot
/// contributes through its parsed set.
pub open spec fn spec_tally(ms: Multiset<Seq<char>>, name: Seq<char>, v: u32) -> nat {
    ms.filter(votes_pred(name, v)).len()
}

/// The count a threshold argument denotes: negative thresholds wrap to
/// huge counts that nothing reaches, as the machine comparison does.
pub open spec fn spec_threshold(t: i32) -> int {
    if t >= 0 {
        t as int
    } else {
        t + 0x1_0000_0000_0000_0000
    }
}

/// The versions of `name` that appear in some ballot and reach the
/// threshold.
pub open spec fn spec_winners(ms: Multiset<Seq<char>>, name: Seq<char>, t: i32) -> Set<u32> {
    Set::new(
        |v: u32| spec_tally(ms, name, v) >= 1 && spec_tally(ms, name, v) >= spec_threshold(t),
    )
}

/// The consensus: each name that keeps any version, mapped to the
/// canonical encoding of the versions it keeps.
pub open spec fn spec_vote_map(ms: Multiset<Seq<char>>, t: i32) -> Map<Seq<char>, Seq<char>> {
    Map::new(
        |n: Seq<char>| spec_winners(ms, n, t) != Set::<u32>::empty(),
        |n: Seq<char>| encode_version_set(spec_winners(ms, n, t)),
    )
}

/// The consensus string a multiset of ballots denotes.
pub open spec fn spec_compute_vote(ms: Multiset<Seq<char>>, t: i32) -> Seq<char> {
    spec_write_vote(spec_vote_map(ms, t))
}

/// The maps of the ballots that parse, in ballot order.
pub open spec fn parsed_maps(bs: Seq<Seq<char>>) -> Seq<Map<Seq<char>, Set<u32>>>
    decreases bs.len(),
{
    if bs.len() == 0 {
        Seq::<Map<Seq<char>, Set<u32>>>::empty()
    } else {
        parsed_maps(bs.drop_last()) + (match parse_unvalidated(bs.last()) {
            Ok(m) => seq![m],
            Err(_) => Seq::<Map<Seq<char>, Set<u32>>>::empty(),
        })
    }
}

/// How many parsed maps assert support for `(name, v)`.
pub open spec fn tally_pms(pms: Seq<Map<Seq<char>, Set<u32>>>, n: Seq<char>, v: u32) -> nat {
    pms.filter(map_votes_pred(n, v)).len()
}

/// The versions of `name` appearing among the first `k` parsed maps.
pub open spec fn appears_before(
    pms: Seq<Map<Seq<char>, Set<u32>>>,
    n: Seq<char>,
    k: int,
) -> Set<u32> {
    Set::new(
        |v: u32| exists|b: int|
            0 <= b < k && (#[trigger] pms[b]).contains_key(n) && pms[b][n].contains(v),
    )
}

/// The candidate versions that win for `name`.
pub open spec fn win_pred(pms: Seq<Map<Seq<char>, Set<u32>>>, n: Seq<char>, t: int) -> spec_fn(
    u32,
) -> bool {
    |v: u32| tally_pms(pms, n, v) >= 1 && tally_pms(pms, n, v) >= t
}

/// The names any of the first `k` parsed maps mention.
pub open spec fn dom_names_upto(pms: Seq<Map<Seq<char>, Set<u32>>>, k: int) -> Set<Seq<char>> {
    Set::new(|n: Seq<char>| exists|b: int| 0 <= b < k && (#[trigger] pms[b]).contains_key(n))
}

/// Inserting an element into a multiset extends its filtered part by
/// that element exactly when the element passes the filter.
pub proof fn lemma_multiset_filter_insert<A>(m: Multiset<A>, p: spec_fn(A) -> bool, x: A)
    ensures
        m.insert(x).filter(p) == if p(x) {
            m.filter(p).insert(x)
        } else {
            m.filter(p)
        },
{
    if p(x) {
        assert(m.insert(x).filter(p) =~= m.filter(p).insert(x)) by {
            assert forall|v: A|
                m.insert(x).filter(p).count(v) == m.filter(p).insert(x).count(v) by {
                if v == x {
                    assert(m.insert(x).count(x) == m.count(x) + 1);
                    assert(m.filter(p).insert(x).count(x) == m.filter(p).count(x) + 1);
                } else {
                    assert(m.insert(x).count(v) == m.count(v));
                    assert(m.filter(p).insert(x).count(v) == m.filter(p).count(v));
                }
            }
        }
    } else {
        assert(m.insert(x).filter(p) =~= m.filter(p)) by {
            assert forall|v: A| m.insert(x).filter(p).count(v) == m.filter(p).count(v) by {
                if v == x {
                    assert(m.insert(x).count(x) == m.count(x) + 1);
                } else {
                    assert(m.insert(x).count(v) == m.count(v));
                }
            }
        }
    }
}

/// Counting by filtering a sequence or its multiset is the same.
pub proof fn lemma_seq_filter_to_multiset<A>(s: Seq<A>, p: spec_fn(A) -> bool)
    ensures
        s.to_multiset().filter(p).len() == s.filter(p).len(),
    decreases s.len(),
{
    broadcast use vstd::seq_lib::group_to_multiset_ensures;

    if s.len() == 0 {
        assert(s.to_multiset().len() == 0);
        assert(s.to_multiset() =~= Multiset::<A>::empty()) by {
            assert forall|v: A| s.to_multiset().count(v) == Multiset::<A>::empty().count(v) by {
                assert(s.to_multiset().count(v) <= s.to_multiset().len());
            }
        }
        assert(s.to_multiset().filter(p) =~= Multiset::<A>::empty()) by {
            assert(forall|v: A|
                Multiset::<A>::empty().filter(p).count(v) == Multiset::<A>::empty().count(v) || Multiset::<A>::empty().filter(p).count(v) == 0);
        }
        reveal(Seq::filter);
    } else {
        let t = s.drop_last();
        lemma_seq_filter_to_multiset(t, p);
        vstd::seq_lib::to_multiset_build(t, s.last());
        assert(t.push(s.last()) =~= s);
        lemma_multiset_filter_insert(t.to_multiset(), p, s.last());
        lemma_filter_push(t, p, s.last());
    }
}

/// A ballot votes exactly when its parsed map does, so counting voting
/// ballots is counting voting parsed maps.
pub proof fn lemma_tally_parsed(bs: Seq<Seq<char>>, n: Seq<char>, v: u32)
    ensures
        bs.filter(votes_pred(n, v)).len() == tally_pms(parsed_maps(bs), n, v),
    decreases bs.len(),
{
    reveal(Seq::filter);
    if bs.len() == 0 {
        assert(parsed_maps(bs) =~~= Seq::<Map<Seq<char>, Set<u32>>>::empty());
    } else {
        let t = bs.drop_last();
        let b = bs.last();
        lemma_tally_parsed(t, n, v);
        lemma_filter_push(t, votes_pred(n, v), b);
        assert(t.push(b) =~= bs);
        assert(votes_pred(n, v)(b) == ballot_votes(b, n, v));
        match parse_unvalidated(b) {
            Ok(m) => {
                assert(parsed_maps(bs) =~~= parsed_maps(t).push(m));
                lemma_filter_push(parsed_maps(t), map_votes_pred(n, v), m);
                assert(map_votes_pred(n, v)(m) == (m.contains_key(n) && m[n].contains(v)));
            },
            Err(_) => {
                assert(parsed_maps(bs) =~~= parsed_maps(t));
                assert(!ballot_votes(b, n, v));
            },
        }
    }
}

/// The bridge from the ballot multiset to the parsed maps.
pub proof fn lemma_tally_bridge(bs: Seq<Seq<char>>, n: Seq<char>, v: u32)
    ensures
        spec_tally(bs.to_multiset(), n, v) == tally_pms(parsed_maps(bs), n, v),
{
    lemma_seq_filter_to_multiset(bs, votes_pred(n, v));
    lemma_tally_parsed(bs, n, v);
}

/// A non-empty filtered sequence has a witness in the original.
pub proof fn lemma_filter_exists<A>(s: Seq<A>, p: spec_fn(A) -> bool)
    requires
        s.filter(p).len() > 0,
    ensures
        exists|i: int| 0 <= i < s.len() && p(#[trigger] s[i]),
    decreases s.len(),
{
    reveal(Seq::filter);
    if s.len() > 0 {
        if p(s.last()) {
            assert(s[s.len() - 1] == s.last());
        } else {
            lemma_filter_exists(s.drop_last(), p);
            let i = choose|i: int| 0 <= i < s.len() - 1 && p(#[trigger] s.drop_last()[i]);
            assert(s[i] == s.drop_last()[i]);
        }
    }
}

/// An element satisfying the filter makes the filtered sequence
/// non-empty.
pub proof fn lemma_filter_witness<A>(s: Seq<A>, p: spec_fn(A) -> bool, i: int)
    requires
        0 <= i < s.len(),
        p(s[i]),
    ensures
        s.filter(p).len() >= 1,
    decreases s.len(),
{
    reveal(Seq::filter);
    if s.len() > 0 {
        if i == s.len() - 1 {
            assert(p(s.last()));
        } else {
            assert(s.drop_last()[i] == s[i]);
            lemma_filter_witness(s.drop_last(), p, i);
        }
    }
}


/// Strictly ascending name views.
pub open spec fn lex_sorted_names(s: Seq<Seq<char>>) -> bool {
    forall|i: int, j: int| 0 <= i < j < s.len() ==> lex_lt(#[trigger] s[i], #[trigger] s[j])
}

/// Insert a name into a sorted name list, keeping it sorted and free of
/// duplicates.
fn insert_name_sorted(v: &mut Vec<String>, x: &String)
    requires
        lex_sorted_names(old(v).deep_view()),
    ensures
        lex_sorted_names(final(v).deep_view()),
        final(v).deep_view().to_set() == old(v).deep_view().to_set().insert(x@),
{
    let ghost d = v.deep_view();
    proof {
        assert(forall|k: int| 0 <= k < v@.len() ==> #[trigger] d[k] == v@[k]@);
    }
    let mut j: usize = 0;
    while j < v.len() && str_lex_lt(v[j].as_str(), x.as_str())
        invariant
            v@ == old(v)@,
            d == v.deep_view(),
            j <= d.len(),
            forall|k: int| 0 <= k < j ==> lex_lt(#[trigger] d[k], x@),
        decreases d.len() - j,
    {
        proof {
            assert(d[j as int] == v@[j as int]@);
        }
        j = j + 1;
    }
    if j < v.len() {
        let same = {
            let vj: &String = &v[j];
            vj.as_str().unicode_len() == x.as_str().unicode_len() && !str_lex_lt(
                x.as_str(),
                vj.as_str(),
            ) && !str_lex_lt(vj.as_str(), x.as_str())
        };
        proof {
            assert(d[j as int] == v@[j as int]@);
            lemma_lex_connected(d[j as int], x@);
        }
        if same {
            proof {
                assert(d[j as int] == x@);
                assert(d.contains(x@)) by {
                    assert(d[j as int] == x@);
                }
                assert(d.to_set() =~= d.to_set().insert(x@));
            }
            return ;
        }
    }
    proof {
        if j < d.len() {
            assert(!lex_lt(d[j as int], x@));
            lemma_lex_connected(d[j as int], x@);
            assert(lex_lt(x@, d[j as int]));
        }
    }
    let ghost xv = x@;
    v.insert(j, x.clone());
    proof {
        let e = v.deep_view();
        assert(forall|k: int| 0 <= k < v@.len() ==> #[trigger] e[k] == v@[k]@);
        assert(forall|k: int| 0 <= k < j ==> e[k] == d[k]);
        assert(forall|k: int| j < k < e.len() ==> e[k] == d[k - 1]);
        assert(e[j as int] == xv);
        assert(lex_sorted_names(e)) by {
            assert forall|a: int, b: int|
                0 <= a < b < e.len() implies lex_lt(#[trigger] e[a], #[trigger] e[b]) by {
                if a == j {
                    if b - 1 > j {
                        assert(lex_lt(d[j as int], d[b - 1]));
                        lemma_lex_transitive(xv, d[j as int], d[b - 1]);
                    }
                    assert(lex_lt(xv, d[b - 1]));
                } else if b == j {
                    assert(lex_lt(d[a], xv));
                } else if a < j && b > j {
                    assert(lex_lt(d[a], d[b - 1]));
                }
            }
        }
        assert(e.to_set() =~= d.to_set().insert(xv)) by {
            assert forall|n: Seq<char>| e.to_set().contains(n) implies d.to_set().insert(
                xv,
            ).contains(n) by {
                let k = choose|k: int| 0 <= k < e.len() && e[k] == n;
                if k < j {
                    assert(d[k] == n);
                } else if k > j {
                    assert(d[k - 1] == n);
                }
            }
            assert forall|n: Seq<char>| d.to_set().insert(xv).contains(n) implies e.to_set(
            ).contains(n) by {
                if n == xv {
                    assert(e[j as int] == n);
                } else {
                    let k = choose|k: int| 0 <= k < d.len() && d[k] == n;
                    if k < j {
                        assert(e[k] == n);
                    } else {
                        assert(e[k + 1] == n);
                    }
                }
            }
        }
    }
}


/// A parsed ballot's pair list is faithful to its map: unique names and
/// the denoted map.
pub open spec fn ballot_entry_ok(pairs: Vec<(String, Versions)>, m: Map<Seq<char>, Set<u32>>) -> bool {
    &&& forall|i: int, j: int|
        0 <= i < j < pairs@.len() ==> (#[trigger] pairs@[i]).0@ != (#[trigger] pairs@[j]).0@
    &&& vote_pairs_map(ballot_pairs_view(pairs@)) == m
}

/// The names of the first `l` pairs of a parsed ballot.
pub open spec fn view_names_upto(bv: Seq<(Seq<char>, Set<u32>)>, l: int) -> Set<Seq<char>> {
    Set::new(|n: Seq<char>| exists|i: int| 0 <= i < l && (#[trigger] bv[i]).0 == n)
}

/// A finished consensus entry: its name was seen among the first `ni`
/// names, kept some version, and carries the canonical encoding of the
/// versions it kept.
pub open spec fn entry_ok(
    p: (Seq<char>, Seq<char>),
    ms: Multiset<Seq<char>>,
    t: i32,
    names: Seq<Seq<char>>,
    ni: int,
) -> bool {
    &&& exists|j: int| 0 <= j < ni && #[trigger] names[j] == p.0
    &&& spec_winners(ms, p.0, t) != Set::<u32>::empty()
    &&& p.1 == encode_version_set(spec_winners(ms, p.0, t))
}

/// Merge the ballots: a `(name, version)` pair survives when at least
/// `threshold` ballots advertise it; surviving versions are compacted
/// per name and the entries are emitted sorted by name.  A malformed
/// ballot is skipped; the result depends only on the multiset of
/// ballots.
pub fn compute_vote(list_of_proto_strings: Vec<String>, threshold: i32) -> (r: String)
    ensures
        r@ == spec_compute_vote(list_of_proto_strings.deep_view().to_multiset(), threshold),
{
    let ghost bs: Seq<Seq<char>> = list_of_proto_strings.deep_view();
    let ghost ms = bs.to_multiset();

    // Parse every ballot, skipping the malformed.
    let mut parsed: Vec<Vec<(String, Versions)>> = Vec::new();
    let ghost mut pms: Seq<Map<Seq<char>, Set<u32>>> = Seq::empty();
    let mut bi: usize = 0;
    proof {
        assert(bs.take(0) =~~= Seq::<Seq<char>>::empty());
        assert(parsed_maps(bs.take(0)) =~~= pms);
        assert(forall|k: int| 0 <= k < bs.len() ==> #[trigger] bs[k] == list_of_proto_strings@[k]@);
    }
    while bi < list_of_proto_strings.len()
        invariant
            bs == list_of_proto_strings.deep_view(),
            forall|k: int| 0 <= k < bs.len() ==> #[trigger] bs[k] == list_of_proto_strings@[k]@,
            bi <= bs.len(),
            pms == parsed_maps(bs.take(bi as int)),
            parsed@.len() == pms.len(),
            forall|k: int|
                0 <= k < parsed@.len() ==> ballot_entry_ok(#[trigger] parsed@[k], pms[k]),
        decreases bs.len() - bi,
    {
        let b: &String = &list_of_proto_strings[bi];
        let ghost prev = pms;
        proof {
            assert(bs.take(bi + 1).drop_last() =~~= bs.take(bi as int));
            assert(bs.take(bi + 1).last() == bs[bi as int]);
            assert(b@ == bs[bi as int]);
        }
        match parse_protocols_from_string_with_no_validation(b.as_str()) {
            Ok(pairs) => {
                proof {
                    pms = pms.push(vote_pairs_map(ballot_pairs_view(pairs@)));
                    assert(parsed_maps(bs.take(bi + 1)) =~~= pms);
                }
                parsed.push(pairs);
            },
            Err(_) => {
                proof {
                    assert(parsed_maps(bs.take(bi + 1)) =~~= prev);
                }
            },
        }
        bi = bi + 1;
    }
    proof {
        assert(bs.take(bs.len() as int) =~~= bs);
        assert(pms == parsed_maps(bs));
    }

    // Collect every advertised name, sorted and without duplicates.
    let mut names: Vec<String> = Vec::new();
    let mut pk0: usize = 0;
    proof {
        assert(names.deep_view() =~~= Seq::<Seq<char>>::empty());
        assert(names.deep_view().to_set() =~= dom_names_upto(pms, 0));
    }
    while pk0 < parsed.len()
        invariant
            pms == parsed_maps(bs),
            parsed@.len() == pms.len(),
            forall|k: int|
                0 <= k < parsed@.len() ==> ballot_entry_ok(#[trigger] parsed@[k], pms[k]),
            pk0 <= parsed@.len(),
            lex_sorted_names(names.deep_view()),
            names.deep_view().to_set() == dom_names_upto(pms, pk0 as int),
        decreases parsed@.len() - pk0,
    {
        let ballot: &Vec<(String, Versions)> = &parsed[pk0];
        let ghost bv = ballot_pairs_view(ballot@);
        proof {
            assert(ballot_entry_ok(parsed@[pk0 as int], pms[pk0 as int]));
            assert(forall|i: int|
                0 <= i < bv.len() ==> #[trigger] bv[i] == (ballot@[i].0@, ballot@[i].1.0@));
            assert(forall|i: int, j: int|
                0 <= i < j < bv.len() ==> (#[trigger] bv[i]).0 != (#[trigger] bv[j]).0);
            lemma_vote_pairs_map(bv);
            assert(names.deep_view().to_set() =~= dom_names_upto(pms, pk0 as int).union(
                view_names_upto(bv, 0),
            ));
        }
        let mut li: usize = 0;
        while li < ballot.len()
            invariant
                pms == parsed_maps(bs),
                bv == ballot_pairs_view(ballot@),
                forall|i: int|
                    0 <= i < bv.len() ==> #[trigger] bv[i] == (ballot@[i].0@, ballot@[i].1.0@),
                li <= bv.len(),
                bv.len() == ballot@.len(),
                lex_sorted_names(names.deep_view()),
                names.deep_view().to_set() == dom_names_upto(pms, pk0 as int).union(
                    view_names_upto(bv, li as int),
                ),
            decreases bv.len() - li,
        {
            insert_name_sorted(&mut names, &ballot[li].0);
            proof {
                assert(bv[li as int].0 == ballot@[li as int].0@);
                assert(view_names_upto(bv, li + 1) =~= view_names_upto(bv, li as int).insert(
                    bv[li as int].0,
                )) by {
                    assert forall|n: Seq<char>|
                        view_names_upto(bv, li + 1).contains(n) implies view_names_upto(
                        bv,
                        li as int,
                    ).insert(bv[li as int].0).contains(n) by {
                        let i = choose|i: int| 0 <= i < li + 1 && (#[trigger] bv[i]).0 == n;
                    }
                }
                assert(dom_names_upto(pms, pk0 as int).union(view_names_upto(bv, li as int)).insert(
                    bv[li as int].0,
                ) =~= dom_names_upto(pms, pk0 as int).union(view_names_upto(bv, li + 1)));
            }
            li = li + 1;
        }
        proof {
            assert(dom_names_upto(pms, pk0 + 1) =~= dom_names_upto(pms, pk0 as int).union(
                view_names_upto(bv, bv.len() as int),
            )) by {
                assert forall|n: Seq<char>|
                    dom_names_upto(pms, pk0 + 1).contains(n) implies dom_names_upto(
                    pms,
                    pk0 as int,
                ).union(view_names_upto(bv, bv.len() as int)).contains(n) by {
                    let b2 = choose|b2: int|
                        0 <= b2 < pk0 + 1 && (#[trigger] pms[b2]).contains_key(n);
                    if b2 == pk0 {
                        assert(vote_pairs_map(bv).contains_key(n));
                        let i = choose|i: int| 0 <= i < bv.len() && (#[trigger] bv[i]).0 == n;
                        assert(view_names_upto(bv, bv.len() as int).contains(n));
                    }
                }
                assert forall|n: Seq<char>|
                    dom_names_upto(pms, pk0 as int).union(
                        view_names_upto(bv, bv.len() as int),
                    ).contains(n) implies dom_names_upto(pms, pk0 + 1).contains(n) by {
                    if dom_names_upto(pms, pk0 as int).contains(n) {
                        let b2 = choose|b2: int|
                            0 <= b2 < pk0 && (#[trigger] pms[b2]).contains_key(n);
                    } else {
                        let i = choose|i: int|
                            0 <= i < bv.len() && (#[trigger] bv[i]).0 == n;
                        assert(vote_pairs_map(bv).contains_key(n));
                        assert(pms[pk0 as int].contains_key(n));
                    }
                }
            }
        }
        pk0 = pk0 + 1;
    }
    let ghost nsq = names.deep_view();
    proof {
        assert(nsq.to_set() == dom_names_upto(pms, pms.len() as int));
        assert(forall|k: int| 0 <= k < nsq.len() ==> #[trigger] nsq[k] == names@[k]@);
    }

    // The count a ballot tally must reach.
    let t_count: u64 = if threshold >= 0 {
        threshold as u64
    } else {
        u64::MAX - ((-1 - threshold) as u64)
    };
    proof {
        assert(t_count == spec_threshold(threshold));
    }

    // Per name: gather candidates, count ballots, keep the winners.
    let mut entries: Vec<(String, String)> = Vec::new();
    let mut ni: usize = 0;
    while ni < names.len()
        invariant
            bs == list_of_proto_strings.deep_view(),
            ms == bs.to_multiset(),
            pms == parsed_maps(bs),
            parsed@.len() == pms.len(),
            forall|k: int|
                0 <= k < parsed@.len() ==> ballot_entry_ok(#[trigger] parsed@[k], pms[k]),
            nsq == names.deep_view(),
            forall|k: int| 0 <= k < nsq.len() ==> #[trigger] nsq[k] == names@[k]@,
            lex_sorted_names(nsq),
            nsq.to_set() == dom_names_upto(pms, pms.len() as int),
            t_count == spec_threshold(threshold),
            ni <= nsq.len(),
            lex_sorted(entries.deep_view()),
            forall|e: int|
                0 <= e < entries.deep_view().len() ==> entry_ok(
                    #[trigger] entries.deep_view()[e],
                    ms,
                    threshold,
                    nsq,
                    ni as int,
                ),
            forall|j: int|
                0 <= j < ni && spec_winners(ms, #[trigger] nsq[j], threshold) != Set::<
                    u32,
                >::empty() ==> pairs_has_name(entries.deep_view(), nsq[j]),
        decreases nsq.len() - ni,
    {
        let name: &String = &names[ni];
        let ghost n = nsq[ni as int];
        proof {
            assert(name@ == n);
        }

        // Candidates: every version any parsed ballot lists for the name.
        let mut cands: Vec<u32> = Vec::new();
        let mut pk: usize = 0;
        proof {
            assert(cands@.to_set() =~= appears_before(pms, n, 0));
        }
        while pk < parsed.len()
            invariant
                pms == parsed_maps(bs),
                parsed@.len() == pms.len(),
                forall|k: int|
                    0 <= k < parsed@.len() ==> ballot_entry_ok(#[trigger] parsed@[k], pms[k]),
                n == name@,
                pk <= parsed@.len(),
                sorted_strict(cands@),
                cands@.to_set() == appears_before(pms, n, pk as int),
            decreases parsed@.len() - pk,
        {
            let ballot: &Vec<(String, Versions)> = &parsed[pk];
            let ghost bv = ballot_pairs_view(ballot@);
            proof {
                assert(ballot_entry_ok(parsed@[pk as int], pms[pk as int]));
                assert(forall|i: int|
                    0 <= i < bv.len() ==> #[trigger] bv[i] == (ballot@[i].0@, ballot@[i].1.0@));
                assert(forall|i: int, j: int|
                    0 <= i < j < bv.len() ==> (#[trigger] bv[i]).0 != (#[trigger] bv[j]).0);
                lemma_vote_pairs_map(bv);
            }
            match find_name_position(ballot, name) {
                Some(pos) => {
                    let sv = hash_set_sorted_vec(&ballot[pos].1.0);
                    proof {
                        assert(bv[pos as int].0 == n);
                        assert(vote_pairs_map(bv)[n] == bv[pos as int].1);
                        assert(sv@.to_set() == pms[pk as int][n]);
                    }
                    let mut wi: usize = 0;
                    proof {
                        assert(sv@.take(0).to_set() =~= Set::<u32>::empty());
                        assert(cands@.to_set().union(sv@.take(0).to_set()) =~= cands@.to_set());
                    }
                    let ghost base = cands@.to_set();
                    while wi < sv.len()
                        invariant
                            wi <= sv@.len(),
                            sorted_strict(cands@),
                            cands@.to_set() == base.union(sv@.take(wi as int).to_set()),
                        decreases sv@.len() - wi,
                    {
                        insert_sorted(&mut cands, sv[wi]);
                        proof {
                            assert(sv@.take(wi + 1) =~= sv@.take(wi as int).push(
                                sv@[wi as int],
                            ));
                            assert(sv@.take(wi as int).push(sv@[wi as int]).to_set()
                                =~= sv@.take(wi as int).to_set().insert(sv@[wi as int])) by {
                                let q = sv@.take(wi as int);
                                let x = sv@[wi as int];
                                assert forall|y: u32|
                                    q.push(x).to_set().contains(y) implies q.to_set().insert(
                                    x,
                                ).contains(y) by {
                                    let i2 = choose|i2: int|
                                        0 <= i2 < q.push(x).len() && q.push(x)[i2] == y;
                                    if i2 < q.len() {
                                        assert(q[i2] == y);
                                    }
                                }
                                assert forall|y: u32|
                                    q.to_set().insert(x).contains(y) implies q.push(
                                    x,
                                ).to_set().contains(y) by {
                                    if y == x {
                                        assert(q.push(x)[q.len() as int] == y);
                                    } else {
                                        let i2 = choose|i2: int| 0 <= i2 < q.len() && q[i2] == y;
                                        assert(q.push(x)[i2] == y);
                                    }
                                }
                            }
                            assert(base.union(sv@.take(wi as int).to_set()).insert(sv@[wi as int])
                                =~= base.union(sv@.take(wi + 1).to_set()));
                        }
                        wi = wi + 1;
                    }
                    proof {
                        assert(sv@.take(sv@.len() as int) =~= sv@);
                        assert(appears_before(pms, n, pk + 1) =~= base.union(sv@.to_set())) by {
                            assert forall|v: u32|
                                appears_before(pms, n, pk + 1).contains(v) implies base.union(
                                sv@.to_set(),
                            ).contains(v) by {
                                let b2 = choose|b2: int|
                                    0 <= b2 < pk + 1 && (#[trigger] pms[b2]).contains_key(n)
                                        && pms[b2][n].contains(v);
                                if b2 < pk {
                                    assert(appears_before(pms, n, pk as int).contains(v));
                                }
                            }
                            assert forall|v: u32|
                                base.union(sv@.to_set()).contains(v) implies appears_before(
                                pms,
                                n,
                                pk + 1,
                            ).contains(v) by {
                                if base.contains(v) {
                                    let b2 = choose|b2: int|
                                        0 <= b2 < pk && (#[trigger] pms[b2]).contains_key(n)
                                            && pms[b2][n].contains(v);
                                } else {
                                    assert(pms[pk as int].contains_key(n) && pms[pk as int][n].contains(v));
                                }
                            }
                        }
                    }
                },
                None => {
                    proof {
                        assert(!vote_pairs_map(bv).contains_key(n)) by {
                            if vote_pairs_map(bv).contains_key(n) {
                                let i = choose|i: int|
                                    0 <= i < bv.len() && (#[trigger] bv[i]).0 == n;
                                assert(ballot@[i].0@ == n);
                            }
                        }
                        assert(appears_before(pms, n, pk + 1) =~= appears_before(
                            pms,
                            n,
                            pk as int,
                        )) by {
                            assert forall|v: u32|
                                appears_before(pms, n, pk + 1).contains(v) implies appears_before(
                                pms,
                                n,
                                pk as int,
                            ).contains(v) by {
                                let b2 = choose|b2: int|
                                    0 <= b2 < pk + 1 && (#[trigger] pms[b2]).contains_key(n)
                                        && pms[b2][n].contains(v);
                                assert(b2 != pk);
                            }
                        }
                    }
                },
            }
            pk = pk + 1;
        }
        proof {
            assert(cands@.to_set() == appears_before(pms, n, pms.len() as int));
        }

        // Winners: candidates whose ballot count reaches the threshold.
        let ghost tt = spec_threshold(threshold);
        let mut winners: Vec<u32> = Vec::new();
        let mut ci: usize = 0;
        proof {
            reveal(Seq::filter);
            assert(cands@.take(0) =~= Seq::<u32>::empty());
            assert(winners@ =~= cands@.take(0).filter(win_pred(pms, n, tt)));
        }
        while ci < cands.len()
            invariant
                bs == list_of_proto_strings.deep_view(),
                ms == bs.to_multiset(),
                pms == parsed_maps(bs),
                parsed@.len() == pms.len(),
                forall|k: int|
                    0 <= k < parsed@.len() ==> ballot_entry_ok(#[trigger] parsed@[k], pms[k]),
                n == name@,
                tt == spec_threshold(threshold),
                t_count == spec_threshold(threshold),
                sorted_strict(cands@),
                cands@.to_set() == appears_before(pms, n, pms.len() as int),
                ci <= cands@.len(),
                sorted_strict(winners@),
                forall|l: int|
                    0 <= l < winners@.len() ==> cands@.take(ci as int).contains(
                        #[trigger] winners@[l],
                    ),
                winners@ == cands@.take(ci as int).filter(win_pred(pms, n, tt)),
            decreases cands@.len() - ci,
        {
            let vv = cands[ci];
            let mut cnt: usize = 0;
            let mut pk2: usize = 0;
            proof {
                reveal(Seq::filter);
                assert(pms.take(0) =~~= Seq::<Map<Seq<char>, Set<u32>>>::empty());
                assert(cnt as nat == pms.take(0).filter(map_votes_pred(n, vv)).len());
            }
            while pk2 < parsed.len()
                invariant
                    pms == parsed_maps(bs),
                    parsed@.len() == pms.len(),
                    forall|k: int|
                        0 <= k < parsed@.len() ==> ballot_entry_ok(#[trigger] parsed@[k], pms[k]),
                    n == name@,
                    pk2 <= parsed@.len(),
                    cnt <= pk2,
                    cnt as nat == pms.take(pk2 as int).filter(map_votes_pred(n, vv)).len(),
                decreases parsed@.len() - pk2,
            {
                let ballot: &Vec<(String, Versions)> = &parsed[pk2];
                let ghost bv = ballot_pairs_view(ballot@);
                proof {
                    assert(ballot_entry_ok(parsed@[pk2 as int], pms[pk2 as int]));
                    assert(forall|i: int|
                        0 <= i < bv.len() ==> #[trigger] bv[i] == (ballot@[i].0@, ballot@[i].1.0@));
                    assert(forall|i: int, j: int|
                        0 <= i < j < bv.len() ==> (#[trigger] bv[i]).0 != (#[trigger] bv[j]).0);
                    lemma_vote_pairs_map(bv);
                }
                let voted = match find_name_position(ballot, name) {
                    Some(pos) => {
                        proof {
                            assert(bv[pos as int].0 == n);
                            assert(vote_pairs_map(bv)[n] == bv[pos as int].1);
                        }
                        ballot[pos].1.0.contains(&vv)
                    },
                    None => {
                        proof {
                            assert(!vote_pairs_map(bv).contains_key(n)) by {
                                if vote_pairs_map(bv).contains_key(n) {
                                    let i = choose|i: int|
                                        0 <= i < bv.len() && (#[trigger] bv[i]).0 == n;
                                    assert(ballot@[i].0@ == n);
                                }
                            }
                        }
                        false
                    },
                };
                proof {
                    assert(voted == map_votes_pred(n, vv)(pms[pk2 as int]));
                    lemma_filter_push(pms.take(pk2 as int), map_votes_pred(n, vv), pms[pk2 as int]);
                    assert(pms.take(pk2 + 1) =~~= pms.take(pk2 as int).push(pms[pk2 as int]));
                }
                if voted {
                    cnt = cnt + 1;
                }
                pk2 = pk2 + 1;
            }
            proof {
                assert(pms.take(pms.len() as int) =~~= pms);
                assert(cnt as nat == tally_pms(pms, n, vv));
                lemma_filter_push(cands@.take(ci as int), win_pred(pms, n, tt), vv);
                assert(cands@.take(ci + 1) =~= cands@.take(ci as int).push(cands@[ci as int]));
                // A candidate always has at least one vote.
                assert(cands@.to_set().contains(vv)) by {
                    assert(cands@[ci as int] == vv);
                }
                let b2 = choose|b2: int|
                    0 <= b2 < pms.len() && (#[trigger] pms[b2]).contains_key(n)
                        && pms[b2][n].contains(vv);
                assert(map_votes_pred(n, vv)(pms[b2]));
                lemma_filter_witness(pms, map_votes_pred(n, vv), b2);
                assert(tally_pms(pms, n, vv) >= 1);
            }
            if (cnt as u64) >= t_count {
                proof {
                    assert(win_pred(pms, n, tt)(vv));
                    assert forall|l: int|
                        0 <= l < winners@.len() implies #[trigger] winners@[l] < vv by {
                        assert(cands@.take(ci as int).contains(winners@[l]));
                        let i2 = choose|i2: int|
                            0 <= i2 < ci && cands@.take(ci as int)[i2] == winners@[l];
                        assert(cands@[i2] == winners@[l]);
                        assert(cands@[i2] < cands@[ci as int]);
                    }
                }
                winners.push(vv);
                proof {
                    assert(sorted_strict(winners@)) by {
                        let last = winners@.len() - 1;
                        assert(forall|l: int|
                            0 <= l < last ==> #[trigger] winners@[l] < winners@[last]);
                    }
                    assert forall|l: int|
                        0 <= l < winners@.len() implies cands@.take(ci + 1).contains(
                        #[trigger] winners@[l],
                    ) by {
                        if l < winners@.len() - 1 {
                            assert(cands@.take(ci as int).contains(winners@[l]));
                            let i2 = choose|i2: int|
                                0 <= i2 < ci && cands@.take(ci as int)[i2] == winners@[l];
                            assert(cands@.take(ci + 1)[i2] == winners@[l]);
                        } else {
                            assert(cands@.take(ci + 1)[ci as int] == vv);
                        }
                    }
                }
            } else {
                proof {
                    assert(!win_pred(pms, n, tt)(vv));
                    assert forall|l: int|
                        0 <= l < winners@.len() implies cands@.take(ci + 1).contains(
                        #[trigger] winners@[l],
                    ) by {
                        assert(cands@.take(ci as int).contains(winners@[l]));
                        let i2 = choose|i2: int|
                            0 <= i2 < ci && cands@.take(ci as int)[i2] == winners@[l];
                        assert(cands@.take(ci + 1)[i2] == winners@[l]);
                    }
                }
            }
            ci = ci + 1;
        }
        proof {
            assert(cands@.take(cands@.len() as int) =~= cands@);
            assert(winners@ == cands@.filter(win_pred(pms, n, tt)));
            // The winners are exactly the specified winner set.
            assert forall|v: u32| spec_tally(ms, n, v) == tally_pms(pms, n, v) by {
                lemma_tally_bridge(bs, n, v);
            }
            assert(winners@.to_set() =~= spec_winners(ms, n, threshold)) by {
                assert forall|v: u32|
                    winners@.to_set().contains(v) implies spec_winners(ms, n, threshold).contains(
                    v,
                ) by {
                    let l = choose|l: int| 0 <= l < winners@.len() && winners@[l] == v;
                    cands@.lemma_filter_pred(win_pred(pms, n, tt), l);
                }
                assert forall|v: u32|
                    spec_winners(ms, n, threshold).contains(v) implies winners@.to_set().contains(
                    v,
                ) by {
                    assert(tally_pms(pms, n, v) >= 1);
                    lemma_filter_exists(pms, map_votes_pred(n, v));
                    let b2 = choose|b2: int|
                        0 <= b2 < pms.len() && map_votes_pred(n, v)(#[trigger] pms[b2]);
                    assert(pms[b2].contains_key(n) && pms[b2][n].contains(v));
                    assert(appears_before(pms, n, pms.len() as int).contains(v));
                    let i2 = choose|i2: int| 0 <= i2 < cands@.len() && cands@[i2] == v;
                    assert(win_pred(pms, n, tt)(v));
                    cands@.lemma_filter_contains(win_pred(pms, n, tt), i2);
                }
            }
        }
        if winners.len() > 0 {
            let enc_chars = encode_sorted_chars(&winners);
            let enc = chars_to_string(&enc_chars);
            let ghost before_entries = entries.deep_view();
            proof {
                lemma_sorted_strict_set_len(winners@);
                lemma_sorted_of(winners@.to_set());
                lemma_sorted_strict_unique(sorted_of(winners@.to_set()), winners@);
                assert(enc@ == encode_version_set(spec_winners(ms, n, threshold)));
                assert(spec_winners(ms, n, threshold) != Set::<u32>::empty()) by {
                    assert(winners@.to_set().contains(winners@[0]));
                    assert(spec_winners(ms, n, threshold).contains(winners@[0]));
                    assert(!Set::<u32>::empty().contains(winners@[0]));
                }
            }
            entries.push((name.clone(), enc));
            proof {
                let e = entries.deep_view();
                assert(forall|k: int|
                    0 <= k < entries@.len() ==> #[trigger] e[k] == (
                        entries@[k].0@,
                        entries@[k].1@,
                    ));
                assert(e.len() == before_entries.len() + 1);
                assert(forall|k: int| 0 <= k < before_entries.len() ==> e[k] == before_entries[k]);
                assert(e[e.len() - 1] == (n, enc@));
                assert(lex_sorted(e)) by {
                    assert forall|a: int, b: int|
                        0 <= a < b < e.len() implies lex_lt((#[trigger] e[a]).0, (
                        #[trigger] e[b]).0) by {
                        if b == e.len() - 1 {
                            assert(entry_ok(before_entries[a], ms, threshold, nsq, ni as int));
                            let j = choose|j: int|
                                0 <= j < ni && #[trigger] nsq[j] == before_entries[a].0;
                            assert(lex_lt(nsq[j], nsq[ni as int]));
                        }
                    }
                }
                assert forall|e2: int| 0 <= e2 < e.len() implies entry_ok(
                    #[trigger] e[e2],
                    ms,
                    threshold,
                    nsq,
                    ni + 1,
                ) by {
                    if e2 < e.len() - 1 {
                        assert(entry_ok(before_entries[e2], ms, threshold, nsq, ni as int));
                        let j = choose|j: int|
                            0 <= j < ni && #[trigger] nsq[j] == before_entries[e2].0;
                        assert(nsq[j] == e[e2].0);
                    } else {
                        assert(nsq[ni as int] == e[e2].0);
                    }
                }
                assert forall|j: int|
                    0 <= j < ni + 1 && spec_winners(ms, #[trigger] nsq[j], threshold) != Set::<
                        u32,
                    >::empty() implies pairs_has_name(e, nsq[j]) by {
                    if j < ni {
                        assert(pairs_has_name(before_entries, nsq[j]));
                        let k2 = choose|k2: int|
                            0 <= k2 < before_entries.len() && (#[trigger] before_entries[k2]).0
                                == nsq[j];
                        assert(e[k2].0 == nsq[j]);
                    } else {
                        assert(e[e.len() - 1].0 == nsq[j]);
                    }
                }
            }
        } else {
            proof {
                assert(spec_winners(ms, n, threshold) =~= Set::<u32>::empty()) by {
                    assert forall|v: u32|
                        !spec_winners(ms, n, threshold).contains(v) by {
                        if spec_winners(ms, n, threshold).contains(v) {
                            assert(winners@.to_set().contains(v));
                            let l = choose|l: int| 0 <= l < winners@.len() && winners@[l] == v;
                        }
                    }
                }
                assert forall|j: int|
                    0 <= j < ni + 1 && spec_winners(ms, #[trigger] nsq[j], threshold) != Set::<
                        u32,
                    >::empty() implies pairs_has_name(entries.deep_view(), nsq[j]) by {
                    if j < ni {
                    } else {
                        assert(nsq[j] == n);
                    }
                }
                assert(forall|e2: int|
                    0 <= e2 < entries.deep_view().len() ==> entry_ok(
                        #[trigger] entries.deep_view()[e2],
                        ms,
                        threshold,
                        nsq,
                        ni + 1,
                    ));
            }
        }
        ni = ni + 1;
    }

    // Assemble: the entries are sorted and carry the winner encodings.
    proof {
        let e = entries.deep_view();
        assert(forall|i: int, j: int|
            0 <= i < j < e.len() ==> (#[trigger] e[i]).0 != (#[trigger] e[j]).0) by {
            assert forall|i: int, j: int|
                0 <= i < j < e.len() implies (#[trigger] e[i]).0 != (#[trigger] e[j]).0 by {
                lemma_lex_asymmetric(e[i].0, e[j].0);
            }
        }
        lemma_pairs_to_map(e);
        assert(pairs_to_map(e) =~= spec_vote_map(ms, threshold)) by {
            assert forall|n2: Seq<char>| #[trigger]
                pairs_to_map(e).contains_key(n2) implies spec_vote_map(ms, threshold).contains_key(
                n2,
            ) && pairs_to_map(e)[n2] == spec_vote_map(ms, threshold)[n2] by {
                let k2 = choose|k2: int| 0 <= k2 < e.len() && (#[trigger] e[k2]).0 == n2;
                assert(entry_ok(e[k2], ms, threshold, nsq, nsq.len() as int));
                assert(pairs_to_map(e)[e[k2].0] == e[k2].1);
            }
            assert forall|n2: Seq<char>| #[trigger]
                spec_vote_map(ms, threshold).contains_key(n2) implies pairs_to_map(
                e,
            ).contains_key(n2) by {
                // A name with a winner was advertised by some ballot.
                assert(spec_winners(ms, n2, threshold) != Set::<u32>::empty());
                assert(exists|v: u32| spec_winners(ms, n2, threshold).contains(v)) by {
                    if forall|v: u32| !spec_winners(ms, n2, threshold).contains(v) {
                        assert(spec_winners(ms, n2, threshold) =~= Set::<u32>::empty());
                    }
                }
                let v = choose|v: u32| spec_winners(ms, n2, threshold).contains(v);
                lemma_tally_bridge(bs, n2, v);
                assert(tally_pms(pms, n2, v) >= 1);
                lemma_filter_exists(pms, map_votes_pred(n2, v));
                let b2 = choose|b2: int|
                    0 <= b2 < pms.len() && map_votes_pred(n2, v)(#[trigger] pms[b2]);
                assert(pms[b2].contains_key(n2));
                assert(dom_names_upto(pms, pms.len() as int).contains(n2));
                assert(nsq.to_set().contains(n2));
                let j = choose|j: int| 0 <= j < nsq.len() && nsq[j] == n2;
                assert(pairs_has_name(e, nsq[j]));
            }
        }
    }
    write_vote_to_string(&entries)
}


// ---------------------------------------------------------------------
// Laws of the vote.
// ---------------------------------------------------------------------

/// The consensus does not depend on the order of the ballots: two
/// ballot lists holding the same ballots the same number of times
/// produce the same string.
pub proof fn lemma_vote_order_irrelevant(a: Seq<Seq<char>>, b: Seq<Seq<char>>, threshold: i32)
    requires
        a.to_multiset() == b.to_multiset(),
    ensures
        spec_compute_vote(a.to_multiset(), threshold) == spec_compute_vote(
            b.to_multiset(),
            threshold,
        ),
{
}

/// A malformed ballot mixed among the others changes nothing: the
/// consensus with it equals the consensus without it.
pub proof fn lemma_vote_ignores_malformed(ms: Multiset<Seq<char>>, bad: Seq<char>, threshold: i32)
    requires
        parse_unvalidated(bad) is Err,
    ensures
        spec_compute_vote(ms.insert(bad), threshold) == spec_compute_vote(ms, threshold),
{
    assert forall|n: Seq<char>, v: u32|
        #[trigger] spec_tally(ms.insert(bad), n, v) == spec_tally(ms, n, v) by {
        assert(!votes_pred(n, v)(bad));
        lemma_multiset_filter_insert(ms, votes_pred(n, v), bad);
    }
    assert forall|n: Seq<char>| #[trigger]
        spec_winners(ms.insert(bad), n, threshold) == spec_winners(ms, n, threshold) by {
        assert(spec_winners(ms.insert(bad), n, threshold) =~= spec_winners(ms, n, threshold));
    }
    assert(spec_vote_map(ms.insert(bad), threshold) =~= spec_vote_map(ms, threshold));
}

/// An empty ballot list yields the empty consensus string.
pub proof fn lemma_vote_empty(threshold: i32)
    ensures
        spec_compute_vote(Multiset::<Seq<char>>::empty(), threshold) == Seq::<char>::empty(),
{
    let ms = Multiset::<Seq<char>>::empty();
    assert forall|n: Seq<char>, v: u32| #[trigger] spec_tally(ms, n, v) == 0 by {
        assert(ms.filter(votes_pred(n, v)) =~= Multiset::<Seq<char>>::empty()) by {
            assert forall|b: Seq<char>|
                ms.filter(votes_pred(n, v)).count(b) == Multiset::<Seq<char>>::empty().count(
                b,
            ) by {
                assert(ms.count(b) == 0);
            }
        }
    }
    assert(spec_vote_map(ms, threshold).dom() =~= Set::<Seq<char>>::empty()) by {
        assert forall|n: Seq<char>| !(#[trigger] spec_vote_map(ms, threshold).dom().contains(
            n,
        )) by {
            if spec_vote_map(ms, threshold).dom().contains(n) {
                assert(spec_winners(ms, n, threshold) != Set::<u32>::empty());
                assert(spec_winners(ms, n, threshold) =~= Set::<u32>::empty()) by {
                    assert forall|v: u32|
                        !(#[trigger] spec_winners(ms, n, threshold).contains(v)) by {
                        assert(spec_tally(ms, n, v) == 0);
                    }
                }
            }
        }
    }
    assert(spec_vote_map(ms, threshold).dom().len() == 0);
}

} // verus!
