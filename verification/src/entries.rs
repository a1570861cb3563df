//! Protocol identifiers and protocol entries.
//!
//! An entry string such as `"Cons=3-4 HSDir=1"` maps protocol names to
//! version sets.  Strict parsing admits only the known protocol names;
//! the vote engine's permissive parsing lives in [`crate::vote`].

use vstd::prelude::*;
use crate::errors::ProtoverError;
use crate::protoset::{
    ProtoSet, find_char, find_first, lemma_find_first, parse_versions, MAX_PROTOCOLS_TO_EXPAND,
};
use crate::text::{chars_eq_str, split_at_char, split_char_vec, str_eq, to_char_vec};
use crate::vote::write_vote_to_string;

verus! {

/// The subprotocols this implementation knows by name.
#[derive(Clone, Copy, Hash, Eq, PartialEq, Structural, Debug)]
pub enum Protocol {
    /// Consensus document format.
    Cons,
    /// Descriptor format.
    Desc,
    /// Directory-cache behaviour.
    DirCache,
    /// Hidden-service directory.
    HSDir,
    /// Hidden-service introduction.
    HSIntro,
    /// Hidden-service rendezvous.
    HSRend,
    /// Link-layer format.
    Link,
    /// Link authentication.
    LinkAuth,
    /// Microdescriptor format.
    Microdesc,
    /// Relay cell format.
    Relay,
}

/// The canonical name of each protocol.
pub open spec fn spec_protocol_name(p: Protocol) -> Seq<char> {
    match p {
        Protocol::Cons => "Cons"@,
        Protocol::Desc => "Desc"@,
        Protocol::DirCache => "DirCache"@,
        Protocol::HSDir => "HSDir"@,
        Protocol::HSIntro => "HSIntro"@,
        Protocol::HSRend => "HSRend"@,
        Protocol::Link => "Link"@,
        Protocol::LinkAuth => "LinkAuth"@,
        Protocol::Microdesc => "Microdesc"@,
        Protocol::Relay => "Relay"@,
    }
}

/// The protocol a name denotes, if the name is known.
pub open spec fn spec_protocol_from_name(n: Seq<char>) -> Option<Protocol> {
    if n == "Cons"@ {
        Some(Protocol::Cons)
    } else if n == "Desc"@ {
        Some(Protocol::Desc)
    } else if n == "DirCache"@ {
        Some(Protocol::DirCache)
    } else if n == "HSDir"@ {
        Some(Protocol::HSDir)
    } else if n == "HSIntro"@ {
        Some(Protocol::HSIntro)
    } else if n == "HSRend"@ {
        Some(Protocol::HSRend)
    } else if n == "Link"@ {
        Some(Protocol::Link)
    } else if n == "LinkAuth"@ {
        Some(Protocol::LinkAuth)
    } else if n == "Microdesc"@ {
        Some(Protocol::Microdesc)
    } else if n == "Relay"@ {
        Some(Protocol::Relay)
    } else {
        None
    }
}

impl Protocol {
    /// The protocol's name.
    pub fn name(&self) -> (s: &'static str)
        ensures
            s@ == spec_protocol_name(*self),
    {
        match self {
            Protocol::Cons => "Cons",
            Protocol::Desc => "Desc",
            Protocol::DirCache => "DirCache",
            Protocol::HSDir => "HSDir",
            Protocol::HSIntro => "HSIntro",
            Protocol::HSRend => "HSRend",
            Protocol::Link => "Link",
            Protocol::LinkAuth => "LinkAuth",
            Protocol::Microdesc => "Microdesc",
            Protocol::Relay => "Relay",
        }
    }

    /// Resolve a name against the known protocols.
    pub fn from_str(s: &str) -> (r: Result<Protocol, ProtoverError>)
        ensures
            match spec_protocol_from_name(s@) {
                Some(p) => r == Ok::<Protocol, ProtoverError>(p),
                None => r == Err::<Protocol, ProtoverError>(ProtoverError::UnknownProtocol),
            },
    {
        if str_eq(s, "Cons") {
            Ok(Protocol::Cons)
        } else if str_eq(s, "Desc") {
            Ok(Protocol::Desc)
        } else if str_eq(s, "DirCache") {
            Ok(Protocol::DirCache)
        } else if str_eq(s, "HSDir") {
            Ok(Protocol::HSDir)
        } else if str_eq(s, "HSIntro") {
            Ok(Protocol::HSIntro)
        } else if str_eq(s, "HSRend") {
            Ok(Protocol::HSRend)
        } else if str_eq(s, "Link") {
            Ok(Protocol::Link)
        } else if str_eq(s, "LinkAuth") {
            Ok(Protocol::LinkAuth)
        } else if str_eq(s, "Microdesc") {
            Ok(Protocol::Microdesc)
        } else if str_eq(s, "Relay") {
            Ok(Protocol::Relay)
        } else {
            Err(ProtoverError::UnknownProtocol)
        }
    }

    /// As [`Protocol::from_str`], over a character vector.
    pub(crate) fn from_chars(v: &Vec<char>) -> (r: Result<Protocol, ProtoverError>)
        ensures
            match spec_protocol_from_name(v@) {
                Some(p) => r == Ok::<Protocol, ProtoverError>(p),
                None => r == Err::<Protocol, ProtoverError>(ProtoverError::UnknownProtocol),
            },
    {
        if chars_eq_str(v, "Cons") {
            Ok(Protocol::Cons)
        } else if chars_eq_str(v, "Desc") {
            Ok(Protocol::Desc)
        } else if chars_eq_str(v, "DirCache") {
            Ok(Protocol::DirCache)
        } else if chars_eq_str(v, "HSDir") {
            Ok(Protocol::HSDir)
        } else if chars_eq_str(v, "HSIntro") {
            Ok(Protocol::HSIntro)
        } else if chars_eq_str(v, "HSRend") {
            Ok(Protocol::HSRend)
        } else if chars_eq_str(v, "Link") {
            Ok(Protocol::Link)
        } else if chars_eq_str(v, "LinkAuth") {
            Ok(Protocol::LinkAuth)
        } else if chars_eq_str(v, "Microdesc") {
            Ok(Protocol::Microdesc)
        } else if chars_eq_str(v, "Relay") {
            Ok(Protocol::Relay)
        } else {
            Err(ProtoverError::UnknownProtocol)
        }
    }

    /// Resolve the index a host uses for a protocol in its own tables.
    pub fn from_index(i: u32) -> (r: Result<Protocol, ProtoverError>)
        ensures
            r == spec_protocol_from_index(i),
    {
        match i {
            0 => Ok(Protocol::Link),
            1 => Ok(Protocol::LinkAuth),
            2 => Ok(Protocol::Relay),
            3 => Ok(Protocol::DirCache),
            4 => Ok(Protocol::HSDir),
            5 => Ok(Protocol::HSIntro),
            6 => Ok(Protocol::HSRend),
            7 => Ok(Protocol::Desc),
            8 => Ok(Protocol::Microdesc),
            9 => Ok(Protocol::Cons),
            _ => Err(ProtoverError::UnknownProtocol),
        }
    }
}

/// The protocol each host-side index denotes.
pub open spec fn spec_protocol_from_index(i: u32) -> Result<Protocol, ProtoverError> {
    if i == 0 {
        Ok(Protocol::Link)
    } else if i == 1 {
        Ok(Protocol::LinkAuth)
    } else if i == 2 {
        Ok(Protocol::Relay)
    } else if i == 3 {
        Ok(Protocol::DirCache)
    } else if i == 4 {
        Ok(Protocol::HSDir)
    } else if i == 5 {
        Ok(Protocol::HSIntro)
    } else if i == 6 {
        Ok(Protocol::HSRend)
    } else if i == 7 {
        Ok(Protocol::Desc)
    } else if i == 8 {
        Ok(Protocol::Microdesc)
    } else if i == 9 {
        Ok(Protocol::Cons)
    } else {
        Err(ProtoverError::UnknownProtocol)
    }
}

/// A protocol name this implementation does not know, kept as raw text.
#[derive(Clone, Debug)]
pub struct UnknownProtocol(pub String);

impl UnknownProtocol {
    /// Keep any name as an unknown protocol; this cannot fail.
    pub fn from_str(s: &str) -> (r: Result<UnknownProtocol, ProtoverError>)
        ensures
            r matches Ok(u) && u.0@ == s@,
    {
        Ok(UnknownProtocol(String::from_str(s)))
    }

    /// The unknown protocol carrying a known protocol's name.
    pub fn from_protocol(p: Protocol) -> (r: UnknownProtocol)
        ensures
            r.0@ == spec_protocol_name(p),
    {
        Ok::<UnknownProtocol, ProtoverError>(
            UnknownProtocol(String::from_str(p.name())),
        ).unwrap()
    }

    /// The raw name.
    pub fn as_str(&self) -> (s: &str)
        ensures
            s@ == self.0@,
    {
        self.0.as_str()
    }
}

// ---------------------------------------------------------------------
// Protocol entries.
// ---------------------------------------------------------------------

/// What one space-separated entry token denotes: a protocol and its
/// version set, or the failure the token earns.  The versions are read
/// before the name is checked, so a bad version list outranks an
/// unknown name.
pub open spec fn parse_entry_token(t: Seq<char>) -> Result<(Protocol, Set<u32>), ProtoverError> {
    let d = find_first(t, '=');
    if d <= 0 {
        Err(ProtoverError::Unparseable)
    } else {
        let vers = t.subrange(d + 1, t.len() as int);
        match parse_versions(vers) {
            Err(e) => Err(e),
            Ok(s) => match spec_protocol_from_name(t.subrange(0, d)) {
                None => Err(ProtoverError::UnknownProtocol),
                Some(p) => Ok((p, s)),
            },
        }
    }
}

/// Fold entry tokens into a map; a repeated name keeps its last entry.
pub open spec fn parse_entry_tokens(ts: Seq<Seq<char>>, acc: Map<Protocol, Set<u32>>) -> Result<
    Map<Protocol, Set<u32>>,
    ProtoverError,
>
    decreases ts.len(),
{
    if ts.len() == 0 {
        Ok(acc)
    } else {
        match parse_entry_token(ts[0]) {
            Err(e) => Err(e),
            Ok(pv) => parse_entry_tokens(ts.drop_first(), acc.insert(pv.0, pv.1)),
        }
    }
}

/// What strict parsing of a whole entry string denotes.
pub open spec fn parse_proto_entry(s: Seq<char>) -> Result<Map<Protocol, Set<u32>>, ProtoverError> {
    parse_entry_tokens(split_at_char(s, ' '), Map::<Protocol, Set<u32>>::empty())
}

/// The local node's own supported protocols, in canonical entry form.
pub open spec fn spec_supported_protocols() -> Seq<char> {
    "Cons=1-2 Desc=1-2 DirCache=1-2 HSDir=1-2 HSIntro=3-4 HSRend=1-2 Link=1-5 LinkAuth=1,3 Microdesc=1-2 Relay=1-2"@
}

/// The entry string listing every protocol version this node supports.
pub fn get_supported_protocols() -> (s: &'static str)
    ensures
        s@ == spec_supported_protocols(),
{
    "Cons=1-2 Desc=1-2 DirCache=1-2 HSDir=1-2 HSIntro=3-4 HSRend=1-2 Link=1-5 LinkAuth=1,3 Microdesc=1-2 Relay=1-2"
}

/// A map from protocols to the version sets advertised for them.
#[derive(Debug)]
pub struct ProtoEntry {
    entries: Vec<(Protocol, ProtoSet)>,
}

/// The map a list of pairs denotes; a repeated key keeps its last pair.
pub open spec fn entry_pairs_map(s: Seq<(Protocol, ProtoSet)>) -> Map<Protocol, Set<u32>>
    decreases s.len(),
{
    if s.len() == 0 {
        Map::<Protocol, Set<u32>>::empty()
    } else {
        entry_pairs_map(s.drop_last()).insert(s.last().0, s.last().1@.to_set())
    }
}

impl View for ProtoEntry {
    type V = Map<Protocol, Set<u32>>;

    closed spec fn view(&self) -> Map<Protocol, Set<u32>> {
        entry_pairs_map(self.entries@)
    }
}

impl Default for ProtoEntry {
    /// The empty entry.
    fn default() -> (r: Self)
        ensures
            r@ == Map::<Protocol, Set<u32>>::empty(),
            r.wf(),
    {
        ProtoEntry { entries: Vec::new() }
    }
}

/// Unique keys, and every version set ascending.
pub open spec fn entry_pairs_wf(s: Seq<(Protocol, ProtoSet)>) -> bool {
    &&& forall|i: int, j: int|
        0 <= i < j < s.len() ==> (#[trigger] s[i]).0 != (#[trigger] s[j]).0
    &&& forall|i: int| 0 <= i < s.len() ==> (#[trigger] s[i]).1.wf()
}

/// On a well-formed pair list, the denoted map holds exactly the listed
/// keys, each with its listed version set.
/// Whether some pair of the list carries the key `p`.
pub open spec fn pairs_has_key(s: Seq<(Protocol, ProtoSet)>, p: Protocol) -> bool {
    exists|i: int| 0 <= i < s.len() && (#[trigger] s[i]).0 == p
}

proof fn lemma_entry_pairs_map(s: Seq<(Protocol, ProtoSet)>)
    requires
        forall|i: int, j: int|
            0 <= i < j < s.len() ==> (#[trigger] s[i]).0 != (#[trigger] s[j]).0,
    ensures
        forall|p: Protocol|
            #[trigger] entry_pairs_map(s).contains_key(p) <==> pairs_has_key(s, p),
        forall|i: int|
            0 <= i < s.len() ==> entry_pairs_map(s)[(#[trigger] s[i]).0] == s[i].1@.to_set(),
    decreases s.len(),
{
    if s.len() > 0 {
        let t = s.drop_last();
        assert(forall|i: int, j: int|
            0 <= i < j < t.len() ==> (#[trigger] t[i]).0 != (#[trigger] t[j]).0) by {
            assert(forall|i: int| 0 <= i < t.len() ==> #[trigger] t[i] == s[i]);
        }
        lemma_entry_pairs_map(t);
        let m = entry_pairs_map(s);
        assert(m == entry_pairs_map(t).insert(s.last().0, s.last().1@.to_set()));
        assert forall|p: Protocol| #[trigger] m.contains_key(p) implies pairs_has_key(s, p) by {
            if p == s.last().0 {
                assert(s[s.len() - 1].0 == p);
            } else {
                assert(entry_pairs_map(t).contains_key(p));
                assert(pairs_has_key(t, p));
                let i = choose|i: int| 0 <= i < t.len() && (#[trigger] t[i]).0 == p;
                assert(t[i] == s[i]);
                assert(s[i].0 == p);
            }
        }
        assert forall|p: Protocol| pairs_has_key(s, p) implies #[trigger] m.contains_key(p) by {
            let i = choose|i: int| 0 <= i < s.len() && (#[trigger] s[i]).0 == p;
            if i < s.len() - 1 {
                assert(t[i] == s[i]);
                assert(t[i].0 == p);
                assert(pairs_has_key(t, p));
                assert(entry_pairs_map(t).contains_key(p));
            }
        }
        assert forall|i: int| 0 <= i < s.len() implies m[(#[trigger] s[i]).0]
            == s[i].1@.to_set() by {
            if i < s.len() - 1 {
                assert(s[i].0 != s.last().0);
                assert(t[i] == s[i]);
                assert(entry_pairs_map(t)[t[i].0] == t[i].1@.to_set());
            }
        }
    }
}

impl ProtoEntry {
    /// Well-formed: keys are unique and every version set is ascending.
    pub closed spec fn wf(&self) -> bool {
        entry_pairs_wf(self.entries@)
    }

    /// The version set advertised for `protocol`, if any.
    pub fn get(&self, protocol: &Protocol) -> (r: Option<&ProtoSet>)
        requires
            self.wf(),
        ensures
            match r {
                Some(ps) => ps.wf() && self@.contains_key(*protocol) && ps@.to_set()
                    == self@[*protocol],
                None => !self@.contains_key(*protocol),
            },
    {
        proof {
            lemma_entry_pairs_map(self.entries@);
        }
        let mut i: usize = 0;
        while i < self.entries.len()
            invariant
                self.wf(),
                i <= self.entries@.len(),
                forall|j: int| 0 <= j < i ==> (#[trigger] self.entries@[j]).0 != *protocol,
            decreases self.entries@.len() - i,
        {
            if self.entries[i].0 == *protocol {
                proof {
                    lemma_entry_pairs_map(self.entries@);
                }
                return Some(&self.entries[i].1);
            }
            i = i + 1;
        }
        proof {
            lemma_entry_pairs_map(self.entries@);
            if self@.contains_key(*protocol) {
                let j = choose|j: int|
                    0 <= j < self.entries@.len() && (#[trigger] self.entries@[j]).0 == *protocol;
            }
        }
        None
    }

    /// Record `value` as the version set for `key`, replacing any
    /// earlier entry for the same protocol.
    pub fn insert(&mut self, key: Protocol, value: ProtoSet)
        requires
            old(self).wf(),
            value.wf(),
        ensures
            final(self).wf(),
            final(self)@ == old(self)@.insert(key, value@.to_set()),
    {
        // Drop any earlier entry for the key, then push the new pair.
        self.remove(&key);
        let ghost mid = self.entries@;
        proof {
            lemma_entry_pairs_map(mid);
            assert forall|j: int| 0 <= j < mid.len() implies (#[trigger] mid[j]).0 != key by {
                if mid[j].0 == key {
                    assert(entry_pairs_map(mid).contains_key(key));
                }
            }
        }
        self.entries.push((key, value));
        proof {
            assert(self.entries@.drop_last() =~= mid);
            assert(self.entries@.last() == (key, value));
            assert(entry_pairs_wf(self.entries@)) by {
                assert(forall|j: int| 0 <= j < mid.len() ==> self.entries@[j] == mid[j]);
            }
            assert(entry_pairs_map(self.entries@) == entry_pairs_map(mid).insert(
                key,
                value@.to_set(),
            ));
            assert(old(self)@.remove(key).insert(key, value@.to_set()) =~= old(self)@.insert(
                key,
                value@.to_set(),
            ));
        }
    }

    /// Remove and return the version set recorded for `key`, if any.
    pub fn remove(&mut self, key: &Protocol) -> (r: Option<ProtoSet>)
        requires
            old(self).wf(),
        ensures
            final(self).wf(),
            final(self)@ == old(self)@.remove(*key),
            match r {
                Some(ps) => ps.wf() && old(self)@.contains_key(*key) && ps@.to_set() == old(
                    self,
                )@[*key],
                None => !old(self)@.contains_key(*key),
            },
    {
        proof {
            lemma_entry_pairs_map(self.entries@);
        }
        let mut i: usize = 0;
        while i < self.entries.len()
            invariant
                self.wf(),
                self.entries@ == old(self).entries@,
                i <= self.entries@.len(),
                forall|j: int| 0 <= j < i ==> (#[trigger] self.entries@[j]).0 != *key,
            decreases self.entries@.len() - i,
        {
            if self.entries[i].0 == *key {
                let ghost before = self.entries@;
                let pair = self.entries.remove(i);
                proof {
                    assert(pair == before[i as int]);
                    lemma_entry_pairs_map(before);
                    lemma_pairs_map_remove(before, i as int, *key);
                    assert(forall|j: int| 0 <= j < i ==> self.entries@[j] == before[j]);
                    assert(forall|j: int|
                        i <= j < self.entries@.len() ==> self.entries@[j] == before[j + 1]);
                    assert(entry_pairs_wf(self.entries@));
                }
                return Some(pair.1);
            }
            i = i + 1;
        }
        proof {
            lemma_entry_pairs_map(self.entries@);
            if self@.contains_key(*key) {
                let j = choose|j: int|
                    0 <= j < self.entries@.len() && (#[trigger] self.entries@[j]).0 == *key;
            }
            assert(entry_pairs_map(self.entries@) =~= entry_pairs_map(self.entries@).remove(
                *key,
            ));
        }
        None
    }

    /// Whether no protocol is recorded.
    pub fn is_empty(&self) -> (r: bool)
        requires
            self.wf(),
        ensures
            r == (self@ == Map::<Protocol, Set<u32>>::empty()),
    {
        proof {
            if self.entries@.len() > 0 {
                lemma_entry_pairs_map(self.entries@);
                assert(self.entries@[self.entries@.len() - 1].0 == self.entries@.last().0);
                assert(self@.contains_key(self.entries@.last().0));
            } else {
                assert(self@ =~= Map::<Protocol, Set<u32>>::empty());
            }
        }
        self.entries.len() == 0
    }

    /// The recorded pairs of protocol and version set, as fresh copies.
    pub fn iter(&self) -> (r: Vec<(Protocol, ProtoSet)>)
        requires
            self.wf(),
        ensures
            entry_pairs_wf(r@),
            entry_pairs_map(r@) == self@,
    {
        let mut r: Vec<(Protocol, ProtoSet)> = Vec::new();
        let mut i: usize = 0;
        while i < self.entries.len()
            invariant
                self.wf(),
                i <= self.entries@.len(),
                r@.len() == i,
                forall|j: int|
                    0 <= j < i ==> (#[trigger] r@[j]).0 == self.entries@[j].0 && r@[j].1@
                        == self.entries@[j].1@,
            decreases self.entries@.len() - i,
    {
            let p = self.entries[i].0;
            let ps = self.entries[i].1.clone();
            r.push((p, ps));
            i = i + 1;
        }
        proof {
            lemma_pairs_map_congruent(r@, self.entries@);
        }
        r
    }
}

/// Parse one `name=versions` token.
pub(crate) fn parse_one_entry(t: &Vec<char>) -> (r: Result<(Protocol, ProtoSet), ProtoverError>)
    ensures
        match r {
            Ok(pv) => pv.1.wf() && (parse_entry_token(t@) matches Ok(sv) && sv.0 == pv.0 && sv.1
                == pv.1@.to_set()),
            Err(e) => parse_entry_token(t@) == Err::<(Protocol, Set<u32>), ProtoverError>(e),
        },
{
    let d = match find_char(t, '=') {
        None => {
            return Err(ProtoverError::Unparseable);
        },
        Some(d) => d,
    };
    if d == 0 {
        return Err(ProtoverError::Unparseable);
    }
    let n = t.len();
    proof {
        lemma_find_first(t@, '=');
        assert(d < n);
    }
    let vers_chars = crate::text::subvec(t, d + 1, n);
    let vs = match ProtoSet::from_chars(&vers_chars) {
        Ok(v) => v,
        Err(e) => {
            return Err(e);
        },
    };
    let name_chars = crate::text::subvec(t, 0, d);
    let p = match Protocol::from_chars(&name_chars) {
        Ok(p) => p,
        Err(e) => {
            return Err(e);
        },
    };
    Ok((p, vs))
}

impl ProtoEntry {
    /// Parse a whole entry string, e.g. `"Cons=3-4 HSDir=1"`: tokens
    /// separated by single spaces, each a `name=versions` pair against
    /// the known protocol names.  A repeated name keeps its last entry.
    pub fn from_str(s: &str) -> (r: Result<ProtoEntry, ProtoverError>)
        ensures
            match r {
                Ok(e) => e.wf() && parse_proto_entry(s@) == Ok::<
                    Map<Protocol, Set<u32>>,
                    ProtoverError,
                >(e@),
                Err(err) => parse_proto_entry(s@) == Err::<
                    Map<Protocol, Set<u32>>,
                    ProtoverError,
                >(err),
            },
    {
        let chars = to_char_vec(s);
        let tokens = split_char_vec(&chars, ' ');
        let ghost ts = split_at_char(s@, ' ');
        let mut e = ProtoEntry::default();
        let mut ti: usize = 0;
        proof {
            assert(ts.skip(0) =~~= ts);
        }
        while ti < tokens.len()
            invariant
                tokens.deep_view() == ts,
                ts == split_at_char(s@, ' '),
                ti <= ts.len(),
                e.wf(),
                parse_proto_entry(s@) == parse_entry_tokens(ts.skip(ti as int), e@),
            decreases ts.len() - ti,
        {
            let ghost rest = ts.skip(ti as int);
            proof {
                assert(rest[0] == ts[ti as int]);
                assert(rest.drop_first() =~~= ts.skip(ti + 1));
            }
            let t: &Vec<char> = &tokens[ti];
            proof {
                assert(t@ == tokens.deep_view()[ti as int]);
            }
            match parse_one_entry(t) {
                Ok(pv) => {
                    e.insert(pv.0, pv.1);
                },
                Err(err) => {
                    return Err(err);
                },
            }
            ti = ti + 1;
        }
        proof {
            assert(ts.skip(ti as int) =~~= Seq::<Seq<char>>::empty());
        }
        Ok(e)
    }

    /// The local node's own support table, parsed from its canonical
    /// entry string; the constant always parses.
    pub fn supported() -> (r: Result<ProtoEntry, ProtoverError>)
        ensures
            r matches Ok(e) && e.wf() && e@ == supported_map(),
    {
        proof {
            lemma_supported_table();
        }
        ProtoEntry::from_str(get_supported_protocols())
    }
}


/// Every protocol's name resolves back to it: the ten names are
/// pairwise distinct.
pub proof fn lemma_protocol_name_injective()
    ensures
        forall|p: Protocol| #[trigger] spec_protocol_from_name(spec_protocol_name(p)) == Some(p),
{
    reveal_strlit("Cons");
    reveal_strlit("Desc");
    reveal_strlit("DirCache");
    reveal_strlit("HSDir");
    reveal_strlit("HSIntro");
    reveal_strlit("HSRend");
    reveal_strlit("Link");
    reveal_strlit("LinkAuth");
    reveal_strlit("Microdesc");
    reveal_strlit("Relay");
    assert forall|p: Protocol| #[trigger] spec_protocol_from_name(spec_protocol_name(p)) == Some(
        p,
    ) by {
        match p {
            Protocol::Cons => {
            },
            Protocol::Desc => {
                assert("Desc"@ != "Cons"@) by {
                    assert("Desc"@[0] != "Cons"@[0]);
                }
            },
            Protocol::DirCache => {
                assert("DirCache"@ != "Cons"@ && "DirCache"@ != "Desc"@) by {
                    assert("DirCache"@.len() != "Cons"@.len());
                    assert("DirCache"@.len() != "Desc"@.len());
                }
            },
            Protocol::HSDir => {
                assert("HSDir"@ != "Cons"@ && "HSDir"@ != "Desc"@ && "HSDir"@ != "DirCache"@) by {
                    assert("HSDir"@.len() != "Cons"@.len());
                    assert("HSDir"@.len() != "DirCache"@.len());
                }
            },
            Protocol::HSIntro => {
                assert("HSIntro"@ != "Cons"@ && "HSIntro"@ != "Desc"@ && "HSIntro"@
                    != "DirCache"@ && "HSIntro"@ != "HSDir"@) by {
                    assert("HSIntro"@.len() == 7);
                }
            },
            Protocol::HSRend => {
                assert("HSRend"@ != "Cons"@ && "HSRend"@ != "Desc"@ && "HSRend"@ != "DirCache"@
                    && "HSRend"@ != "HSDir"@ && "HSRend"@ != "HSIntro"@) by {
                    assert("HSRend"@.len() == 6);
                }
            },
            Protocol::Link => {
                assert("Link"@ != "Cons"@ && "Link"@ != "Desc"@) by {
                    assert("Link"@[0] != "Cons"@[0]);
                    assert("Link"@[0] != "Desc"@[0]);
                }
                assert("Link"@ != "DirCache"@ && "Link"@ != "HSDir"@ && "Link"@ != "HSIntro"@
                    && "Link"@ != "HSRend"@) by {
                    assert("Link"@.len() == 4);
                }
            },
            Protocol::LinkAuth => {
                assert("LinkAuth"@ != "Cons"@ && "LinkAuth"@ != "Desc"@ && "LinkAuth"@
                    != "HSDir"@ && "LinkAuth"@ != "HSIntro"@ && "LinkAuth"@ != "HSRend"@
                    && "LinkAuth"@ != "Link"@) by {
                    assert("LinkAuth"@.len() == 8);
                }
                assert("LinkAuth"@ != "DirCache"@) by {
                    assert("LinkAuth"@[0] != "DirCache"@[0]);
                }
            },
            Protocol::Microdesc => {
                assert("Microdesc"@ != "Cons"@ && "Microdesc"@ != "Desc"@ && "Microdesc"@
                    != "DirCache"@ && "Microdesc"@ != "HSDir"@ && "Microdesc"@ != "HSIntro"@
                    && "Microdesc"@ != "HSRend"@ && "Microdesc"@ != "Link"@ && "Microdesc"@
                    != "LinkAuth"@) by {
                    assert("Microdesc"@.len() == 9);
                }
            },
            Protocol::Relay => {
                assert("Relay"@ != "Cons"@ && "Relay"@ != "Desc"@ && "Relay"@ != "DirCache"@
                    && "Relay"@ != "HSIntro"@ && "Relay"@ != "Link"@ && "Relay"@ != "LinkAuth"@
                    && "Relay"@ != "Microdesc"@) by {
                    assert("Relay"@.len() == 5);
                }
                assert("Relay"@ != "HSDir"@ && "Relay"@ != "HSRend"@) by {
                    assert("Relay"@[0] != "HSDir"@[0]);
                    assert("Relay"@[0] != "HSRend"@[0]);
                }
            },
        }
    }
}


/// The canonical rendering of an entry map: names sorted alphabetically,
/// each `name=versions` in the version set's canonical form, entries
/// with an empty version set omitted.
pub open spec fn spec_entry_strings(m: Map<Protocol, Set<u32>>) -> Map<Seq<char>, Seq<char>> {
    Map::new(
        |n: Seq<char>|
            spec_protocol_from_name(n) matches Some(p) && m.contains_key(p) && m[p] != Set::<
                u32,
            >::empty(),
        |n: Seq<char>| crate::protoset::encode_version_set(m[spec_protocol_from_name(n)->Some_0]),
    )
}

/// A rendered pair stems from one of the first `k` entry pairs.
pub open spec fn rendered_from(
    q: (Seq<char>, Seq<char>),
    pairs: Seq<(Protocol, ProtoSet)>,
    m: Map<Protocol, Set<u32>>,
    k: int,
) -> bool {
    exists|j: int|
        0 <= j < k && q.0 == spec_protocol_name((#[trigger] pairs[j]).0) && pairs[j].1@.to_set()
            != Set::<u32>::empty() && q.1 == crate::protoset::encode_version_set(m[pairs[j].0])
}

impl ProtoEntry {
    /// The canonical entry string: alphabetical by name, each version
    /// set compacted, empty sets omitted.
    pub fn to_string(&self) -> (r: String)
        requires
            self.wf(),
        ensures
            r@ == crate::vote::spec_write_vote(spec_entry_strings(self@)),
    {
        let pairs = self.iter();
        proof {
            lemma_entry_pairs_map(pairs@);
            lemma_protocol_name_injective();
        }
        let mut out_pairs: Vec<(String, String)> = Vec::new();
        let mut k: usize = 0;
        while k < pairs.len()
            invariant
                entry_pairs_wf(pairs@),
                entry_pairs_map(pairs@) == self@,
                k <= pairs@.len(),
                forall|p2: Protocol| #[trigger]
                    spec_protocol_from_name(spec_protocol_name(p2)) == Some(p2),
                forall|e: int|
                    0 <= e < out_pairs.deep_view().len() ==> #[trigger] out_pairs.deep_view()[e]
                        == (out_pairs@[e].0@, out_pairs@[e].1@),
                forall|e: int|
                    0 <= e < out_pairs.deep_view().len() ==> rendered_from(
                        #[trigger] out_pairs.deep_view()[e],
                        pairs@,
                        self@,
                        k as int,
                    ),
                forall|a: int, b: int|
                    0 <= a < b < out_pairs.deep_view().len() ==> (
                    #[trigger] out_pairs.deep_view()[a]).0 != (
                    #[trigger] out_pairs.deep_view()[b]).0,
                forall|j: int|
                    0 <= j < k && (#[trigger] pairs@[j]).1@.to_set() != Set::<u32>::empty()
                        ==> crate::vote::pairs_has_name(
                        out_pairs.deep_view(),
                        spec_protocol_name(pairs@[j].0),
                    ),
            decreases pairs@.len() - k,
        {
            let p = pairs[k].0;
            let ps = &pairs[k].1;
            let ghost dv = out_pairs.deep_view();
            proof {
                lemma_entry_pairs_map(pairs@);
            }
            if !ps.is_empty() {
                let nm = String::from_str(p.name());
                let enc = ps.to_string();
                proof {
                    crate::protoset::lemma_sorted_strict_set_len(ps@);
                    crate::protoset::lemma_sorted_of(ps@.to_set());
                    crate::protoset::lemma_sorted_strict_unique(
                        crate::protoset::sorted_of(ps@.to_set()),
                        ps@,
                    );
                    assert(entry_pairs_map(pairs@)[pairs@[k as int].0] == pairs@[k as int].1@.to_set());
                    assert(enc@ == crate::protoset::encode_version_set(self@[p]));
                    assert(ps@.to_set().contains(ps@[0]));
                    assert(self@[p] != Set::<u32>::empty());
                }
                out_pairs.push((nm, enc));
                proof {
                    let e = out_pairs.deep_view();
                    assert(forall|i: int|
                        0 <= i < e.len() ==> #[trigger] e[i] == (out_pairs@[i].0@, out_pairs@[i].1@));
                    assert(forall|i: int| 0 <= i < dv.len() ==> e[i] == dv[i]);
                    assert(e[e.len() - 1] == (spec_protocol_name(p), enc@));
                    assert(rendered_from(e[e.len() - 1], pairs@, self@, k + 1)) by {
                        assert(pairs@[k as int].0 == p);
                    }
                    assert forall|a: int, b: int|
                        0 <= a < b < e.len() implies (#[trigger] e[a]).0 != (
                        #[trigger] e[b]).0 by {
                        if b == e.len() - 1 {
                            assert(rendered_from(e[a], pairs@, self@, k as int));
                            let j = choose|j: int|
                                0 <= j < k && e[a].0 == spec_protocol_name(
                                    (#[trigger] pairs@[j]).0,
                                ) && pairs@[j].1@.to_set() != Set::<u32>::empty() && e[a].1
                                    == crate::protoset::encode_version_set(self@[pairs@[j].0]);
                            if e[a].0 == e[b].0 {
                                assert(spec_protocol_from_name(spec_protocol_name(pairs@[j].0))
                                    == Some(pairs@[j].0));
                                assert(pairs@[j].0 == p);
                            }
                        }
                    }
                    assert forall|j: int|
                        0 <= j < k + 1 && (#[trigger] pairs@[j]).1@.to_set() != Set::<
                            u32,
                        >::empty() implies crate::vote::pairs_has_name(
                        e,
                        spec_protocol_name(pairs@[j].0),
                    ) by {
                        if j < k {
                            assert(crate::vote::pairs_has_name(dv, spec_protocol_name(pairs@[j].0)));
                            let i2 = choose|i2: int|
                                0 <= i2 < dv.len() && (#[trigger] dv[i2]).0 == spec_protocol_name(
                                    pairs@[j].0,
                                );
                            assert(e[i2].0 == spec_protocol_name(pairs@[j].0));
                        } else {
                            assert(e[e.len() - 1].0 == spec_protocol_name(pairs@[j].0));
                        }
                    }
                    assert(forall|e2: int|
                        0 <= e2 < e.len() ==> rendered_from(
                            #[trigger] e[e2],
                            pairs@,
                            self@,
                            k + 1,
                        ));
                }
            } else {
                proof {
                    assert(entry_pairs_map(pairs@)[pairs@[k as int].0] == pairs@[k as int].1@.to_set());
                    assert(forall|e2: int|
                        0 <= e2 < dv.len() ==> rendered_from(#[trigger] dv[e2], pairs@, self@, k + 1));
                    assert(pairs@[k as int].1@.to_set() =~= Set::<u32>::empty());
                }
            }
            k = k + 1;
        }
        proof {
            lemma_entry_pairs_map(pairs@);
            let dv = out_pairs.deep_view();
            crate::vote::lemma_pairs_to_map(dv);
            assert(crate::vote::pairs_to_map(dv) =~= spec_entry_strings(self@)) by {
                assert forall|n: Seq<char>| #[trigger]
                    crate::vote::pairs_to_map(dv).contains_key(n) implies spec_entry_strings(
                    self@,
                ).contains_key(n) && crate::vote::pairs_to_map(dv)[n] == spec_entry_strings(
                    self@,
                )[n] by {
                    let e2 = choose|e2: int| 0 <= e2 < dv.len() && (#[trigger] dv[e2]).0 == n;
                    assert(rendered_from(dv[e2], pairs@, self@, pairs@.len() as int));
                    let j = choose|j: int|
                        0 <= j < pairs@.len() && dv[e2].0 == spec_protocol_name(
                            (#[trigger] pairs@[j]).0,
                        ) && pairs@[j].1@.to_set() != Set::<u32>::empty() && dv[e2].1
                            == crate::protoset::encode_version_set(self@[pairs@[j].0]);
                    let q = pairs@[j].0;
                    assert(entry_pairs_map(pairs@).contains_key(q)) by {
                        assert(pairs@[j].0 == q);
                    }
                    assert(spec_protocol_from_name(n) == Some(q));
                    assert(crate::vote::pairs_to_map(dv)[dv[e2].0] == dv[e2].1);
                }
                assert forall|n: Seq<char>| #[trigger]
                    spec_entry_strings(self@).contains_key(n) implies crate::vote::pairs_to_map(
                    dv,
                ).contains_key(n) by {
                    let q = spec_protocol_from_name(n)->Some_0;
                    assert(self@.contains_key(q) && self@[q] != Set::<u32>::empty());
                    assert(n == spec_protocol_name(q));
                    let j = choose|j: int|
                        0 <= j < pairs@.len() && (#[trigger] pairs@[j]).0 == q;
                    assert(pairs@[j].1@.to_set() == self@[q]);
                    assert(crate::vote::pairs_has_name(dv, spec_protocol_name(pairs@[j].0)));
                    let e2 = choose|e2: int|
                        0 <= e2 < dv.len() && (#[trigger] dv[e2]).0 == spec_protocol_name(
                            pairs@[j].0,
                        );
                }
            }
        }
        write_vote_to_string(&out_pairs)
    }
}


/// The version sets the local node advertises, per protocol.
pub open spec fn supported_map() -> Map<Protocol, Set<u32>> {
    Map::new(
        |p: Protocol| true,
        |p: Protocol|
            match p {
                Protocol::Cons => crate::protoset::version_range(1, 2),
                Protocol::Desc => crate::protoset::version_range(1, 2),
                Protocol::DirCache => crate::protoset::version_range(1, 2),
                Protocol::HSDir => crate::protoset::version_range(1, 2),
                Protocol::HSIntro => crate::protoset::version_range(3, 4),
                Protocol::HSRend => crate::protoset::version_range(1, 2),
                Protocol::Link => crate::protoset::version_range(1, 5),
                Protocol::LinkAuth => Set::<u32>::empty().insert(1).insert(3),
                Protocol::Relay => crate::protoset::version_range(1, 2),
                Protocol::Microdesc => crate::protoset::version_range(1, 2),
            },
    )
}

/// A version list in canonical range form parses to its range.
proof fn lemma_version_list_range(lo: u32, hi: u32)
    requires
        lo < hi,
        hi < u32::MAX,
        hi - lo < MAX_PROTOCOLS_TO_EXPAND,
    ensures
        parse_versions(
            crate::text::dec_str(lo as int) + seq!['-'] + crate::text::dec_str(hi as int),
        ) == Ok::<Set<u32>, ProtoverError>(crate::protoset::version_range(lo, hi)),
{
    let t = crate::text::dec_str(lo as int) + seq!['-'] + crate::text::dec_str(hi as int);
    crate::text::lemma_dec_str_val(lo as int);
    crate::text::lemma_dec_str_val(hi as int);
    assert(forall|j: int| 0 <= j < t.len() ==> t[j] != ',') by {
        let a = crate::text::dec_str(lo as int);
        let b = crate::text::dec_str(hi as int);
        assert(forall|j: int| 0 <= j < a.len() ==> crate::text::is_digit(#[trigger] a[j]));
        assert(forall|j: int| 0 <= j < b.len() ==> crate::text::is_digit(#[trigger] b[j]));
        assert(forall|j: int|
            0 <= j < t.len() ==> #[trigger] t[j] == (a + seq!['-'] + b)[j]);
    }
    crate::text::lemma_split_if_whole(t, crate::text::eq_sep(','));
    let ts = crate::text::split_at_char(t, ',');
    assert(ts == seq![t]);
    assert(ts[0] == t);
    crate::protoset::lemma_parse_range_token_pub(lo, hi);
    let u = Set::<u32>::empty().union(crate::protoset::version_range(lo, hi));
    crate::protoset::lemma_version_range_len(lo, hi);
    assert(u =~= crate::protoset::version_range(lo, hi));
    assert(u.len() <= MAX_PROTOCOLS_TO_EXPAND);
    assert(ts.drop_first() =~~= Seq::<Seq<char>>::empty());
    assert(crate::protoset::parse_version_tokens(Seq::<Seq<char>>::empty(), u) == Ok::<
        Set<u32>,
        ProtoverError,
    >(u));
}

/// One entry token with a known name and a parsing version list parses
/// to the pair.
proof fn lemma_known_entry_token(p: Protocol, vers: Seq<char>, vs: Set<u32>)
    requires
        parse_versions(vers) == Ok::<Set<u32>, ProtoverError>(vs),
        spec_protocol_name(p).len() > 0,
        forall|j: int|
            0 <= j < spec_protocol_name(p).len() ==> #[trigger] spec_protocol_name(p)[j] != '=',
    ensures
        parse_entry_token(spec_protocol_name(p) + seq!['='] + vers) == Ok::<
            (Protocol, Set<u32>),
            ProtoverError,
        >((p, vs)),
{
    let name = spec_protocol_name(p);
    let t = name + seq!['='] + vers;
    assert(t[name.len() as int] == '=');
    assert(forall|j: int| 0 <= j < name.len() ==> #[trigger] t[j] == name[j]);
    crate::protoset::lemma_find_first_at_pub(t, '=', name.len() as int);
    assert(t.subrange(0, name.len() as int) =~= name);
    assert(t.subrange(name.len() as int + 1, t.len() as int) =~= vers);
    lemma_protocol_name_injective();
}


/// The node's own entry string parses, giving each protocol exactly the
/// versions it advertises.
#[verifier::rlimit(100)]
pub proof fn lemma_supported_table()
    ensures
        parse_proto_entry(spec_supported_protocols()) == Ok::<
            Map<Protocol, Set<u32>>,
            ProtoverError,
        >(supported_map()),
{
    reveal_strlit(
        "Cons=1-2 Desc=1-2 DirCache=1-2 HSDir=1-2 HSIntro=3-4 HSRend=1-2 Link=1-5 LinkAuth=1,3 Microdesc=1-2 Relay=1-2",
    );
    reveal_strlit("Cons");
    reveal_strlit("Desc");
    reveal_strlit("DirCache");
    reveal_strlit("HSDir");
    reveal_strlit("HSIntro");
    reveal_strlit("HSRend");
    reveal_strlit("Link");
    reveal_strlit("LinkAuth");
    reveal_strlit("Microdesc");
    reveal_strlit("Relay");

    // The concrete version-list texts.
    assert(crate::text::dec_str(1) =~= seq!['1']);
    assert(crate::text::dec_str(2) =~= seq!['2']);
    assert(crate::text::dec_str(3) =~= seq!['3']);
    assert(crate::text::dec_str(4) =~= seq!['4']);
    assert(crate::text::dec_str(5) =~= seq!['5']);
    let v12 = crate::text::dec_str(1) + seq!['-'] + crate::text::dec_str(2);
    let v34 = crate::text::dec_str(3) + seq!['-'] + crate::text::dec_str(4);
    let v15 = crate::text::dec_str(1) + seq!['-'] + crate::text::dec_str(5);
    assert(v12 =~= seq!['1', '-', '2']);
    assert(v34 =~= seq!['3', '-', '4']);
    assert(v15 =~= seq!['1', '-', '5']);
    lemma_version_list_range(1, 2);
    lemma_version_list_range(3, 4);
    lemma_version_list_range(1, 5);

    // The one non-contiguous list is the canonical encoding of `[1, 3]`.
    let s13 = seq![1u32, 3u32];
    let v13 = seq!['1', ',', '3'];
    assert(crate::protoset::sorted_strict(s13));
    assert(crate::protoset::encode_versions(s13) =~= v13) by {
        assert(crate::protoset::run_end(s13, 0) == 0);
        assert(s13.skip(1) =~= seq![3u32]);
        assert(crate::protoset::run_end(seq![3u32], 0) == 0);
        assert(crate::protoset::encode_versions(seq![3u32]) == crate::text::dec_str(3));
    }
    assert(forall|i: int| 0 <= i < s13.len() ==> #[trigger] s13[i] < u32::MAX);
    crate::protoset::lemma_decode_encode(s13);
    let set13 = Set::<u32>::empty().insert(1).insert(3);
    assert(s13.to_set() =~= set13) by {
        assert(s13[0] == 1u32 && s13[1] == 3u32);
        assert(s13.contains(1u32) && s13.contains(3u32));
    }

    // The ten entry tokens.
    let t0 = spec_protocol_name(Protocol::Cons) + seq!['='] + v12;
    let t1 = spec_protocol_name(Protocol::Desc) + seq!['='] + v12;
    let t2 = spec_protocol_name(Protocol::DirCache) + seq!['='] + v12;
    let t3 = spec_protocol_name(Protocol::HSDir) + seq!['='] + v12;
    let t4 = spec_protocol_name(Protocol::HSIntro) + seq!['='] + v34;
    let t5 = spec_protocol_name(Protocol::HSRend) + seq!['='] + v12;
    let t6 = spec_protocol_name(Protocol::Link) + seq!['='] + v15;
    let t7 = spec_protocol_name(Protocol::LinkAuth) + seq!['='] + v13;
    let t8 = spec_protocol_name(Protocol::Microdesc) + seq!['='] + v12;
    let t9 = spec_protocol_name(Protocol::Relay) + seq!['='] + v12;

    // Splitting on spaces recovers the tokens, assembled from the back.
    assert(forall|j: int| 0 <= j < t0.len() ==> #[trigger] t0[j] != ' ');
    assert(forall|j: int| 0 <= j < t1.len() ==> #[trigger] t1[j] != ' ');
    assert(forall|j: int| 0 <= j < t2.len() ==> #[trigger] t2[j] != ' ');
    assert(forall|j: int| 0 <= j < t3.len() ==> #[trigger] t3[j] != ' ');
    assert(forall|j: int| 0 <= j < t4.len() ==> #[trigger] t4[j] != ' ');
    assert(forall|j: int| 0 <= j < t5.len() ==> #[trigger] t5[j] != ' ');
    assert(forall|j: int| 0 <= j < t6.len() ==> #[trigger] t6[j] != ' ');
    assert(forall|j: int| 0 <= j < t7.len() ==> #[trigger] t7[j] != ' ');
    assert(forall|j: int| 0 <= j < t8.len() ==> #[trigger] t8[j] != ' ');
    assert(forall|j: int| 0 <= j < t9.len() ==> #[trigger] t9[j] != ' ');
    crate::text::lemma_split_whole(t9, ' ');
    let w8 = t8 + seq![' '] + t9;
    crate::text::lemma_split_head(t8, ' ', t9);
    assert(crate::text::split_at_char(w8, ' ') =~~= seq![t8, t9]);
    let w7 = t7 + seq![' '] + w8;
    crate::text::lemma_split_head(t7, ' ', w8);
    assert(crate::text::split_at_char(w7, ' ') =~~= seq![t7, t8, t9]);
    let w6 = t6 + seq![' '] + w7;
    crate::text::lemma_split_head(t6, ' ', w7);
    assert(crate::text::split_at_char(w6, ' ') =~~= seq![t6, t7, t8, t9]);
    let w5 = t5 + seq![' '] + w6;
    crate::text::lemma_split_head(t5, ' ', w6);
    assert(crate::text::split_at_char(w5, ' ') =~~= seq![t5, t6, t7, t8, t9]);
    let w4 = t4 + seq![' '] + w5;
    crate::text::lemma_split_head(t4, ' ', w5);
    assert(crate::text::split_at_char(w4, ' ') =~~= seq![t4, t5, t6, t7, t8, t9]);
    let w3 = t3 + seq![' '] + w4;
    crate::text::lemma_split_head(t3, ' ', w4);
    assert(crate::text::split_at_char(w3, ' ') =~~= seq![t3, t4, t5, t6, t7, t8, t9]);
    let w2 = t2 + seq![' '] + w3;
    crate::text::lemma_split_head(t2, ' ', w3);
    assert(crate::text::split_at_char(w2, ' ') =~~= seq![t2, t3, t4, t5, t6, t7, t8, t9]);
    let w1 = t1 + seq![' '] + w2;
    crate::text::lemma_split_head(t1, ' ', w2);
    assert(crate::text::split_at_char(w1, ' ') =~~= seq![t1, t2, t3, t4, t5, t6, t7, t8, t9]);
    let w0 = t0 + seq![' '] + w1;
    crate::text::lemma_split_head(t0, ' ', w1);
    let toks = seq![t0, t1, t2, t3, t4, t5, t6, t7, t8, t9];
    assert(crate::text::split_at_char(w0, ' ') =~~= toks);
    assert(spec_supported_protocols() =~= w0);
    assert(crate::text::split_at_char(spec_supported_protocols(), ' ') == toks);

    // Each token parses to its protocol and version set.
    lemma_known_entry_token(Protocol::Cons, v12, crate::protoset::version_range(1, 2));
    lemma_known_entry_token(Protocol::Desc, v12, crate::protoset::version_range(1, 2));
    lemma_known_entry_token(Protocol::DirCache, v12, crate::protoset::version_range(1, 2));
    lemma_known_entry_token(Protocol::HSDir, v12, crate::protoset::version_range(1, 2));
    lemma_known_entry_token(Protocol::HSIntro, v34, crate::protoset::version_range(3, 4));
    lemma_known_entry_token(Protocol::HSRend, v12, crate::protoset::version_range(1, 2));
    lemma_known_entry_token(Protocol::Link, v15, crate::protoset::version_range(1, 5));
    lemma_known_entry_token(Protocol::LinkAuth, v13, set13);
    lemma_known_entry_token(Protocol::Microdesc, v12, crate::protoset::version_range(1, 2));
    lemma_known_entry_token(Protocol::Relay, v12, crate::protoset::version_range(1, 2));

    // Fold the tokens into the table, last entry winning (none repeat).
    let m0 = Map::<Protocol, Set<u32>>::empty();
    let m1 = m0.insert(Protocol::Cons, crate::protoset::version_range(1, 2));
    let m2 = m1.insert(Protocol::Desc, crate::protoset::version_range(1, 2));
    let m3 = m2.insert(Protocol::DirCache, crate::protoset::version_range(1, 2));
    let m4 = m3.insert(Protocol::HSDir, crate::protoset::version_range(1, 2));
    let m5 = m4.insert(Protocol::HSIntro, crate::protoset::version_range(3, 4));
    let m6 = m5.insert(Protocol::HSRend, crate::protoset::version_range(1, 2));
    let m7 = m6.insert(Protocol::Link, crate::protoset::version_range(1, 5));
    let m8 = m7.insert(Protocol::LinkAuth, set13);
    let m9 = m8.insert(Protocol::Microdesc, crate::protoset::version_range(1, 2));
    let m10 = m9.insert(Protocol::Relay, crate::protoset::version_range(1, 2));
    assert(toks.drop_first() =~~= seq![t1, t2, t3, t4, t5, t6, t7, t8, t9]);
    assert(seq![t1, t2, t3, t4, t5, t6, t7, t8, t9].drop_first() =~~= seq![t2, t3, t4, t5, t6, t7, t8, t9]);
    assert(seq![t2, t3, t4, t5, t6, t7, t8, t9].drop_first() =~~= seq![t3, t4, t5, t6, t7, t8, t9]);
    assert(seq![t3, t4, t5, t6, t7, t8, t9].drop_first() =~~= seq![t4, t5, t6, t7, t8, t9]);
    assert(seq![t4, t5, t6, t7, t8, t9].drop_first() =~~= seq![t5, t6, t7, t8, t9]);
    assert(seq![t5, t6, t7, t8, t9].drop_first() =~~= seq![t6, t7, t8, t9]);
    assert(seq![t6, t7, t8, t9].drop_first() =~~= seq![t7, t8, t9]);
    assert(seq![t7, t8, t9].drop_first() =~~= seq![t8, t9]);
    assert(seq![t8, t9].drop_first() =~~= seq![t9]);
    assert(seq![t8, t9].drop_first() =~~= seq![t9]);
    assert(seq![t9].drop_first() =~~= Seq::<Seq<char>>::empty());
    assert(parse_entry_tokens(Seq::<Seq<char>>::empty(), m10) == Ok::<Map<Protocol, Set<u32>>, ProtoverError>(m10));

    assert(parse_entry_tokens(toks, m0) == parse_entry_tokens(seq![t1, t2, t3, t4, t5, t6, t7, t8, t9], m1));
    assert(parse_entry_tokens(seq![t1, t2, t3, t4, t5, t6, t7, t8, t9], m1) == parse_entry_tokens(seq![t2, t3, t4, t5, t6, t7, t8, t9], m2));
    assert(parse_entry_tokens(seq![t2, t3, t4, t5, t6, t7, t8, t9], m2) == parse_entry_tokens(seq![t3, t4, t5, t6, t7, t8, t9], m3));
    assert(parse_entry_tokens(seq![t3, t4, t5, t6, t7, t8, t9], m3) == parse_entry_tokens(seq![t4, t5, t6, t7, t8, t9], m4));
    assert(parse_entry_tokens(seq![t4, t5, t6, t7, t8, t9], m4) == parse_entry_tokens(seq![t5, t6, t7, t8, t9], m5));
    assert(parse_entry_tokens(seq![t5, t6, t7, t8, t9], m5) == parse_entry_tokens(seq![t6, t7, t8, t9], m6));
    assert(parse_entry_tokens(seq![t6, t7, t8, t9], m6) == parse_entry_tokens(seq![t7, t8, t9], m7));
    assert(parse_entry_tokens(seq![t7, t8, t9], m7) == parse_entry_tokens(seq![t8, t9], m8));
    assert(parse_entry_tokens(seq![t8, t9], m8) == parse_entry_tokens(seq![t9], m9));
    assert(parse_entry_tokens(seq![t9], m9) == parse_entry_tokens(Seq::<Seq<char>>::empty(), m10));
    assert(parse_proto_entry(spec_supported_protocols()) == parse_entry_tokens(toks, m0));
    assert(m10 =~= supported_map());
}

/// Dropping the pair at `i` removes exactly its key from the denoted
/// map.
proof fn lemma_pairs_map_remove(before: Seq<(Protocol, ProtoSet)>, i: int, key: Protocol)
    requires
        forall|p: int, q: int|
            0 <= p < q < before.len() ==> (#[trigger] before[p]).0 != (#[trigger] before[q]).0,
        0 <= i < before.len(),
        before[i].0 == key,
    ensures
        entry_pairs_map(before.remove(i)) == entry_pairs_map(before).remove(key),
{
    let after = before.remove(i);
    assert(forall|j: int| 0 <= j < i ==> after[j] == before[j]);
    assert(forall|j: int| i <= j < after.len() ==> after[j] == before[j + 1]);
    assert(forall|p: int, q: int|
        0 <= p < q < after.len() ==> (#[trigger] after[p]).0 != (#[trigger] after[q]).0);
    lemma_entry_pairs_map(before);
    lemma_entry_pairs_map(after);
    assert(entry_pairs_map(after) =~= entry_pairs_map(before).remove(key)) by {
        assert forall|p: Protocol| #[trigger]
            entry_pairs_map(after).contains_key(p) implies entry_pairs_map(before).remove(
            key,
        ).contains_key(p) && entry_pairs_map(after)[p] == entry_pairs_map(before).remove(
            key,
        )[p] by {
            let j = choose|j: int| 0 <= j < after.len() && (#[trigger] after[j]).0 == p;
            if j < i {
                assert(before[j].0 == p);
            } else {
                assert(before[j + 1].0 == p);
            }
        }
        assert forall|p: Protocol| #[trigger]
            entry_pairs_map(before).remove(key).contains_key(p) implies entry_pairs_map(
            after,
        ).contains_key(p) by {
            let j = choose|j: int| 0 <= j < before.len() && (#[trigger] before[j]).0 == p;
            assert(j != i);
            if j < i {
                assert(after[j].0 == p);
            } else {
                assert(after[j - 1].0 == p);
            }
        }
    }
}

/// Two pair lists whose pairs carry equal keys and equal version views
/// denote the same map.
proof fn lemma_pairs_map_congruent(a: Seq<(Protocol, ProtoSet)>, b: Seq<(Protocol, ProtoSet)>)
    requires
        a.len() == b.len(),
        forall|j: int|
            0 <= j < a.len() ==> (#[trigger] a[j]).0 == b[j].0 && a[j].1@ == b[j].1@,
    ensures
        entry_pairs_map(a) == entry_pairs_map(b),
    decreases a.len(),
{
    if a.len() > 0 {
        assert(forall|j: int|
            0 <= j < a.len() - 1 ==> a.drop_last()[j] == a[j] && b.drop_last()[j] == b[j]);
        lemma_pairs_map_congruent(a.drop_last(), b.drop_last());
        assert(a.last().0 == b.last().0 && a.last().1@ == b.last().1@);
        assert(entry_pairs_map(a) =~= entry_pairs_map(b));
    }
}

} // verus!
