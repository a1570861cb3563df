//! Support queries: whether advertised protocol versions are supported,
//! by this node or by a given protocol list.

use vstd::prelude::*;
use crate::entries::{parse_entry_token, parse_one_entry, parse_proto_entry, ProtoEntry, Protocol};
use crate::text::{
    chars_to_string, join_with, lemma_filter_push, lemma_join_with_push, space_pred, split_if,
    split_space_vec, to_char_vec,
};

verus! {

/// Whether one entry is well-formed and every version it advertises is
/// also supported by this node.
pub open spec fn spec_entry_supported(e: Seq<char>) -> bool {
    match parse_entry_token(e) {
        Err(_) => false,
        Ok(pv) => pv.1.subset_of(crate::entries::supported_map()[pv.0]),
    }
}

/// Whether a single entry advertises only versions this node supports.
pub fn contains_only_supported_protocols(proto_entry: &str) -> (r: bool)
    ensures
        r == spec_entry_supported(proto_entry@),
{
    let chars = to_char_vec(proto_entry);
    entry_supported_chars(&chars)
}

/// As [`contains_only_supported_protocols`], over a character vector.
pub(crate) fn entry_supported_chars(t: &Vec<char>) -> (r: bool)
    ensures
        r == spec_entry_supported(t@),
{
    let pv = match parse_one_entry(t) {
        Ok(pv) => pv,
        Err(_) => {
            return false;
        },
    };
    let local = match ProtoEntry::supported() {
        Ok(l) => l,
        Err(_) => {
            return false;
        },
    };
    let lv = match local.get(&pv.0) {
        Some(lv) => lv,
        None => {
            proof {
                assert(crate::entries::supported_map().contains_key(pv.0));
            }
            return false;
        },
    };
    pv.1.is_subset_of(lv)
}

/// The predicate keeping the whitespace-split tokens that the
/// unsupported-entries report lists: non-empty tokens that are not
/// fully supported.
pub open spec fn unsupported_pred() -> spec_fn(Seq<char>) -> bool {
    |t: Seq<char>| t.len() > 0 && !spec_entry_supported(t)
}

/// The entries of an advertisement that this node does not fully
/// support, in their original relative order.
pub open spec fn spec_unsupported_entries(s: Seq<char>) -> Seq<Seq<char>> {
    split_if(s, space_pred()).filter(unsupported_pred())
}

/// Whether this node supports every version of every entry that the
/// whitespace-separated advertisement `protocols` lists; alongside, the
/// entries it does not fully support, joined by single spaces in their
/// original order.
pub fn all_supported(protocols: &str) -> (r: (bool, String))
    ensures
        r.0 == (spec_unsupported_entries(protocols@).len() == 0),
        r.1@ == join_with(spec_unsupported_entries(protocols@), " "@),
{
    let chars = to_char_vec(protocols);
    let tokens = split_space_vec(&chars);
    let ghost ws = split_if(protocols@, space_pred());
    let mut out: Vec<char> = Vec::new();
    let mut none_kept: bool = true;
    let ghost mut kept = Seq::<Seq<char>>::empty();
    let mut ti: usize = 0;
    proof {
        reveal(Seq::filter);
        assert(ws.take(0) =~~= Seq::<Seq<char>>::empty());
        assert(Seq::<Seq<char>>::empty().filter(unsupported_pred())
            =~~= Seq::<Seq<char>>::empty());
    }
    while ti < tokens.len()
        invariant
            tokens.deep_view() == ws,
            ws == split_if(protocols@, space_pred()),
            ti <= ws.len(),
            kept == ws.take(ti as int).filter(unsupported_pred()),
            out@ == join_with(kept, " "@),
            none_kept == (kept.len() == 0),
        decreases ws.len() - ti,
    {
        let t: &Vec<char> = &tokens[ti];
        proof {
            assert(t@ == tokens.deep_view()[ti as int]);
            assert(ws.take(ti + 1) =~~= ws.take(ti as int).push(ws[ti as int]));
            lemma_filter_push(ws.take(ti as int), unsupported_pred(), ws[ti as int]);
            assert(unsupported_pred()(t@) == (t@.len() > 0 && !spec_entry_supported(t@)));
        }
        if t.len() > 0 && !entry_supported_chars(t) {
            proof {
                lemma_join_with_push(kept, " "@, t@);
                reveal_strlit(" ");
            }
            if !none_kept {
                out.push(' ');
                proof {
                    assert(out@ =~= join_with(kept, " "@) + " "@);
                }
            }
            let mut k: usize = 0;
            let ghost base = out@;
            while k < t.len()
                invariant
                    k <= t@.len(),
                    out@ == base + t@.take(k as int),
                decreases t@.len() - k,
            {
                out.push(t[k]);
                k = k + 1;
                proof {
                    assert(out@ =~= base + t@.take(k as int));
                }
            }
            proof {
                assert(t@.take(t@.len() as int) =~= t@);
                kept = kept.push(t@);
                if kept.len() == 1 {
                    assert(base + t@ =~= t@);
                }
            }
            none_kept = false;
        }
        ti = ti + 1;
    }
    proof {
        assert(ws.take(ti as int) =~~= ws);
    }
    let joined = chars_to_string(&out);
    (none_kept, joined)
}

/// Whether the protocol list names `proto` and advertises exactly the
/// queried version for it.
pub fn protover_string_supports_protocol(list: &str, proto: Protocol, vers: u32) -> (r: bool)
    ensures
        r == match parse_proto_entry(list@) {
            Err(_) => false,
            Ok(m) => m.contains_key(proto) && m[proto].contains(vers),
        },
{
    let entry = match ProtoEntry::from_str(list) {
        Ok(e) => e,
        Err(_) => {
            return false;
        },
    };
    let ps = match entry.get(&proto) {
        Some(ps) => ps,
        None => {
            return false;
        },
    };
    let r = ps.contains(vers);
    proof {
        if ps@.contains(vers) {
            assert(ps@.to_set().contains(vers));
        } else {
            assert(!ps@.to_set().contains(vers));
        }
    }
    r
}

/// Whether the protocol list names `proto` and advertises the queried
/// version or any later one for it.
pub fn protover_string_supports_protocol_or_later(list: &str, proto: Protocol, vers: u32) -> (r:
    bool)
    ensures
        r == match parse_proto_entry(list@) {
            Err(_) => false,
            Ok(m) => m.contains_key(proto) && (exists|v: u32| m[proto].contains(v) && v >= vers),
        },
{
    let entry = match ProtoEntry::from_str(list) {
        Ok(e) => e,
        Err(_) => {
            return false;
        },
    };
    let ps = match entry.get(&proto) {
        Some(ps) => ps,
        None => {
            return false;
        },
    };
    let r = ps.supports_or_later(vers);
    proof {
        if r {
            let i = choose|i: int| 0 <= i < ps@.len() && ps@[i] >= vers;
            assert(ps@.to_set().contains(ps@[i]));
        } else {
            assert forall|v: u32| ps@.to_set().contains(v) implies v < vers by {
                let i = choose|i: int| 0 <= i < ps@.len() && ps@[i] == v;
            }
        }
    }
    r
}

/// Whether this node itself supports the given version of `proto`.
pub fn is_supported_here(proto: Protocol, vers: u32) -> (r: bool)
    ensures
        r == crate::entries::supported_map()[proto].contains(vers),
{
    let local = match ProtoEntry::supported() {
        Ok(l) => l,
        Err(_) => {
            return false;
        },
    };
    let ps = match local.get(&proto) {
        Some(ps) => ps,
        None => {
            return false;
        },
    };
    let r = ps.contains(vers);
    proof {
        if ps@.contains(vers) {
            assert(ps@.to_set().contains(vers));
        } else {
            assert(!ps@.to_set().contains(vers));
        }
    }
    r
}

} // verus!
