//! Character-level utilities shared by the parsers and encoders:
//! conversion between `&str` and character vectors, decimal numerals,
//! separator splitting and joining, and lexicographic order on names.

use vstd::prelude::*;

verus! {

/// The characters of `s`, in order.
pub fn to_char_vec(s: &str) -> (v: Vec<char>)
    ensures
        v@ == s@,
{
    let n: usize = s.unicode_len();
    let mut v: Vec<char> = Vec::new();
    let mut i: usize = 0;
    while i < n
        invariant
            n == s@.len(),
            i <= n,
            v@ == s@.take(i as int),
        decreases n - i,
    {
        let c = s.get_char(i);
        v.push(c);
        i = i + 1;
        proof {
            assert(v@ =~= s@.take(i as int));
        }
    }
    proof {
        assert(v@ =~= s@);
    }
    v
}

/// Builds the string holding exactly the given characters.
///
/// Relies on `String: FromIterator<char>` via `Iterator::collect`, which
/// the standard library documents as concatenating the yielded characters.
#[verifier::external_body]
pub fn chars_to_string(v: &Vec<char>) -> (s: String)
    ensures
        s@ == v@,
{
    v.iter().collect()
}

/// Character-for-character equality of two string slices.
pub fn str_eq(a: &str, b: &str) -> (r: bool)
    ensures
        r == (a@ == b@),
{
    let na: usize = a.unicode_len();
    let nb: usize = b.unicode_len();
    if na != nb {
        return false;
    }
    let mut i: usize = 0;
    while i < na
        invariant
            na == a@.len(),
            na == b@.len(),
            i <= na,
            forall|j: int| 0 <= j < i ==> a@[j] == b@[j],
        decreases na - i,
    {
        if a.get_char(i) != b.get_char(i) {
            return false;
        }
        i = i + 1;
    }
    proof {
        assert(a@ =~= b@);
    }
    true
}

/// Equality between a character vector and a string slice.
pub fn chars_eq_str(v: &Vec<char>, s: &str) -> (r: bool)
    ensures
        r == (v@ == s@),
{
    let n: usize = s.unicode_len();
    if v.len() != n {
        return false;
    }
    let mut i: usize = 0;
    while i < n
        invariant
            n == s@.len(),
            n == v@.len(),
            i <= n,
            forall|j: int| 0 <= j < i ==> v@[j] == s@[j],
        decreases n - i,
    {
        if v[i] != s.get_char(i) {
            return false;
        }
        i = i + 1;
    }
    proof {
        assert(v@ =~= s@);
    }
    true
}

/// The characters of `v` between `from` and `to`, as a fresh vector.
pub fn subvec(v: &Vec<char>, from: usize, to: usize) -> (r: Vec<char>)
    requires
        from <= to <= v@.len(),
    ensures
        r@ == v@.subrange(from as int, to as int),
{
    let mut r: Vec<char> = Vec::new();
    let mut i: usize = from;
    while i < to
        invariant
            from <= i <= to <= v@.len(),
            r@ == v@.subrange(from as int, i as int),
        decreases to - i,
    {
        r.push(v[i]);
        i = i + 1;
        proof {
            assert(r@ =~= v@.subrange(from as int, i as int));
        }
    }
    r
}

// ---------------------------------------------------------------------
// Decimal numerals.
// ---------------------------------------------------------------------

/// Whether `c` is an ASCII decimal digit.
pub open spec fn is_digit(c: char) -> bool {
    48 <= c as u32 && c as u32 <= 57
}

/// The numeric value of a digit character.
pub open spec fn digit_val(c: char) -> int {
    c as u32 - 48
}

/// Whether every character of `s` is a decimal digit.
pub open spec fn all_digits(s: Seq<char>) -> bool {
    forall|i: int| 0 <= i < s.len() ==> is_digit(#[trigger] s[i])
}

/// The value of a digit string, most significant digit first.
pub open spec fn dec_val(s: Seq<char>) -> int
    decreases s.len(),
{
    if s.len() == 0 {
        0
    } else {
        dec_val(s.drop_last()) * 10 + digit_val(s.last())
    }
}

/// What parsing a version token's digits yields: a value, or nothing if
/// the text is empty, contains a non-digit, or does not fit in 32 bits.
pub open spec fn parse_u32(s: Seq<char>) -> Option<u32> {
    if s.len() > 0 && all_digits(s) && dec_val(s) <= u32::MAX {
        Some(dec_val(s) as u32)
    } else {
        None
    }
}

/// The digit character for a value in `0..10`.
pub open spec fn digit_char(d: int) -> char {
    if d == 0 { '0' }
    else if d == 1 { '1' }
    else if d == 2 { '2' }
    else if d == 3 { '3' }
    else if d == 4 { '4' }
    else if d == 5 { '5' }
    else if d == 6 { '6' }
    else if d == 7 { '7' }
    else if d == 8 { '8' }
    else { '9' }
}

/// The canonical decimal numeral of `n`: no leading zeros, except that
/// zero itself is written `"0"`.
pub open spec fn dec_str(n: int) -> Seq<char>
    decreases n,
{
    if n < 10 {
        seq![digit_char(n)]
    } else {
        dec_str(n / 10).push(digit_char(n % 10))
    }
}

/// A digit string's value is never negative.
proof fn lemma_dec_val_nonneg(s: Seq<char>)
    requires
        all_digits(s),
    ensures
        dec_val(s) >= 0,
    decreases s.len(),
{
    if s.len() > 0 {
        assert(all_digits(s.drop_last())) by {
            assert(forall|i: int| 0 <= i < s.len() - 1 ==> is_digit(#[trigger] s[i]));
        }
        lemma_dec_val_nonneg(s.drop_last());
    }
}

/// The numeral of `n` consists of digits and parses back to `n`.
pub proof fn lemma_dec_str_val(n: int)
    requires
        n >= 0,
    ensures
        dec_str(n).len() >= 1,
        all_digits(dec_str(n)),
        dec_val(dec_str(n)) == n,
    decreases n,
{
    if n < 10 {
        assert(dec_str(n) =~= seq![digit_char(n)]);
        assert(dec_val(dec_str(n)) == dec_val(seq![digit_char(n)].drop_last()) * 10 + digit_val(
            digit_char(n),
        ));
        assert(seq![digit_char(n)].drop_last() =~= Seq::<char>::empty());
        assert(digit_val(digit_char(n)) == n);
    } else {
        lemma_dec_str_val(n / 10);
        let s = dec_str(n);
        assert(s == dec_str(n / 10).push(digit_char(n % 10)));
        assert(s.drop_last() =~= dec_str(n / 10));
        assert(s.last() == digit_char(n % 10));
        assert(digit_val(digit_char(n % 10)) == n % 10);
        assert(all_digits(s)) by {
            assert(forall|i: int|
                0 <= i < s.len() - 1 ==> is_digit(#[trigger] s[i]) && s[i] == dec_str(n / 10)[i]);
        }
        assert(dec_val(s) == (n / 10) * 10 + n % 10);
        assert((n / 10) * 10 + n % 10 == n) by (nonlinear_arith);
    }
}

/// Appending a digit multiplies the value by ten and adds the digit.
proof fn lemma_dec_val_push(s: Seq<char>, c: char)
    ensures
        dec_val(s.push(c)) == dec_val(s) * 10 + digit_val(c),
{
    assert(s.push(c).drop_last() =~= s);
    assert(s.push(c).last() == c);
}

/// Parse the digits of `v[from..to]` as a 32-bit value.
pub fn parse_u32_chars(v: &Vec<char>, from: usize, to: usize) -> (r: Option<u32>)
    requires
        from <= to <= v@.len(),
    ensures
        r == parse_u32(v@.subrange(from as int, to as int)),
{
    let s = Ghost(v@.subrange(from as int, to as int));
    if from == to {
        return None;
    }
    let mut acc: u32 = 0;
    let mut i: usize = from;
    while i < to
        invariant
            from <= i <= to <= v@.len(),
            s@ == v@.subrange(from as int, to as int),
            all_digits(v@.subrange(from as int, i as int)),
            acc == dec_val(v@.subrange(from as int, i as int)),
        decreases to - i,
    {
        let c = v[i];
        let cu: u32 = c as u32;
        if cu < 48 || cu > 57 {
            proof {
                assert(s@[i - from] == c);
                assert(!is_digit(c));
                assert(!all_digits(s@));
            }
            return None;
        }
        let d: u32 = cu - 48;
        proof {
            lemma_dec_val_nonneg(v@.subrange(from as int, i as int));
        }
        if acc > (u32::MAX - d) / 10 {
            // The value no longer fits in 32 bits; it can only grow.
            proof {
                let p = v@.subrange(from as int, i as int);
                lemma_dec_val_push(p, c);
                assert(p.push(c) =~= v@.subrange(from as int, i + 1));
                assert(acc * 10 + d > u32::MAX) by (nonlinear_arith)
                    requires
                        acc > (u32::MAX - d) / 10,
                        d <= 9,
                        acc <= u32::MAX,
                ;
                if all_digits(s@) {
                    lemma_dec_val_grows(v@, from as int, i + 1, to as int);
                    assert(dec_val(s@) >= dec_val(v@.subrange(from as int, i + 1)));
                    assert(dec_val(s@) > u32::MAX);
                }
            }
            return None;
        }
        proof {
            assert(acc * 10 + d <= u32::MAX) by (nonlinear_arith)
                requires
                    acc <= (u32::MAX - d) / 10,
                    0 <= d <= 9,
                    acc >= 0,
            ;
            let p = v@.subrange(from as int, i as int);
            lemma_dec_val_push(p, c);
            assert(p.push(c) =~= v@.subrange(from as int, i + 1));
        }
        acc = acc * 10 + d;
        i = i + 1;
    }
    proof {
        assert(v@.subrange(from as int, to as int) =~= s@);
    }
    Some(acc)
}

/// Once every prefix is made of digits, a longer prefix has a value at
/// least as large.
proof fn lemma_dec_val_grows(v: Seq<char>, from: int, mid: int, to: int)
    requires
        0 <= from <= mid <= to <= v.len(),
        all_digits(v.subrange(from, to)),
    ensures
        dec_val(v.subrange(from, to)) >= dec_val(v.subrange(from, mid)),
        all_digits(v.subrange(from, mid)),
    decreases to - mid,
{
    assert(all_digits(v.subrange(from, mid))) by {
        assert(forall|i: int|
            0 <= i < mid - from ==> #[trigger] v.subrange(from, mid)[i] == v.subrange(from, to)[i]
                && is_digit(v.subrange(from, to)[i]));
    }
    if mid < to {
        lemma_dec_val_grows(v, from, mid + 1, to);
        let p = v.subrange(from, mid);
        let c = v[mid];
        lemma_dec_val_push(p, c);
        assert(p.push(c) =~= v.subrange(from, mid + 1));
        lemma_dec_val_nonneg(p);
        assert(is_digit(c)) by {
            assert(v.subrange(from, to)[mid - from] == c);
        }
        assert(dec_val(p) * 10 + digit_val(c) >= dec_val(p)) by (nonlinear_arith)
            requires
                dec_val(p) >= 0,
                digit_val(c) >= 0,
        ;
    }
}

/// The canonical decimal numeral of `n`, as characters.
pub fn u32_to_chars(n: u32) -> (v: Vec<char>)
    ensures
        v@ == dec_str(n as int),
    decreases n,
{
    if n < 10 {
        let c = digit_of(n);
        let mut v: Vec<char> = Vec::new();
        v.push(c);
        proof {
            assert(v@ =~= seq![digit_char(n as int)]);
        }
        v
    } else {
        let mut v = u32_to_chars(n / 10);
        let c = digit_of(n % 10);
        v.push(c);
        v
    }
}

// ---------------------------------------------------------------------
// Splitting on separators, and joining.
// ---------------------------------------------------------------------

/// The pieces of `s` between characters satisfying `p`, in order.  The
/// empty string yields one empty piece, and every separator ends a piece,
/// so `n` separators always yield `n + 1` pieces.
pub open spec fn split_if(s: Seq<char>, p: spec_fn(char) -> bool) -> Seq<Seq<char>>
    decreases s.len(),
{
    if s.len() == 0 {
        seq![Seq::<char>::empty()]
    } else if p(s[0]) {
        seq![Seq::<char>::empty()] + split_if(s.drop_first(), p)
    } else {
        let r = split_if(s.drop_first(), p);
        seq![seq![s[0]] + r[0]] + r.drop_first()
    }
}

/// The predicate holding exactly on the separator `sep`.
pub open spec fn eq_sep(sep: char) -> spec_fn(char) -> bool {
    |c: char| c == sep
}

/// The pieces of `s` between occurrences of the separator `sep`.
pub open spec fn split_at_char(s: Seq<char>, sep: char) -> Seq<Seq<char>> {
    split_if(s, eq_sep(sep))
}

/// Splitting always yields at least one piece.
pub proof fn lemma_split_if_len(s: Seq<char>, p: spec_fn(char) -> bool)
    ensures
        split_if(s, p).len() >= 1,
    decreases s.len(),
{
    if s.len() > 0 {
        lemma_split_if_len(s.drop_first(), p);
    }
}

/// How one more character extends the pieces: a separator opens a new
/// empty piece, any other character extends the last piece.
pub proof fn lemma_split_if_push(s: Seq<char>, p: spec_fn(char) -> bool, c: char)
    ensures
        split_if(s.push(c), p) == if p(c) {
            split_if(s, p).push(Seq::<char>::empty())
        } else {
            let r = split_if(s, p);
            r.update(r.len() - 1, r.last().push(c))
        },
    decreases s.len(),
{
    lemma_split_if_len(s, p);
    if s.len() == 0 {
        assert(s.push(c)[0] == c);
        assert(s.push(c).drop_first() =~= Seq::<char>::empty());
        if p(c) {
            assert(split_if(s.push(c), p) == seq![Seq::<char>::empty()] + split_if(
                Seq::<char>::empty(),
                p,
            ));
            assert(split_if(Seq::<char>::empty(), p) == seq![Seq::<char>::empty()]);
            assert(split_if(s.push(c), p) =~~= split_if(s, p).push(Seq::<char>::empty()));
        } else {
            let r = split_if(s.push(c).drop_first(), p);
            assert(seq![s.push(c)[0]] + r[0] =~= Seq::<char>::empty().push(c));
            assert(split_if(s.push(c), p) =~~= split_if(s, p).update(
                0,
                split_if(s, p).last().push(c),
            ));
        }
    } else {
        let t = s.drop_first();
        assert(s.push(c).drop_first() =~= t.push(c));
        lemma_split_if_push(t, p, c);
        lemma_split_if_len(t, p);
        let r = split_if(t, p);
        if p(s[0]) {
            if p(c) {
                assert(split_if(s.push(c), p) =~~= split_if(s, p).push(Seq::<char>::empty()));
            } else {
                let whole = split_if(s, p);
                assert(whole == seq![Seq::<char>::empty()] + r);
                assert(whole.last() == r.last());
                assert(split_if(s.push(c), p) =~~= whole.update(
                    whole.len() - 1,
                    whole.last().push(c),
                ));
            }
        } else {
            if p(c) {
                assert(r.push(Seq::<char>::empty())[0] == r[0]);
                assert(r.push(Seq::<char>::empty()).drop_first() =~~= r.drop_first().push(
                    Seq::<char>::empty(),
                ));
                assert(split_if(s.push(c), p) =~~= split_if(s, p).push(Seq::<char>::empty()));
            } else {
                let r2 = r.update(r.len() - 1, r.last().push(c));
                if r.len() == 1 {
                    assert(r2[0] == r[0].push(c));
                    assert(seq![s[0]] + r[0].push(c) =~= (seq![s[0]] + r[0]).push(c));
                    assert(r2.drop_first() =~~= r.drop_first());
                    let whole = split_if(s, p);
                    assert(whole.len() == 1 + r.drop_first().len());
                    assert(split_if(s.push(c), p) =~~= whole.update(
                        whole.len() - 1,
                        whole.last().push(c),
                    ));
                } else {
                    assert(r2[0] == r[0]);
                    assert(r2.drop_first() =~~= r.drop_first().update(
                        r.drop_first().len() - 1,
                        r.drop_first().last().push(c),
                    ));
                    let whole = split_if(s, p);
                    assert(whole.last() == r.last());
                    assert(split_if(s.push(c), p) =~~= whole.update(
                        whole.len() - 1,
                        whole.last().push(c),
                    ));
                }
            }
        }
    }
}

/// A separator-free string is a single piece.
pub proof fn lemma_split_if_whole(s: Seq<char>, p: spec_fn(char) -> bool)
    requires
        forall|i: int| 0 <= i < s.len() ==> !p(#[trigger] s[i]),
    ensures
        split_if(s, p) == seq![s],
    decreases s.len(),
{
    if s.len() == 0 {
        assert(split_if(s, p) =~~= seq![s]);
    } else {
        lemma_split_if_whole(s.drop_first(), p);
        assert(seq![s[0]] + s.drop_first() =~= s);
        assert(split_if(s, p) =~~= seq![s]);
    }
}

/// Splitting distributes over a separator: the pieces of `a + sep + b`
/// are the pieces of `a` followed by the pieces of `b`.
pub proof fn lemma_split_if_append(a: Seq<char>, d: char, b: Seq<char>, p: spec_fn(char) -> bool)
    requires
        p(d),
    ensures
        split_if(a + seq![d] + b, p) == split_if(a, p) + split_if(b, p),
    decreases a.len(),
{
    let s = a + seq![d] + b;
    if a.len() == 0 {
        assert(s[0] == d);
        assert(s.drop_first() =~= b);
        assert(split_if(s, p) =~~= split_if(a, p) + split_if(b, p));
    } else {
        assert(s[0] == a[0]);
        assert(s.drop_first() =~= a.drop_first() + seq![d] + b);
        lemma_split_if_append(a.drop_first(), d, b, p);
        lemma_split_if_len(a.drop_first(), p);
        lemma_split_if_len(b, p);
        if p(a[0]) {
            assert(split_if(s, p) =~~= split_if(a, p) + split_if(b, p));
        } else {
            let r = split_if(a.drop_first(), p) + split_if(b, p);
            assert(r[0] == split_if(a.drop_first(), p)[0]);
            assert(r.drop_first() =~~= split_if(a.drop_first(), p).drop_first() + split_if(b, p));
            assert(split_if(s, p) =~~= split_if(a, p) + split_if(b, p));
        }
    }
}

/// Split a character vector at every occurrence of `sep`.
pub fn split_char_vec(v: &Vec<char>, sep: char) -> (r: Vec<Vec<char>>)
    ensures
        r.deep_view() == split_at_char(v@, sep),
{
    let mut r: Vec<Vec<char>> = Vec::new();
    let mut cur: Vec<char> = Vec::new();
    let mut i: usize = 0;
    while i < v.len()
        invariant
            i <= v@.len(),
            split_at_char(v@.take(i as int), sep) == r.deep_view().push(cur@),
        decreases v@.len() - i,
    {
        let c = v[i];
        proof {
            lemma_split_if_push(v@.take(i as int), eq_sep(sep), c);
            assert(v@.take(i as int).push(c) =~= v@.take(i + 1));
            assert(eq_sep(sep)(c) == (c == sep));
        }
        if c == sep {
            let ghost before = split_at_char(v@.take(i as int), sep);
            r.push(cur);
            cur = Vec::new();
            proof {
                assert(before.push(Seq::<char>::empty()) =~~= r.deep_view().push(cur@));
            }
        } else {
            let ghost before = split_at_char(v@.take(i as int), sep);
            cur.push(c);
            proof {
                assert(before.update(before.len() - 1, before.last().push(c))
                    =~~= r.deep_view().push(cur@));
            }
        }
        i = i + 1;
    }
    let ghost before = r.deep_view();
    r.push(cur);
    proof {
        assert(r.deep_view() =~~= before.push(cur@));
        assert(v@.take(i as int) =~= v@);
    }
    r
}

/// Whether `c` is ASCII whitespace.
pub open spec fn is_space(c: char) -> bool {
    c == ' ' || c == '\t' || c == '\n' || c == '\r' || c == '\u{b}' || c == '\u{c}'
}

/// The predicate holding exactly on whitespace.
pub open spec fn space_pred() -> spec_fn(char) -> bool {
    |c: char| is_space(c)
}

/// Split a character vector at every whitespace character.
pub fn split_space_vec(v: &Vec<char>) -> (r: Vec<Vec<char>>)
    ensures
        r.deep_view() == split_if(v@, space_pred()),
{
    let mut r: Vec<Vec<char>> = Vec::new();
    let mut cur: Vec<char> = Vec::new();
    let mut i: usize = 0;
    while i < v.len()
        invariant
            i <= v@.len(),
            split_if(v@.take(i as int), space_pred()) == r.deep_view().push(cur@),
        decreases v@.len() - i,
    {
        let c = v[i];
        proof {
            lemma_split_if_push(v@.take(i as int), space_pred(), c);
            assert(v@.take(i as int).push(c) =~= v@.take(i + 1));
            assert(space_pred()(c) == is_space(c));
        }
        if c == ' ' || c == '\t' || c == '\n' || c == '\r' || c == '\u{b}' || c == '\u{c}' {
            let ghost before = split_if(v@.take(i as int), space_pred());
            r.push(cur);
            cur = Vec::new();
            proof {
                assert(before.push(Seq::<char>::empty()) =~~= r.deep_view().push(cur@));
            }
        } else {
            let ghost before = split_if(v@.take(i as int), space_pred());
            cur.push(c);
            proof {
                assert(before.update(before.len() - 1, before.last().push(c))
                    =~~= r.deep_view().push(cur@));
            }
        }
        i = i + 1;
    }
    let ghost before = r.deep_view();
    r.push(cur);
    proof {
        assert(r.deep_view() =~~= before.push(cur@));
        assert(v@.take(i as int) =~= v@);
    }
    r
}

/// How one more element extends a filter.
pub proof fn lemma_filter_push<A>(s: Seq<A>, p: spec_fn(A) -> bool, x: A)
    ensures
        s.push(x).filter(p) == if p(x) {
            s.filter(p).push(x)
        } else {
            s.filter(p)
        },
{
    reveal(Seq::filter);
    assert(s.push(x).drop_last() =~= s);
    assert(s.push(x).last() == x);
}


/// A separator-free piece followed by the separator heads the split.
pub proof fn lemma_split_head(tok: Seq<char>, sep: char, rest: Seq<char>)
    requires
        forall|j: int| 0 <= j < tok.len() ==> tok[j] != sep,
    ensures
        split_at_char(tok + seq![sep] + rest, sep) == seq![tok] + split_at_char(rest, sep),
{
    assert(eq_sep(sep)(sep));
    assert(forall|j: int| 0 <= j < tok.len() ==> !(eq_sep(sep)(#[trigger] tok[j])));
    lemma_split_if_append(tok, sep, rest, eq_sep(sep));
    lemma_split_if_whole(tok, eq_sep(sep));
}

/// A separator-free string splits into itself alone.
pub proof fn lemma_split_whole(tok: Seq<char>, sep: char)
    requires
        forall|j: int| 0 <= j < tok.len() ==> tok[j] != sep,
    ensures
        split_at_char(tok, sep) == seq![tok],
{
    assert(forall|j: int| 0 <= j < tok.len() ==> !(eq_sep(sep)(#[trigger] tok[j])));
    lemma_split_if_whole(tok, eq_sep(sep));
}

/// The pieces joined with the separator string `sep` between them.
pub open spec fn join_with(ts: Seq<Seq<char>>, sep: Seq<char>) -> Seq<char>
    decreases ts.len(),
{
    if ts.len() == 0 {
        Seq::<char>::empty()
    } else if ts.len() == 1 {
        ts[0]
    } else {
        ts[0] + sep + join_with(ts.drop_first(), sep)
    }
}

/// How one more piece extends a join.
pub proof fn lemma_join_with_push(ts: Seq<Seq<char>>, sep: Seq<char>, t: Seq<char>)
    ensures
        join_with(ts.push(t), sep) == if ts.len() == 0 {
            t
        } else {
            join_with(ts, sep) + sep + t
        },
    decreases ts.len(),
{
    if ts.len() == 0 {
        assert(join_with(ts.push(t), sep) == ts.push(t)[0]);
        assert(ts.push(t)[0] == t);
    } else if ts.len() == 1 {
        assert(ts.push(t).drop_first() =~~= seq![t]);
        assert(join_with(seq![t], sep) == t);
        assert(join_with(ts.push(t), sep) == ts.push(t)[0] + sep + join_with(
            ts.push(t).drop_first(),
            sep,
        ));
        assert(ts.push(t)[0] == ts[0]);
        assert(join_with(ts, sep) == ts[0]);
    } else {
        lemma_join_with_push(ts.drop_first(), sep, t);
        assert(ts.push(t).drop_first() =~~= ts.drop_first().push(t));
        assert(join_with(ts, sep) + sep + t =~= ts[0] + sep + (join_with(ts.drop_first(), sep)
            + sep + t));
    }
}

// ---------------------------------------------------------------------
// Lexicographic order on names.
// ---------------------------------------------------------------------

/// Strict lexicographic order on character sequences, by scalar value;
/// a proper prefix sorts before its extensions.
pub open spec fn lex_lt(a: Seq<char>, b: Seq<char>) -> bool
    decreases a.len(),
{
    if b.len() == 0 {
        false
    } else if a.len() == 0 {
        true
    } else if (a[0] as u32) < (b[0] as u32) {
        true
    } else if a[0] == b[0] {
        lex_lt(a.drop_first(), b.drop_first())
    } else {
        false
    }
}

/// Any two names are ordered one way, the other way, or equal.
pub proof fn lemma_lex_connected(a: Seq<char>, b: Seq<char>)
    ensures
        lex_lt(a, b) || lex_lt(b, a) || a == b,
    decreases a.len(),
{
    if a.len() == 0 {
        if b.len() == 0 {
            assert(a =~= b);
        }
    } else if b.len() > 0 {
        if a[0] == b[0] {
            lemma_lex_connected(a.drop_first(), b.drop_first());
            if a.drop_first() == b.drop_first() {
                assert(a.drop_first().len() == a.len() - 1);
                assert(b.drop_first().len() == b.len() - 1);
                assert(a.len() == b.len());
                assert forall|i: int| 0 <= i < a.len() implies a[i] == b[i] by {
                    if i > 0 {
                        assert(a[i] == a.drop_first()[i - 1]);
                        assert(b[i] == b.drop_first()[i - 1]);
                    }
                }
                assert(a =~= b);
            }
        } else {
            assert((a[0] as u32) != (b[0] as u32)) by {
                if (a[0] as u32) == (b[0] as u32) {
                    vstd::utf8::char_u32_cast(a[0], a[0] as u32);
                    vstd::utf8::char_u32_cast(b[0], a[0] as u32);
                }
            }
        }
    }
}

/// Lexicographic order is irreflexive and asymmetric.
pub proof fn lemma_lex_asymmetric(a: Seq<char>, b: Seq<char>)
    requires
        lex_lt(a, b),
    ensures
        !lex_lt(b, a),
        a != b,
    decreases a.len(),
{
    if a.len() > 0 && b.len() > 0 && a[0] == b[0] {
        lemma_lex_asymmetric(a.drop_first(), b.drop_first());
        assert(a != b) by {
            if a == b {
                assert(a.drop_first() =~= b.drop_first());
            }
        }
    }
}

/// Lexicographic order is transitive.
pub proof fn lemma_lex_transitive(a: Seq<char>, b: Seq<char>, c: Seq<char>)
    requires
        lex_lt(a, b),
        lex_lt(b, c),
    ensures
        lex_lt(a, c),
    decreases a.len(),
{
    if a.len() > 0 && b.len() > 0 && c.len() > 0 {
        if a[0] == b[0] && b[0] == c[0] {
            lemma_lex_transitive(a.drop_first(), b.drop_first(), c.drop_first());
        }
    }
}

/// Compare two string slices lexicographically by characters.
pub fn str_lex_lt(a: &str, b: &str) -> (r: bool)
    ensures
        r == lex_lt(a@, b@),
{
    let na: usize = a.unicode_len();
    let nb: usize = b.unicode_len();
    let mut i: usize = 0;
    proof {
        assert(a@.skip(0) =~= a@);
        assert(b@.skip(0) =~= b@);
    }
    while i < na && i < nb
        invariant
            na == a@.len(),
            nb == b@.len(),
            i <= na,
            i <= nb,
            lex_lt(a@, b@) == lex_lt(a@.skip(i as int), b@.skip(i as int)),
        decreases na - i,
    {
        let ca = a.get_char(i);
        let cb = b.get_char(i);
        if (ca as u32) < (cb as u32) {
            return true;
        }
        if ca != cb {
            proof {
                assert(!lex_lt(a@.skip(i as int), b@.skip(i as int)));
            }
            return false;
        }
        proof {
            assert(a@.skip(i as int).drop_first() =~= a@.skip(i + 1));
            assert(b@.skip(i as int).drop_first() =~= b@.skip(i + 1));
        }
        i = i + 1;
    }
    proof {
        if i >= na {
            assert(a@.skip(i as int) =~= Seq::<char>::empty());
        }
        if i >= nb {
            assert(b@.skip(i as int) =~= Seq::<char>::empty());
        }
    }
    i >= na && i < nb
}

// ---------------------------------------------------------------------
// C-like byte strings.
// ---------------------------------------------------------------------

/// Whether a non-empty byte slice is a C-like string: its final byte is
/// NUL and no earlier byte is.  Nothing is said about its encoding.
pub fn byte_slice_is_c_like(bytes: &[u8]) -> (r: bool)
    requires
        bytes@.len() >= 1,
    ensures
        r == (bytes@.last() == 0 && forall|i: int|
            0 <= i < bytes@.len() - 1 ==> #[trigger] bytes@[i] != 0),
{
    let n: usize = bytes.len();
    if bytes[n - 1] != 0 {
        return false;
    }
    let mut i: usize = 0;
    while i < n - 1
        invariant
            n == bytes@.len(),
            1 <= n,
            i <= n - 1,
            forall|j: int| 0 <= j < i ==> #[trigger] bytes@[j] != 0,
        decreases n - 1 - i,
    {
        if bytes[i] == 0 {
            return false;
        }
        i = i + 1;
    }
    true
}

/// The digit character for `d`, which must lie in `0..10`.
fn digit_of(d: u32) -> (c: char)
    requires
        d < 10,
    ensures
        c == digit_char(d as int),
{
    match d {
        0 => '0',
        1 => '1',
        2 => '2',
        3 => '3',
        4 => '4',
        5 => '5',
        6 => '6',
        7 => '7',
        8 => '8',
        _ => '9',
    }
}

} // verus!
