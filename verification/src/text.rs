//! Byte-level text model: normalization (ASCII case folding, whitespace
//! trimming), the four match semantics, and a lexicographic order used to
//! report results deterministically.

use vstd::prelude::*;
use vstd::string::StringSliceAdditionalSpecFns;

verus! {

/// The UTF-8 bytes of an owned string: the byte-level model that every
/// contract of this crate speaks of.
pub open spec fn sbytes(s: String) -> Seq<u8> {
    vstd::utf8::encode_utf8(s@)
}

/// ASCII whitespace recognized by trimming.
pub open spec fn is_ws(b: u8) -> bool {
    b == 32 || b == 9 || b == 10 || b == 13
}

/// One byte folded to lower case: ASCII upper-case letters map to their
/// lower-case counterpart, everything else is unchanged.
pub open spec fn lower_byte(b: u8) -> u8 {
    if 65 <= b && b <= 90 {
        (b + 32) as u8
    } else {
        b
    }
}

/// A byte sequence folded to lower case.
pub open spec fn lower(s: Seq<u8>) -> Seq<u8> {
    s.map_values(|b: u8| lower_byte(b))
}

/// Leading whitespace removed.
pub open spec fn trim_front(s: Seq<u8>) -> Seq<u8>
    decreases s.len(),
{
    if s.len() > 0 && is_ws(s[0]) {
        trim_front(s.drop_first())
    } else {
        s
    }
}

/// Trailing whitespace removed.
pub open spec fn trim_back(s: Seq<u8>) -> Seq<u8>
    decreases s.len(),
{
    if s.len() > 0 && is_ws(s.last()) {
        trim_back(s.drop_last())
    } else {
        s
    }
}

/// Normalized form of a field or query text: whitespace trimmed at both
/// ends, then folded to lower case.
pub open spec fn norm(s: Seq<u8>) -> Seq<u8> {
    lower(trim_back(trim_front(s)))
}

/// `q` occurs in `f` starting at position `i`.
pub open spec fn match_at(q: Seq<u8>, f: Seq<u8>, i: int) -> bool {
    0 <= i && i + q.len() <= f.len() && f.subrange(i, i + q.len()) == q
}

/// `q` is a prefix of `f`.
pub open spec fn is_prefix(q: Seq<u8>, f: Seq<u8>) -> bool {
    q.len() <= f.len() && f.subrange(0, q.len() as int) == q
}

/// `q` is a suffix of `f`.
pub open spec fn is_suffix(q: Seq<u8>, f: Seq<u8>) -> bool {
    q.len() <= f.len() && f.subrange(f.len() - q.len(), f.len() as int) == q
}

/// `q` occurs somewhere in `f` as a contiguous substring.
pub open spec fn is_substring(q: Seq<u8>, f: Seq<u8>) -> bool {
    exists|i: int| match_at(q, f, i)
}

/// Strict lexicographic order on byte sequences.
pub open spec fn lex_lt(a: Seq<u8>, b: Seq<u8>) -> bool
    decreases a.len(),
{
    if b.len() == 0 {
        false
    } else if a.len() == 0 {
        true
    } else if a[0] < b[0] {
        true
    } else {
        a[0] == b[0] && lex_lt(a.drop_first(), b.drop_first())
    }
}

/// The lexicographic order is irreflexive.
pub proof fn lemma_lex_lt_irreflexive(a: Seq<u8>)
    ensures
        !lex_lt(a, a),
    decreases a.len(),
{
    if a.len() > 0 {
        lemma_lex_lt_irreflexive(a.drop_first());
    }
}

/// Of two distinct byte sequences, exactly one precedes the other.
pub proof fn lemma_lex_lt_total(a: Seq<u8>, b: Seq<u8>)
    ensures
        lex_lt(a, b) || lex_lt(b, a) || a == b,
    decreases a.len(),
{
    if a.len() == 0 {
        if b.len() == 0 {
            assert(a =~= b);
        }
    } else if b.len() == 0 {
    } else if a[0] == b[0] {
        lemma_lex_lt_total(a.drop_first(), b.drop_first());
        if !lex_lt(a, b) && !lex_lt(b, a) {
            assert(a.drop_first() == b.drop_first());
            assert forall|i: int| 0 <= i < a.len() implies a[i] == b[i] by {
                if i > 0 {
                    assert(a[i] == a.drop_first()[i - 1]);
                    assert(b[i] == b.drop_first()[i - 1]);
                }
            }
            assert(a =~= b);
        }
    }
}

/// The lexicographic order is transitive.
pub proof fn lemma_lex_lt_transitive(a: Seq<u8>, b: Seq<u8>, c: Seq<u8>)
    requires
        lex_lt(a, b),
        lex_lt(b, c),
    ensures
        lex_lt(a, c),
    decreases a.len(),
{
    if a.len() == 0 {
    } else if b.len() == 0 {
    } else if c.len() == 0 {
    } else {
        if a[0] == b[0] && b[0] == c[0] {
            lemma_lex_lt_transitive(a.drop_first(), b.drop_first(), c.drop_first());
        }
    }
}

/// Copies the bytes of a string slice into a fresh vector.
pub fn str_to_bytes(s: &str) -> (r: Vec<u8>)
    ensures
        r@ == s.spec_bytes(),
{
    vstd::slice::slice_to_vec(s.as_bytes())
}

/// Decides equality of two byte slices.
pub fn bytes_eq(a: &[u8], b: &[u8]) -> (r: bool)
    ensures
        r == (a@ == b@),
{
    if a.len() != b.len() {
        assert(a@ != b@);
        return false;
    }
    let n: usize = a.len();
    let mut i: usize = 0;
    while i < n
        invariant
            n == a@.len() == b@.len(),
            i <= n,
            forall|j: int| 0 <= j < i ==> a@[j] == b@[j],
        decreases n - i,
    {
        if *vstd::slice::slice_index_get(a, i) != *vstd::slice::slice_index_get(b, i) {
            return false;
        }
        i = i + 1;
    }
    assert(a@ =~= b@);
    true
}

/// Decides the strict lexicographic order on two byte slices.
pub fn bytes_lt(a: &[u8], b: &[u8]) -> (r: bool)
    ensures
        r == lex_lt(a@, b@),
{
    let an: usize = a.len();
    let bn: usize = b.len();
    let n: usize = if an < bn { an } else { bn };
    let mut i: usize = 0;
    proof {
        assert(a@.skip(0) =~= a@);
        assert(b@.skip(0) =~= b@);
    }
    while i < n
        invariant
            n <= a@.len(),
            n <= b@.len(),
            n == if a@.len() < b@.len() { a@.len() } else { b@.len() },
            i <= n,
            forall|j: int| 0 <= j < i ==> a@[j] == b@[j],
            lex_lt(a@, b@) == lex_lt(a@.skip(i as int), b@.skip(i as int)),
        decreases n - i,
    {
        let x = *vstd::slice::slice_index_get(a, i);
        let y = *vstd::slice::slice_index_get(b, i);
        proof {
            lemma_lex_lt_step(a@.skip(i as int), b@.skip(i as int));
            assert(a@.skip(i as int)[0] == a@[i as int]);
            assert(b@.skip(i as int)[0] == b@[i as int]);
            assert(a@.skip(i as int).drop_first() =~= a@.skip(i + 1));
            assert(b@.skip(i as int).drop_first() =~= b@.skip(i + 1));
        }
        if x < y {
            return true;
        }
        if x > y {
            return false;
        }
        i = i + 1;
    }
    proof {
        lemma_lex_lt_step(a@.skip(i as int), b@.skip(i as int));
    }
    an < bn
}

/// Case folding is idempotent.
proof fn lemma_lower_idempotent(s: Seq<u8>)
    ensures
        lower(lower(s)) == lower(s),
{
    assert(lower(lower(s)) =~= lower(s));
}

/// Case folding keeps whitespace whitespace and other bytes other.
proof fn lemma_lower_preserves_ws(b: u8)
    ensures
        is_ws(lower_byte(b)) == is_ws(b),
{
}

/// Case folding commutes with trimming at the front.
proof fn lemma_trim_front_lower(t: Seq<u8>)
    ensures
        trim_front(lower(t)) == lower(trim_front(t)),
    decreases t.len(),
{
    if t.len() == 0 {
        assert(lower(t) =~= Seq::<u8>::empty());
    } else {
        assert(lower(t)[0] == lower_byte(t[0]));
        lemma_lower_preserves_ws(t[0]);
        if is_ws(t[0]) {
            assert(lower(t).drop_first() =~= lower(t.drop_first()));
            lemma_trim_front_lower(t.drop_first());
        } else {
            assert(lower(t).len() > 0 && !is_ws(lower(t)[0]));
        }
    }
}

/// Case folding commutes with trimming at the back.
proof fn lemma_trim_back_lower(t: Seq<u8>)
    ensures
        trim_back(lower(t)) == lower(trim_back(t)),
    decreases t.len(),
{
    if t.len() == 0 {
        assert(lower(t) =~= Seq::<u8>::empty());
    } else {
        assert(lower(t).last() == lower_byte(t.last()));
        lemma_lower_preserves_ws(t.last());
        if is_ws(t.last()) {
            assert(lower(t).drop_last() =~= lower(t.drop_last()));
            lemma_trim_back_lower(t.drop_last());
        }
    }
}

/// Trimming at the back is idempotent.
proof fn lemma_trim_back_idempotent(u: Seq<u8>)
    ensures
        trim_back(trim_back(u)) == trim_back(u),
    decreases u.len(),
{
    if u.len() > 0 && is_ws(u.last()) {
        lemma_trim_back_idempotent(u.drop_last());
    }
}

/// Trimming at the back keeps the first byte of a non-empty remainder.
proof fn lemma_trim_back_head(u: Seq<u8>)
    ensures
        trim_back(u).len() > 0 ==> trim_back(u)[0] == u[0],
    decreases u.len(),
{
    if u.len() > 0 && is_ws(u.last()) {
        lemma_trim_back_head(u.drop_last());
    }
}

/// Trimming at the front never lengthens a text.
proof fn lemma_trim_front_len(u: Seq<u8>)
    ensures
        trim_front(u).len() <= u.len(),
    decreases u.len(),
{
    if u.len() > 0 && is_ws(u[0]) {
        lemma_trim_front_len(u.drop_first());
    }
}

/// A text with nothing to trim at the front keeps that property when the
/// back is trimmed.
proof fn lemma_trim_front_after_back(u: Seq<u8>)
    requires
        trim_front(u) == u,
    ensures
        trim_front(trim_back(u)) == trim_back(u),
{
    let v = trim_back(u);
    if v.len() > 0 {
        lemma_trim_back_head(u);
        assert(u.len() > 0);
        if is_ws(u[0]) {
            lemma_trim_front_len(u.drop_first());
            assert(trim_front(u).len() < u.len());
        }
        assert(!is_ws(u[0]));
        assert(!is_ws(v[0]));
    }
}

/// Trimming at the front is idempotent.
proof fn lemma_trim_front_idempotent(u: Seq<u8>)
    ensures
        trim_front(trim_front(u)) == trim_front(u),
    decreases u.len(),
{
    if u.len() > 0 && is_ws(u[0]) {
        lemma_trim_front_idempotent(u.drop_first());
    }
}

/// Normalization is idempotent: a text that is already a normal form is
/// its own normal form, so queries written as normalized field texts
/// match those fields exactly.
pub proof fn lemma_norm_idempotent(s: Seq<u8>)
    ensures
        norm(norm(s)) == norm(s),
{
    let t = trim_back(trim_front(s));
    lemma_trim_front_lower(t);
    lemma_trim_front_idempotent(s);
    lemma_trim_front_after_back(trim_front(s));
    assert(trim_front(t) == t);
    assert(trim_front(lower(t)) == lower(t));
    lemma_trim_back_lower(t);
    lemma_trim_back_idempotent(trim_front(s));
    assert(trim_back(t) == t);
    assert(trim_back(lower(t)) == lower(t));
    lemma_lower_idempotent(t);
}

/// Every text is a prefix of itself, so a Prefix query equal to a whole
/// field value matches that field.
pub proof fn lemma_prefix_reflexive(s: Seq<u8>)
    ensures
        is_prefix(s, s),
{
    assert(s.subrange(0, s.len() as int) =~= s);
}

/// Decides whether a byte is ASCII whitespace.
pub fn byte_is_ws(b: u8) -> (r: bool)
    ensures
        r == is_ws(b),
{
    b == 32 || b == 9 || b == 10 || b == 13
}

/// Folds one byte to lower case.
pub fn byte_lower(b: u8) -> (r: u8)
    ensures
        r == lower_byte(b),
{
    if 65 <= b && b <= 90 {
        b + 32
    } else {
        b
    }
}

/// Normalizes a text: trims ASCII whitespace at both ends and folds the
/// remainder to lower case.
pub fn normalize(s: &[u8]) -> (r: Vec<u8>)
    ensures
        r@ == norm(s@),
{
    let n: usize = s.len();
    let mut lo: usize = 0;
    proof {
        assert(s@.skip(0) =~= s@);
    }
    while lo < n && byte_is_ws(*vstd::slice::slice_index_get(s, lo))
        invariant
            n == s@.len(),
            lo <= n,
            trim_front(s@) == trim_front(s@.skip(lo as int)),
        decreases n - lo,
    {
        proof {
            assert(s@.skip(lo as int)[0] == s@[lo as int]);
            assert(s@.skip(lo as int).drop_first() =~= s@.skip(lo + 1));
        }
        lo = lo + 1;
    }
    proof {
        assert(trim_front(s@) =~= s@.skip(lo as int));
        assert(s@.skip(lo as int) =~= s@.subrange(lo as int, n as int));
    }
    let mut hi: usize = n;
    while hi > lo && byte_is_ws(*vstd::slice::slice_index_get(s, hi - 1))
        invariant
            n == s@.len(),
            lo <= hi <= n,
            trim_back(s@.subrange(lo as int, hi as int)) == trim_back(trim_front(s@)),
        decreases hi,
    {
        proof {
            let cur = s@.subrange(lo as int, hi as int);
            assert(cur.last() == s@[hi - 1]);
            assert(cur.drop_last() =~= s@.subrange(lo as int, hi - 1));
        }
        hi = hi - 1;
    }
    proof {
        assert(trim_back(trim_front(s@)) =~= s@.subrange(lo as int, hi as int));
    }
    let mut r: Vec<u8> = Vec::new();
    let mut i: usize = lo;
    proof {
        assert(r@ =~= lower(s@.subrange(lo as int, lo as int)));
    }
    while i < hi
        invariant
            n == s@.len(),
            lo <= i <= hi <= n,
            r@ == lower(s@.subrange(lo as int, i as int)),
        decreases hi - i,
    {
        let b = byte_lower(*vstd::slice::slice_index_get(s, i));
        r.push(b);
        proof {
            assert(s@.subrange(lo as int, i + 1) =~= s@.subrange(lo as int, i as int).push(
                s@[i as int],
            ));
            assert(r@ =~= lower(s@.subrange(lo as int, i + 1)));
        }
        i = i + 1;
    }
    r
}

/// Decides whether `q` occurs in `f` starting at position `i`.
pub fn match_at_pos(q: &[u8], f: &[u8], i: usize) -> (r: bool)
    requires
        i + q@.len() <= f@.len(),
    ensures
        r == match_at(q@, f@, i as int),
{
    let m: usize = q.len();
    let fl: usize = f.len();
    let mut j: usize = 0;
    while j < m
        invariant
            m == q@.len(),
            fl == f@.len(),
            i + m <= f@.len(),
            j <= m,
            forall|k: int| 0 <= k < j ==> q@[k] == f@[i + k],
        decreases m - j,
    {
        if *vstd::slice::slice_index_get(q, j) != *vstd::slice::slice_index_get(f, i + j) {
            proof {
                assert(f@.subrange(i as int, i + m)[j as int] == f@[i + j]);
            }
            return false;
        }
        j = j + 1;
    }
    proof {
        assert(f@.subrange(i as int, i + m) =~= q@);
    }
    true
}

/// Decides whether `q` is a prefix of `f`.
pub fn prefix_match(q: &[u8], f: &[u8]) -> (r: bool)
    ensures
        r == is_prefix(q@, f@),
{
    if q.len() > f.len() {
        return false;
    }
    match_at_pos(q, f, 0)
}

/// Decides whether `q` is a suffix of `f`.
pub fn suffix_match(q: &[u8], f: &[u8]) -> (r: bool)
    ensures
        r == is_suffix(q@, f@),
{
    if q.len() > f.len() {
        return false;
    }
    let d: usize = f.len() - q.len();
    match_at_pos(q, f, d)
}

/// Decides whether `q` occurs somewhere in `f` as a contiguous substring.
pub fn substring_match(q: &[u8], f: &[u8]) -> (r: bool)
    ensures
        r == is_substring(q@, f@),
{
    if q.len() > f.len() {
        return false;
    }
    let last: usize = f.len() - q.len();
    let mut i: usize = 0;
    loop
        invariant
            q@.len() <= f@.len(),
            last == f@.len() - q@.len(),
            i <= last,
            forall|j: int| 0 <= j < i ==> !match_at(q@, f@, j),
        decreases last - i,
    {
        if match_at_pos(q, f, i) {
            return true;
        }
        if i == last {
            proof {
                assert forall|j: int| !match_at(q@, f@, j) by {
                    if 0 <= j < i {
                    } else if j == last {
                    }
                }
            }
            return false;
        }
        i = i + 1;
    }
}

/// What it means for query text `q` to match field text `f` under a mode:
/// Exact asks for full equality, Prefix and Suffix anchor at the field
/// boundary, Contains asks for a contiguous substring.
pub open spec fn mode_matches(m: crate::Match, q: Seq<u8>, f: Seq<u8>) -> bool {
    match m {
        crate::Match::Exact => q == f,
        crate::Match::Prefix => is_prefix(q, f),
        crate::Match::Suffix => is_suffix(q, f),
        crate::Match::Contains => is_substring(q, f),
    }
}

/// Decides whether query text `q` matches field text `f` under mode `m`.
pub fn matches_mode(m: crate::Match, q: &[u8], f: &[u8]) -> (r: bool)
    ensures
        r == mode_matches(m, q@, f@),
{
    match m {
        crate::Match::Exact => bytes_eq(q, f),
        crate::Match::Prefix => prefix_match(q, f),
        crate::Match::Suffix => suffix_match(q, f),
        crate::Match::Contains => substring_match(q, f),
    }
}

/// Unfolds one step of `lex_lt`: with both heads equal the order is decided
/// by the tails; an empty side decides it at once.
proof fn lemma_lex_lt_step(a: Seq<u8>, b: Seq<u8>)
    ensures
        b.len() == 0 ==> !lex_lt(a, b),
        a.len() == 0 && b.len() > 0 ==> lex_lt(a, b),
        a.len() > 0 && b.len() > 0 && a[0] < b[0] ==> lex_lt(a, b),
        a.len() > 0 && b.len() > 0 && a[0] > b[0] ==> !lex_lt(a, b),
        a.len() > 0 && b.len() > 0 && a[0] == b[0] ==> lex_lt(a, b) == lex_lt(
            a.drop_first(),
            b.drop_first(),
        ),
{
}

} // verus!
