//! Cross-reference table: a bidirectional mapping between the NCBI gene
//! namespace (numeric identifiers) and the HGNC gene namespace (string
//! identifiers), loaded from tab-delimited text lines.
//!
//! Malformed lines and lines repeating an already-seen identifier are
//! skipped and reported, not fatal: cross-reference coverage is expected
//! to be partial.

use vstd::prelude::*;
use vstd::string::StrSliceExecFns;
use vstd::string::StringSliceAdditionalSpecFns;

use crate::text;

verus! {

/// The character is an ASCII decimal digit.
pub open spec fn is_digit(c: char) -> bool {
    48 <= c as u32 && c as u32 <= 57
}

/// The numeric value of a digit character.
pub open spec fn digit_val(c: char) -> int {
    c as u32 - 48
}

/// The number written by a digit sequence, most significant first.
pub open spec fn digits_val(s: Seq<char>) -> int
    decreases s.len(),
{
    if s.len() == 0 {
        0
    } else {
        digits_val(s.drop_last()) * 10 + digit_val(s.last())
    }
}

/// Position of the first tab character, or the length when there is none.
pub open spec fn first_tab(l: Seq<char>) -> int
    decreases l.len(),
{
    if l.len() == 0 {
        0
    } else if l[0] == '\t' {
        0
    } else {
        1 + first_tab(l.drop_first())
    }
}

/// A scan that passed `p` characters without a tab and stopped at a tab
/// or at the end found `first_tab`.
proof fn lemma_first_tab_at(l: Seq<char>, p: int)
    requires
        0 <= p <= l.len(),
        forall|i: int| 0 <= i < p ==> l[i] != '\t',
        p < l.len() ==> l[p] == '\t',
        p == l.len() ==> true,
    ensures
        first_tab(l) == p,
    decreases l.len(),
{
    if l.len() == 0 {
    } else if p == 0 {
    } else {
        assert(l[0] != '\t');
        assert forall|i: int| 0 <= i < p - 1 implies l.drop_first()[i] != '\t' by {
            assert(l.drop_first()[i] == l[i + 1]);
        }
        if p - 1 < l.drop_first().len() {
            assert(l.drop_first()[p - 1] == l[p]);
        }
        lemma_first_tab_at(l.drop_first(), p - 1);
    }
}

/// All-digit sequences have a non-negative value.
proof fn lemma_digits_val_nonneg(s: Seq<char>)
    requires
        forall|i: int| 0 <= i < s.len() ==> is_digit(s[i]),
    ensures
        digits_val(s) >= 0,
    decreases s.len(),
{
    if s.len() > 0 {
        lemma_digits_val_nonneg(s.drop_last());
    }
}

/// Appending digits never shrinks the value: the value of a digit prefix
/// bounds the value of the whole from below.
proof fn lemma_digits_val_monotonic(s: Seq<char>, m: int)
    requires
        0 <= m <= s.len(),
        forall|i: int| 0 <= i < s.len() ==> is_digit(s[i]),
    ensures
        digits_val(s.subrange(0, m)) <= digits_val(s),
    decreases s.len() - m,
{
    if m == s.len() {
        assert(s.subrange(0, m) =~= s);
    } else {
        let pre = s.subrange(0, m + 1);
        assert(pre.drop_last() =~= s.subrange(0, m));
        lemma_digits_val_nonneg(s.subrange(0, m));
        assert(digits_val(s.subrange(0, m)) <= digits_val(pre));
        lemma_digits_val_monotonic(s, m + 1);
    }
}

/// The line has exactly two tab-separated fields, a non-empty run of
/// digits whose value fits `u32`, and a non-empty rest.
pub open spec fn well_formed_line(l: Seq<char>) -> bool {
    let p = first_tab(l);
    &&& 0 < p
    &&& p + 1 < l.len()
    &&& forall|i: int| 0 <= i < p ==> is_digit(l[i])
    &&& forall|i: int| p < i < l.len() ==> l[i] != '\t'
    &&& digits_val(l.subrange(0, p)) <= u32::MAX
}

/// The numeric (NCBI) field of a well-formed line.
pub open spec fn line_a(l: Seq<char>) -> int {
    digits_val(l.subrange(0, first_tab(l)))
}

/// The string (HGNC) field of a well-formed line.
pub open spec fn line_b(l: Seq<char>) -> Seq<char> {
    l.subrange(first_tab(l) + 1, l.len() as int)
}

/// The HGNC field under the byte-level text model.
pub open spec fn line_b_bytes(l: Seq<char>) -> Seq<u8> {
    vstd::utf8::encode_utf8(line_b(l))
}

/// Parses one tab-delimited line into its two fields.
///
/// Returns the fields exactly when the line is well formed: some digits,
/// one tab, a non-empty rest, no second tab, and a numeric value that
/// fits `u32`.
pub fn parse_line(line: &str) -> (r: Option<(u32, String)>)
    ensures
        r is Some <==> well_formed_line(line@),
        r is Some ==> (r->0).0 as int == line_a(line@) && (r->0).1@ == line_b(line@),
{
    let n: usize = line.unicode_len();
    let mut p: usize = 0;
    while p < n && line.get_char(p) != '\t'
        invariant
            n == line@.len(),
            p <= n,
            forall|i: int| 0 <= i < p ==> line@[i] != '\t',
        decreases n - p,
    {
        p = p + 1;
    }
    proof {
        lemma_first_tab_at(line@, p as int);
    }
    if p == n || p == 0 || p + 1 == n {
        proof {
            assert(!well_formed_line(line@));
        }
        return None;
    }
    let mut acc: u64 = 0;
    let mut i: usize = 0;
    while i < p
        invariant
            n == line@.len(),
            0 < p < n,
            p as int == first_tab(line@),
            i <= p,
            forall|k: int| 0 <= k < i ==> is_digit(line@[k]),
            acc as int == digits_val(line@.subrange(0, i as int)),
            acc <= u32::MAX,
        decreases p - i,
    {
        let c = line.get_char(i);
        let u = c as u32;
        if u < 48 || u > 57 {
            proof {
                assert(!is_digit(line@[i as int]));
                assert(!well_formed_line(line@));
            }
            return None;
        }
        acc = acc * 10 + (u - 48) as u64;
        proof {
            assert(line@.subrange(0, i + 1).drop_last() =~= line@.subrange(0, i as int));
            assert(acc as int == digits_val(line@.subrange(0, i + 1)));
        }
        i = i + 1;
        if acc > 0xFFFF_FFFF {
            proof {
                if forall|k: int| 0 <= k < p ==> is_digit(line@[k]) {
                    let digits = line@.subrange(0, p as int);
                    assert forall|k: int| 0 <= k < digits.len() implies is_digit(digits[k]) by {}
                    assert(line@.subrange(0, i as int) =~= digits.subrange(0, i as int));
                    lemma_digits_val_monotonic(digits, i as int);
                    assert(digits_val(digits) > u32::MAX);
                    assert(!well_formed_line(line@));
                } else {
                    assert(!well_formed_line(line@));
                }
            }
            return None;
        }
    }
    let mut j: usize = p + 1;
    while j < n
        invariant
            n == line@.len(),
            0 < p < n,
            p as int == first_tab(line@),
            p + 1 <= j <= n,
            forall|k: int| p < k < j ==> line@[k] != '\t',
        decreases n - j,
    {
        if line.get_char(j) == '\t' {
            proof {
                assert(!well_formed_line(line@));
            }
            return None;
        }
        j = j + 1;
    }
    let b = line.substring_char(p + 1, n).to_owned();
    proof {
        assert(well_formed_line(line@));
        assert(b@ == line_b(line@));
        assert(line@.subrange(0, i as int) =~= line@.subrange(0, p as int));
    }
    Some((acc as u32, b))
}

/// The loaded cross-reference table; immutable after load, with both
/// columns free of repeats so that each direction is a function.
pub struct XrefTable {
    /// Accepted (NCBI, HGNC) pairs, in line order.
    pub entries: Vec<(u32, String)>,
}

impl XrefTable {
    /// Well-formedness: no NCBI identifier and no HGNC identifier occurs
    /// twice.
    pub open spec fn wf(self) -> bool {
        forall|i: int, j: int|
            0 <= i < j < self.entries@.len() ==> (#[trigger] self.entries@[i]).0
                != (#[trigger] self.entries@[j]).0 && text::sbytes(self.entries@[i].1)
                != text::sbytes(self.entries@[j].1)
    }

    /// The table links NCBI identifier `a` to HGNC identifier `b`.
    pub open spec fn maps(self, a: u32, b: Seq<u8>) -> bool {
        maps_in(self.entries@, a, b)
    }

    /// Resolves an NCBI gene identifier to its HGNC identifier, when the
    /// table holds one.
    pub fn ncbi_to_hgnc(&self, a: u32) -> (r: Option<String>)
        ensures
            r is Some ==> self.maps(a, text::sbytes(r->0)),
            r is None ==> forall|b: Seq<u8>| !self.maps(a, b),
    {
        let n: usize = self.entries.len();
        let mut i: usize = 0;
        while i < n
            invariant
                n == self.entries@.len(),
                i <= n,
                forall|k: int| 0 <= k < i ==> (#[trigger] self.entries@[k]).0 != a,
            decreases n - i,
        {
            if self.entries[i].0 == a {
                let b = self.entries[i].1.clone();
                proof {
                    assert(text::sbytes(b) == text::sbytes(self.entries@[i as int].1));
                }
                return Some(b);
            }
            i = i + 1;
        }
        None
    }

    /// Resolves an HGNC gene identifier to its NCBI identifier, when the
    /// table holds one.
    pub fn hgnc_to_ncbi(&self, b: &str) -> (r: Option<u32>)
        ensures
            r is Some ==> self.maps(r->0, b.spec_bytes()),
            r is None ==> forall|a: u32| !self.maps(a, b.spec_bytes()),
    {
        let n: usize = self.entries.len();
        let mut i: usize = 0;
        while i < n
            invariant
                n == self.entries@.len(),
                i <= n,
                forall|k: int|
                    0 <= k < i ==> text::sbytes((#[trigger] self.entries@[k]).1)
                        != b.spec_bytes(),
            decreases n - i,
        {
            if text::bytes_eq(self.entries[i].1.as_str().as_bytes(), b.as_bytes()) {
                return Some(self.entries[i].0);
            }
            i = i + 1;
        }
        None
    }
}

/// The views of the input lines as character sequences.
pub open spec fn line_views(s: Seq<String>) -> Seq<Seq<char>> {
    s.map_values(|x: String| x@)
}

/// An earlier well-formed line already used one of this line's two
/// identifiers.
pub open spec fn line_dup(ls: Seq<Seq<char>>, i: int) -> bool {
    exists|j: int|
        0 <= j < i && #[trigger] well_formed_line(ls[j]) && (line_a(ls[j]) == line_a(ls[i])
            || line_b_bytes(ls[j]) == line_b_bytes(ls[i]))
}

/// The line contributes an entry: it is well formed and repeats no
/// identifier of an earlier well-formed line.
pub open spec fn line_accepted(ls: Seq<Seq<char>>, i: int) -> bool {
    well_formed_line(ls[i]) && !line_dup(ls, i)
}


/// The entry sequence links NCBI identifier `a` to HGNC identifier `b`.
pub open spec fn maps_in(s: Seq<(u32, String)>, a: u32, b: Seq<u8>) -> bool {
    exists|i: int|
        0 <= i < s.len() && (#[trigger] s[i]).0 == a && text::sbytes(s[i].1) == b
}

/// Membership in a pushed sequence of positions: the old ones plus the
/// new one.
proof fn lemma_push_contains_usize(s: Seq<usize>, x: usize, t: usize)
    ensures
        s.push(x).contains(t) <==> s.contains(t) || t == x,
{
    if s.push(x).contains(t) {
        let i = choose|i: int| 0 <= i < s.push(x).len() && s.push(x)[i] == t;
        if i < s.len() {
            assert(s[i] == t);
        }
    }
    if s.contains(t) {
        let i = choose|i: int| 0 <= i < s.len() && s[i] == t;
        assert(s.push(x)[i] == t);
    }
    assert(s.push(x)[s.len() as int] == x);
}

/// The links of a pushed entry sequence: the old links plus the new pair.
proof fn lemma_push_maps(s: Seq<(u32, String)>, e: (u32, String), a: u32, b: Seq<u8>)
    ensures
        maps_in(s.push(e), a, b) <==> maps_in(s, a, b) || (e.0 == a && text::sbytes(e.1) == b),
{
    if maps_in(s.push(e), a, b) {
        let i = choose|i: int|
            0 <= i < s.push(e).len() && (#[trigger] s.push(e)[i]).0 == a && text::sbytes(
                s.push(e)[i].1,
            ) == b;
        if i < s.len() {
            assert((s[i]).0 == a && text::sbytes(s[i].1) == b);
        } else {
            assert(s.push(e)[i] == e);
        }
    }
    if maps_in(s, a, b) {
        let i = choose|i: int|
            0 <= i < s.len() && (#[trigger] s[i]).0 == a && text::sbytes(s[i].1) == b;
        assert((s.push(e)[i]).0 == a && text::sbytes(s.push(e)[i].1) == b);
    }
    if e.0 == a && text::sbytes(e.1) == b {
        assert((s.push(e)[s.len() as int]).0 == a && text::sbytes(s.push(e)[s.len() as int].1)
            == b);
    }
}

/// Loads the table from tab-delimited lines.
///
/// Accepted lines become entries in order; a malformed line, or one
/// repeating an identifier of an earlier well-formed line, is skipped
/// with its position reported, never fatal.
pub fn load(lines: &Vec<String>) -> (r: (XrefTable, Vec<usize>))
    ensures
        r.0.wf(),
        forall|a: u32, b: Seq<u8>| #[trigger]
            r.0.maps(a, b) <==> exists|i: int|
                0 <= i < lines@.len() && #[trigger] line_accepted(line_views(lines@), i) && line_a(
                    line_views(lines@)[i],
                ) == a as int && line_b_bytes(line_views(lines@)[i]) == b,
        forall|i: int|
            0 <= i < lines@.len() ==> (r.1@.contains(i as usize) <==> !line_accepted(
                line_views(lines@),
                i,
            )),
{
    let ghost ls = line_views(lines@);
    let mut entries: Vec<(u32, String)> = Vec::new();
    let mut skipped: Vec<usize> = Vec::new();
    let n: usize = lines.len();
    let mut i: usize = 0;
    while i < n
        invariant
            n == lines@.len(),
            ls == line_views(lines@),
            ls.len() == n,
            i <= n,
            forall|a: u32, b: Seq<u8>| #[trigger]
                maps_in(entries@, a, b) <==> exists|k: int|
                    0 <= k < i && #[trigger] line_accepted(ls, k) && line_a(ls[k]) == a as int
                        && line_b_bytes(ls[k]) == b,
            forall|p: int, q: int|
                0 <= p < q < entries@.len() ==> (#[trigger] entries@[p]).0
                    != (#[trigger] entries@[q]).0 && text::sbytes(entries@[p].1) != text::sbytes(
                    entries@[q].1,
                ),
            forall|k: int|
                0 <= k < i ==> ((#[trigger] skipped@.contains(k as usize)) <==> !line_accepted(
                    ls,
                    k,
                )),
            forall|m: int| 0 <= m < skipped@.len() ==> (#[trigger] skipped@[m]) < i,
        decreases n - i,
    {
        proof {
            assert(ls[i as int] == lines@[i as int]@);
        }
        let parsed = parse_line(lines[i].as_str());
        match parsed {
            None => {
                let ghost sk0 = skipped@;
                skipped.push(i);
                proof {
                    assert(!well_formed_line(ls[i as int]));
                    assert(!line_accepted(ls, i as int));
                    assert forall|k: int|
                        0 <= k < i + 1 implies ((#[trigger] skipped@.contains(k as usize))
                        <==> !line_accepted(ls, k)) by {
                        lemma_push_contains_usize(sk0, i, k as usize);
                    }
                }
            },
            Some((a, b)) => {
                let mut dup = false;
                let mut k: usize = 0;
                while k < i
                    invariant
                        n == lines@.len(),
                        ls == line_views(lines@),
                        ls.len() == n,
                        i < n,
                        k <= i,
                        a as int == line_a(ls[i as int]),
                        text::sbytes(b) == line_b_bytes(ls[i as int]),
                        well_formed_line(ls[i as int]),
                        dup ==> line_dup(ls, i as int),
                        !dup ==> forall|kk: int|
                            0 <= kk < k ==> !(#[trigger] well_formed_line(ls[kk]) && (line_a(
                                ls[kk],
                            ) == line_a(ls[i as int]) || line_b_bytes(ls[kk]) == line_b_bytes(
                                ls[i as int],
                            ))),
                    decreases i - k,
                {
                    proof {
                        assert(ls[k as int] == lines@[k as int]@);
                    }
                    match parse_line(lines[k].as_str()) {
                        Some((a2, b2)) => {
                            if a2 == a || text::bytes_eq(
                                b2.as_str().as_bytes(),
                                b.as_str().as_bytes(),
                            ) {
                                dup = true;
                                proof {
                                    assert(well_formed_line(ls[k as int]) && (line_a(ls[k as int])
                                        == line_a(ls[i as int]) || line_b_bytes(ls[k as int])
                                        == line_b_bytes(ls[i as int])));
                                    assert(line_dup(ls, i as int));
                                }
                            }
                        },
                        None => {},
                    }
                    k = k + 1;
                }
                if dup {
                    let ghost sk0 = skipped@;
                    skipped.push(i);
                    proof {
                        assert(!line_accepted(ls, i as int));
                        assert forall|kk: int|
                            0 <= kk < i + 1 implies ((#[trigger] skipped@.contains(kk as usize))
                            <==> !line_accepted(ls, kk)) by {
                            lemma_push_contains_usize(sk0, i, kk as usize);
                        }
                    }
                } else {
                    proof {
                        if line_dup(ls, i as int) {
                            let kk = choose|kk: int|
                                0 <= kk < i && #[trigger] well_formed_line(ls[kk]) && (line_a(
                                    ls[kk],
                                ) == line_a(ls[i as int]) || line_b_bytes(ls[kk]) == line_b_bytes(
                                    ls[i as int],
                                ));
                            assert(false);
                        }
                        assert(line_accepted(ls, i as int));
                    }
                    let ghost en0 = entries@;
                    entries.push((a, b));
                    proof {
                        assert(entries@ =~= en0.push((a, b)));
                        assert forall|kk: int|
                            0 <= kk < i + 1 implies ((#[trigger] skipped@.contains(kk as usize))
                            <==> !line_accepted(ls, kk)) by {
                            if kk == i {
                                if skipped@.contains(i as usize) {
                                    let m = choose|m: int|
                                        0 <= m < skipped@.len() && skipped@[m] == i as usize;
                                    assert(skipped@[m] < i);
                                }
                            }
                        }
                        // no accepted entry repeats either identifier of line i
                        assert forall|p: int, q: int|
                            0 <= p < q < entries@.len() implies (#[trigger] entries@[p]).0
                            != (#[trigger] entries@[q]).0 && text::sbytes(entries@[p].1)
                            != text::sbytes(entries@[q].1) by {
                            if q == entries@.len() - 1 {
                                assert(entries@[p] == en0[p]);
                                assert(maps_in(en0, en0[p].0, text::sbytes(en0[p].1)));
                                let kk = choose|kk: int|
                                    0 <= kk < i && #[trigger] line_accepted(ls, kk) && line_a(
                                        ls[kk],
                                    ) == en0[p].0 as int && line_b_bytes(ls[kk]) == text::sbytes(
                                        en0[p].1,
                                    );
                                assert(well_formed_line(ls[kk]));
                                assert(!(line_a(ls[kk]) == line_a(ls[i as int]) || line_b_bytes(
                                    ls[kk],
                                ) == line_b_bytes(ls[i as int])));
                                assert(entries@[q] == (a, b));
                            } else {
                                assert(entries@[p] == en0[p] && entries@[q] == en0[q]);
                            }
                        }
                        // links of the grown table
                        assert forall|aa: u32, cc: Seq<u8>| #[trigger]
                            maps_in(entries@, aa, cc) <==> exists|kk: int|
                                0 <= kk < i + 1 && #[trigger] line_accepted(ls, kk) && line_a(
                                    ls[kk],
                                ) == aa as int && line_b_bytes(ls[kk]) == cc by {
                            lemma_push_maps(en0, (a, b), aa, cc);
                            if exists|kk: int|
                                0 <= kk < i + 1 && #[trigger] line_accepted(ls, kk) && line_a(
                                    ls[kk],
                                ) == aa as int && line_b_bytes(ls[kk]) == cc {
                                let kk = choose|kk: int|
                                    0 <= kk < i + 1 && #[trigger] line_accepted(ls, kk) && line_a(
                                        ls[kk],
                                    ) == aa as int && line_b_bytes(ls[kk]) == cc;
                                if kk < i {
                                    assert(maps_in(en0, aa, cc));
                                }
                            }
                        }
                    }
                }
            },
        }
        i = i + 1;
    }
    (XrefTable { entries }, skipped)
}

/// With the table well formed, each direction of the mapping is a
/// function: a loaded pair determines its partner in both directions.
pub proof fn lemma_xref_symmetry(t: XrefTable, a: u32, b: Seq<u8>)
    requires
        t.wf(),
        t.maps(a, b),
    ensures
        forall|b2: Seq<u8>| t.maps(a, b2) ==> b2 == b,
        forall|a2: u32| t.maps(a2, b) ==> a2 == a,
{
    let i = choose|i: int|
        0 <= i < t.entries@.len() && (#[trigger] t.entries@[i]).0 == a && text::sbytes(
            t.entries@[i].1,
        ) == b;
    assert forall|b2: Seq<u8>| t.maps(a, b2) implies b2 == b by {
        let j = choose|j: int|
            0 <= j < t.entries@.len() && (#[trigger] t.entries@[j]).0 == a && text::sbytes(
                t.entries@[j].1,
            ) == b2;
        if i < j {
            assert(t.entries@[i].0 != t.entries@[j].0);
        } else if j < i {
            assert(t.entries@[j].0 != t.entries@[i].0);
        }
    }
    assert forall|a2: u32| t.maps(a2, b) implies a2 == a by {
        let j = choose|j: int|
            0 <= j < t.entries@.len() && (#[trigger] t.entries@[j]).0 == a2 && text::sbytes(
                t.entries@[j].1,
            ) == b;
        if i < j {
            assert(text::sbytes(t.entries@[i].1) != text::sbytes(t.entries@[j].1));
        } else if j < i {
            assert(text::sbytes(t.entries@[j].1) != text::sbytes(t.entries@[i].1));
        }
    }
}

} // verus!
