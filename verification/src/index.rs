//! Full-text index: per-field normalized text over every term's name,
//! synonyms and definition, answering "which term identifiers match string
//! S under mode M" without consulting the document again.
//!
//! Results are reported as identifiers in ascending lexicographic order
//! with no repeats, so that equal queries always return equal sequences.

use vstd::prelude::*;
use vstd::string::StringSliceAdditionalSpecFns;

use crate::Match;
use crate::document::{OntologyTerm, TermCollection};
use crate::text;

verus! {

/// Request-time error: the query cannot be answered at all.
#[derive(Debug, Clone, Copy, PartialEq, Eq, Structural)]
pub enum InvalidQuery {
    /// The query text is empty after normalization; an empty search would
    /// scan the whole index and is rejected.
    EmptyQuery,
}

/// One index record: a normalized field text and the identifier of the
/// term that carries the field.
pub struct IndexEntry {
    /// The normalized field text.
    pub text: Vec<u8>,
    /// The identifier of the term the field belongs to.
    pub term_id: String,
}

impl IndexEntry {
    /// The term identifier under the byte-level text model.
    pub open spec fn id_bytes(self) -> Seq<u8> {
        text::sbytes(self.term_id)
    }
}

/// The full-text index; immutable once built.
pub struct Index {
    /// One record per searchable field of every term.
    pub entries: Vec<IndexEntry>,
}

/// The entry sequence links term identifier `t` to normalized field text `f`.
pub open spec fn entry_in(s: Seq<IndexEntry>, t: Seq<u8>, f: Seq<u8>) -> bool {
    exists|k: int| 0 <= k < s.len() && (#[trigger] s[k]).id_bytes() == t && s[k].text@ == f
}

impl Index {
    /// Some record links normalized field text `f` to term `t`.
    pub open spec fn has_entry(self, t: Seq<u8>, f: Seq<u8>) -> bool {
        entry_in(self.entries@, t, f)
    }

    /// Term `t` has an indexed field that the normalized query `q` matches
    /// under mode `m`.
    pub open spec fn matches(self, m: Match, q: Seq<u8>, t: Seq<u8>) -> bool {
        exists|k: int|
            0 <= k < self.entries@.len() && (#[trigger] self.entries@[k]).id_bytes() == t
                && text::mode_matches(m, q, self.entries@[k].text@)
    }
}

/// The collection has a term `t` one of whose field texts normalizes to `f`.
pub open spec fn collection_has_field(c: TermCollection, t: Seq<u8>, f: Seq<u8>) -> bool {
    exists|i: int, k: int|
        0 <= i < c.terms@.len() && c.terms@[i].id_bytes() == t && 0 <= k
            < c.terms@[i].field_texts().len() && text::norm(
            #[trigger] c.terms@[i].field_texts()[k],
        ) == f
}

/// The index records exactly the normalized fields of the collection.
pub open spec fn index_from(idx: Index, c: TermCollection) -> bool {
    forall|t: Seq<u8>, f: Seq<u8>| #[trigger]
        idx.has_entry(t, f) <==> collection_has_field(c, t, f)
}

/// The identifiers of a result sequence under the byte-level text model.
pub open spec fn id_views(s: Seq<String>) -> Seq<Seq<u8>> {
    s.map_values(|x: String| text::sbytes(x))
}

/// The sequence is strictly ascending in the lexicographic order: sorted
/// and free of repeats.
pub open spec fn strictly_sorted(s: Seq<Seq<u8>>) -> bool {
    forall|i: int, j: int| 0 <= i < j < s.len() ==> text::lex_lt(s[i], s[j])
}

/// What a successful search reports for normalized query `q` under mode
/// `m`: a strictly ascending identifier sequence holding exactly the
/// matching terms.
pub open spec fn search_ok_post(idx: Index, m: Match, q: Seq<u8>, rids: Seq<Seq<u8>>) -> bool {
    &&& strictly_sorted(rids)
    &&& forall|t: Seq<u8>| #[trigger] rids.contains(t) <==> idx.matches(m, q, t)
}

/// In a strictly ascending sequence the tail holds exactly the members
/// other than the head.
proof fn lemma_sorted_tail_contains(s: Seq<Seq<u8>>, t: Seq<u8>)
    requires
        strictly_sorted(s),
        s.len() > 0,
    ensures
        s.drop_first().contains(t) <==> s.contains(t) && t != s[0],
{
    let tail = s.drop_first();
    if tail.contains(t) {
        let i = choose|i: int| 0 <= i < tail.len() && tail[i] == t;
        assert(s[i + 1] == t);
        assert(text::lex_lt(s[0], s[i + 1]));
        text::lemma_lex_lt_irreflexive(t);
        assert(s.contains(t));
    }
    if s.contains(t) && t != s[0] {
        let i = choose|i: int| 0 <= i < s.len() && s[i] == t;
        assert(i > 0);
        assert(tail[i - 1] == t);
        assert(tail.contains(t));
    }
}

/// Two strictly ascending sequences with the same members are the same
/// sequence: a sorted, repeat-free report is determined by its member set.
pub proof fn lemma_sorted_same_members_equal(a: Seq<Seq<u8>>, b: Seq<Seq<u8>>)
    requires
        strictly_sorted(a),
        strictly_sorted(b),
        forall|t: Seq<u8>| #[trigger] a.contains(t) <==> b.contains(t),
    ensures
        a == b,
    decreases a.len(),
{
    if a.len() == 0 {
        if b.len() > 0 {
            assert(b[0] == b[0]);
            assert(b.contains(b[0]));
            assert(a.contains(b[0]));
        }
        assert(a =~= b);
    } else {
        assert(a.contains(a[0]));
        assert(b.contains(a[0]));
        let i = choose|i: int| 0 <= i < b.len() && b[i] == a[0];
        assert(b.contains(b[0]));
        assert(a.contains(b[0]));
        let j = choose|j: int| 0 <= j < a.len() && a[j] == b[0];
        if i > 0 {
            assert(text::lex_lt(b[0], a[0]));
            if j > 0 {
                assert(text::lex_lt(a[0], b[0]));
                text::lemma_lex_lt_transitive(a[0], b[0], a[0]);
            }
            text::lemma_lex_lt_irreflexive(a[0]);
        }
        assert(a[0] == b[0]);
        let ta = a.drop_first();
        let tb = b.drop_first();
        assert(strictly_sorted(ta)) by {
            assert forall|p: int, q: int| 0 <= p < q < ta.len() implies text::lex_lt(
                ta[p],
                ta[q],
            ) by {
                assert(ta[p] == a[p + 1] && ta[q] == a[q + 1]);
            }
        }
        assert(strictly_sorted(tb)) by {
            assert forall|p: int, q: int| 0 <= p < q < tb.len() implies text::lex_lt(
                tb[p],
                tb[q],
            ) by {
                assert(tb[p] == b[p + 1] && tb[q] == b[q + 1]);
            }
        }
        assert forall|t: Seq<u8>| #[trigger] ta.contains(t) <==> tb.contains(t) by {
            lemma_sorted_tail_contains(a, t);
            lemma_sorted_tail_contains(b, t);
        }
        lemma_sorted_same_members_equal(ta, tb);
        assert forall|p: int| 0 <= p < a.len() implies a[p] == b[p] by {
            if p > 0 {
                assert(a[p] == ta[p - 1] && b[p] == tb[p - 1]);
            }
        }
        assert(a =~= b);
    }
}

/// Issuing the same query twice against an unchanged index yields
/// identical ordered results.
pub proof fn lemma_search_idempotent(
    idx: Index,
    m: Match,
    q: Seq<u8>,
    r1: Seq<Seq<u8>>,
    r2: Seq<Seq<u8>>,
)
    requires
        search_ok_post(idx, m, q, r1),
        search_ok_post(idx, m, q, r2),
    ensures
        r1 == r2,
{
    lemma_sorted_same_members_equal(r1, r2);
}

/// A successful Exact search reports precisely the terms having a field
/// whose normalized text equals the normalized query.
pub proof fn lemma_exact_search(idx: Index, c: TermCollection, q: Seq<u8>, rids: Seq<Seq<u8>>)
    requires
        index_from(idx, c),
        search_ok_post(idx, Match::Exact, text::norm(q), rids),
    ensures
        forall|t: Seq<u8>| #[trigger]
            rids.contains(t) <==> collection_has_field(c, t, text::norm(q)),
{
    let nq = text::norm(q);
    assert forall|t: Seq<u8>| #[trigger]
        rids.contains(t) <==> collection_has_field(c, t, nq) by {
        if idx.matches(Match::Exact, nq, t) {
            let k = choose|k: int|
                0 <= k < idx.entries@.len() && (#[trigger] idx.entries@[k]).id_bytes() == t
                    && text::mode_matches(Match::Exact, nq, idx.entries@[k].text@);
            assert(idx.entries@[k].text@ == nq);
            assert(idx.has_entry(t, nq));
        }
        if idx.has_entry(t, nq) {
            let k = choose|k: int|
                0 <= k < idx.entries@.len() && (#[trigger] idx.entries@[k]).id_bytes() == t
                    && idx.entries@[k].text@ == nq;
            assert(text::mode_matches(Match::Exact, nq, idx.entries@[k].text@));
            assert(idx.matches(Match::Exact, nq, t));
        }
        assert(idx.has_entry(t, nq) <==> collection_has_field(c, t, nq));
    }
}

/// A successful Contains search reports precisely the terms one of whose
/// normalized fields holds the normalized query as a contiguous
/// substring: no qualifying term is omitted.
pub proof fn lemma_contains_search(idx: Index, c: TermCollection, q: Seq<u8>, rids: Seq<Seq<u8>>)
    requires
        index_from(idx, c),
        search_ok_post(idx, Match::Contains, text::norm(q), rids),
    ensures
        forall|t: Seq<u8>| #[trigger]
            rids.contains(t) <==> exists|f: Seq<u8>|
                #[trigger] collection_has_field(c, t, f) && text::is_substring(text::norm(q), f),
{
    let nq = text::norm(q);
    assert forall|t: Seq<u8>| #[trigger]
        rids.contains(t) <==> exists|f: Seq<u8>|
            #[trigger] collection_has_field(c, t, f) && text::is_substring(nq, f) by {
        if idx.matches(Match::Contains, nq, t) {
            let k = choose|k: int|
                0 <= k < idx.entries@.len() && (#[trigger] idx.entries@[k]).id_bytes() == t
                    && text::mode_matches(Match::Contains, nq, idx.entries@[k].text@);
            let f = idx.entries@[k].text@;
            assert(idx.has_entry(t, f));
            assert(collection_has_field(c, t, f) && text::is_substring(nq, f));
        }
        if exists|f: Seq<u8>|
            #[trigger] collection_has_field(c, t, f) && text::is_substring(nq, f) {
            let f = choose|f: Seq<u8>|
                #[trigger] collection_has_field(c, t, f) && text::is_substring(nq, f);
            assert(idx.has_entry(t, f));
            let k = choose|k: int|
                0 <= k < idx.entries@.len() && (#[trigger] idx.entries@[k]).id_bytes() == t
                    && idx.entries@[k].text@ == f;
            assert(text::mode_matches(Match::Contains, nq, idx.entries@[k].text@));
            assert(idx.matches(Match::Contains, nq, t));
        }
    }
}

/// Every term identifier of the loaded collection is reachable via an
/// Exact search on the term's own name.
pub proof fn lemma_name_round_trip(idx: Index, c: TermCollection, i: int, rids: Seq<Seq<u8>>)
    requires
        index_from(idx, c),
        0 <= i < c.terms@.len(),
        search_ok_post(idx, Match::Exact, text::norm(text::sbytes(c.terms@[i].name)), rids),
    ensures
        rids.contains(c.terms@[i].id_bytes()),
{
    let t = c.terms@[i].id_bytes();
    let nm = text::sbytes(c.terms@[i].name);
    let nq = text::norm(nm);
    assert(c.terms@[i].field_texts()[0] == nm);
    assert(collection_has_field(c, t, nq)) by {
        assert(0 <= i < c.terms@.len() && c.terms@[i].id_bytes() == t && 0 <= 0
            < c.terms@[i].field_texts().len() && text::norm(c.terms@[i].field_texts()[0]) == nq);
    }
    assert(idx.has_entry(t, nq));
    let k = choose|k: int|
        0 <= k < idx.entries@.len() && (#[trigger] idx.entries@[k]).id_bytes() == t
            && idx.entries@[k].text@ == nq;
    assert(text::mode_matches(Match::Exact, nq, idx.entries@[k].text@));
    assert(idx.matches(Match::Exact, nq, t));
}

/// Membership in a sequence with one element inserted: the old members
/// plus the new element.
proof fn lemma_insert_contains(s: Seq<Seq<u8>>, p: int, x: Seq<u8>, t: Seq<u8>)
    requires
        0 <= p <= s.len(),
    ensures
        s.insert(p, x).contains(t) <==> s.contains(t) || t == x,
{
    let s2 = s.insert(p, x);
    if s2.contains(t) {
        let i = choose|i: int| 0 <= i < s2.len() && s2[i] == t;
        if i < p {
            assert(s[i] == t);
        } else if i > p {
            assert(s[i - 1] == t);
        }
    }
    if s.contains(t) {
        let i = choose|i: int| 0 <= i < s.len() && s[i] == t;
        if i < p {
            assert(s2[i] == t);
        } else {
            assert(s2[i + 1] == t);
        }
    }
    assert(s2[p] == x);
}

/// Inserts an identifier into a strictly ascending sequence, keeping the
/// order and skipping it when it is already present.
fn insert_sorted_unique(ids: &mut Vec<String>, id: &String)
    requires
        strictly_sorted(id_views(old(ids)@)),
    ensures
        strictly_sorted(id_views(final(ids)@)),
        forall|t: Seq<u8>| #[trigger]
            id_views(final(ids)@).contains(t) <==> id_views(old(ids)@).contains(t) || t
                == text::sbytes(*id),
{
    let ghost v0 = id_views(ids@);
    let x = id.as_str().as_bytes();
    let n: usize = ids.len();
    let mut p: usize = 0;
    while p < n && text::bytes_lt(ids[p].as_str().as_bytes(), x)
        invariant
            n == ids@.len(),
            v0 == id_views(ids@),
            strictly_sorted(v0),
            x@ == text::sbytes(*id),
            p <= n,
            forall|j: int| 0 <= j < p ==> text::lex_lt(v0[j], x@),
        decreases n - p,
    {
        p = p + 1;
    }
    if p < n && text::bytes_eq(ids[p].as_str().as_bytes(), x) {
        proof {
            assert(v0[p as int] == x@);
            assert(v0.contains(x@));
        }
        return ;
    }
    proof {
        if p < n {
            text::lemma_lex_lt_total(v0[p as int], x@);
            assert(text::lex_lt(x@, v0[p as int]));
        }
        assert forall|j: int| p <= j < n implies text::lex_lt(x@, v0[j]) by {
            if j > p {
                text::lemma_lex_lt_transitive(x@, v0[p as int], v0[j]);
            }
        }
    }
    let cl = id.clone();
    proof {
        assert(text::sbytes(cl) == text::sbytes(*id));
    }
    ids.insert(p, cl);
    proof {
        let v1 = id_views(ids@);
        assert(v1 =~= v0.insert(p as int, x@));
        assert forall|i: int, j: int| 0 <= i < j < v1.len() implies text::lex_lt(v1[i], v1[j]) by {
            let pi = p as int;
            if i < pi && j < pi {
            } else if i < pi && j == pi {
            } else if i < pi && j > pi {
            } else if i == pi && j > pi {
            } else if i > pi {
            }
        }
        assert forall|t: Seq<u8>| #[trigger]
            v1.contains(t) <==> v0.contains(t) || t == x@ by {
            lemma_insert_contains(v0, p as int, x@, t);
        }
    }
}

impl Index {
    /// Builds the index from a loaded term collection: one record per
    /// searchable field, holding the field's normalized text.
    pub fn new(c: &TermCollection) -> (idx: Index)
        ensures
            index_from(idx, *c),
    {
        let mut entries: Vec<IndexEntry> = Vec::new();
        let n: usize = c.len();
        let mut i: usize = 0;
        while i < n
            invariant
                n == c.terms@.len(),
                i <= n,
                forall|t: Seq<u8>, f: Seq<u8>| #[trigger]
                    entry_in(entries@, t, f) <==> exists|ii: int, k: int|
                        0 <= ii < i && c.terms@[ii].id_bytes() == t && 0 <= k
                            < c.terms@[ii].field_texts().len() && text::norm(
                            #[trigger] c.terms@[ii].field_texts()[k],
                        ) == f,
            decreases n - i,
        {
            add_term(&mut entries, &c.terms[i]);
            proof {
                assert forall|t: Seq<u8>, f: Seq<u8>| #[trigger]
                    entry_in(entries@, t, f) <==> exists|ii: int, k: int|
                        0 <= ii < i + 1 && c.terms@[ii].id_bytes() == t && 0 <= k
                            < c.terms@[ii].field_texts().len() && text::norm(
                            #[trigger] c.terms@[ii].field_texts()[k],
                        ) == f by {}
            }
            i = i + 1;
        }
        let idx = Index { entries };
        proof {
            assert forall|t: Seq<u8>, f: Seq<u8>| #[trigger]
                idx.has_entry(t, f) <==> collection_has_field(*c, t, f) by {}
        }
        idx
    }

    /// Answers a point query: which term identifiers match `query` under
    /// `mode`.
    ///
    /// The query text is normalized exactly as fields were at build time.
    /// A query that is empty after normalization is rejected; otherwise
    /// the result holds exactly the matching identifiers, in ascending
    /// lexicographic order with no repeats.
    pub fn search(&self, query: &str, mode: Match) -> (r: Result<Vec<String>, InvalidQuery>)
        ensures
            r is Ok <==> text::norm(query.spec_bytes()).len() > 0,
            r is Ok ==> search_ok_post(
                *self,
                mode,
                text::norm(query.spec_bytes()),
                id_views(r->Ok_0@),
            ),
            r is Err ==> r->Err_0 == InvalidQuery::EmptyQuery,
    {
        let qb = text::str_to_bytes(query);
        let nq = text::normalize(qb.as_slice());
        if nq.len() == 0 {
            return Err(InvalidQuery::EmptyQuery);
        }
        let mut ids: Vec<String> = Vec::new();
        let n: usize = self.entries.len();
        let mut k: usize = 0;
        while k < n
            invariant
                n == self.entries@.len(),
                k <= n,
                nq@ == text::norm(query.spec_bytes()),
                strictly_sorted(id_views(ids@)),
                forall|t: Seq<u8>| #[trigger]
                    id_views(ids@).contains(t) <==> exists|j: int|
                        0 <= j < k && (#[trigger] self.entries@[j]).id_bytes() == t
                            && text::mode_matches(mode, nq@, self.entries@[j].text@),
            decreases n - k,
        {
            let e = &self.entries[k];
            if text::matches_mode(mode, nq.as_slice(), e.text.as_slice()) {
                let ghost before = id_views(ids@);
                insert_sorted_unique(&mut ids, &e.term_id);
                proof {
                    assert forall|t: Seq<u8>| #[trigger]
                        id_views(ids@).contains(t) <==> exists|j: int|
                            0 <= j < k + 1 && (#[trigger] self.entries@[j]).id_bytes() == t
                                && text::mode_matches(mode, nq@, self.entries@[j].text@) by {
                        if id_views(ids@).contains(t) {
                            if before.contains(t) {
                            } else {
                                assert(t == self.entries@[k as int].id_bytes());
                            }
                        }
                    }
                }
            } else {
                proof {
                    assert forall|t: Seq<u8>| #[trigger]
                        id_views(ids@).contains(t) <==> exists|j: int|
                            0 <= j < k + 1 && (#[trigger] self.entries@[j]).id_bytes() == t
                                && text::mode_matches(mode, nq@, self.entries@[j].text@) by {
                        if !id_views(ids@).contains(t) {
                            if exists|j: int|
                                0 <= j < k + 1 && (#[trigger] self.entries@[j]).id_bytes() == t
                                    && text::mode_matches(mode, nq@, self.entries@[j].text@) {
                                let j = choose|j: int|
                                    0 <= j < k + 1 && (#[trigger] self.entries@[j]).id_bytes() == t
                                        && text::mode_matches(mode, nq@, self.entries@[j].text@);
                                assert(j < k);
                            }
                        }
                    }
                }
            }
            k = k + 1;
        }
        Ok(ids)
    }
}

/// Appends one term's fields to the entry sequence: afterwards the links
/// are the old ones plus one per field of the term.
fn add_term(entries: &mut Vec<IndexEntry>, term: &OntologyTerm)
    ensures
        forall|t: Seq<u8>, f: Seq<u8>| #[trigger]
            entry_in(final(entries)@, t, f) <==> entry_in(old(entries)@, t, f) || (t
                == term.id_bytes() && exists|k: int|
                0 <= k < term.field_texts().len() && text::norm(term.field_texts()[k]) == f),
{
    let ghost fts = term.field_texts();
    let nsyn: usize = term.synonyms.len();
    proof {
        assert(fts.len() == 1 + nsyn + (if term.definition is Some {
            1int
        } else {
            0int
        }));
        assert(fts[0] == text::sbytes(term.name));
        assert forall|k: int| 0 <= k < nsyn implies fts[1 + k] == text::sbytes(
            term.synonyms@[k],
        ) by {}
        if term.definition is Some {
            assert(fts[1 + nsyn as int] == text::sbytes(term.definition->0));
        }
    }
    push_field(entries, &term.name, &term.id, Ghost(fts), Ghost(0));
    let mut s: usize = 0;
    while s < nsyn
        invariant
            nsyn == term.synonyms@.len(),
            s <= nsyn,
            fts == term.field_texts(),
            fts[0] == text::sbytes(term.name),
            forall|k: int| 0 <= k < nsyn ==> fts[1 + k] == text::sbytes(term.synonyms@[k]),
            forall|t: Seq<u8>, f: Seq<u8>| #[trigger]
                entry_in(entries@, t, f) <==> entry_in(old(entries)@, t, f) || (t
                    == term.id_bytes() && exists|k: int|
                    0 <= k < 1 + s && text::norm(fts[k]) == f),
        decreases nsyn - s,
    {
        push_field(entries, &term.synonyms[s], &term.id, Ghost(fts), Ghost(1 + s as int));
        proof {
            assert forall|t: Seq<u8>, f: Seq<u8>| #[trigger]
                entry_in(entries@, t, f) <==> entry_in(old(entries)@, t, f) || (t
                    == term.id_bytes() && exists|k: int|
                    0 <= k < 1 + s + 1 && text::norm(fts[k]) == f) by {}
        }
        s = s + 1;
    }
    match &term.definition {
        Some(d) => {
            push_field(entries, d, &term.id, Ghost(fts), Ghost(1 + nsyn as int));
            proof {
                assert forall|t: Seq<u8>, f: Seq<u8>| #[trigger]
                    entry_in(entries@, t, f) <==> entry_in(old(entries)@, t, f) || (t
                        == term.id_bytes() && exists|k: int|
                        0 <= k < fts.len() && text::norm(fts[k]) == f) by {}
            }
        },
        None => {
            proof {
                assert(fts.len() == 1 + nsyn);
            }
        },
    }
}

/// Appends one field record; the link set grows by exactly the pair of
/// this term and this field's normalized text.
fn push_field(
    entries: &mut Vec<IndexEntry>,
    field: &String,
    id: &String,
    Ghost(fts): Ghost<Seq<Seq<u8>>>,
    Ghost(pos): Ghost<int>,
)
    requires
        0 <= pos < fts.len(),
        fts[pos] == text::sbytes(*field),
    ensures
        forall|t: Seq<u8>, f: Seq<u8>| #[trigger]
            entry_in(final(entries)@, t, f) <==> entry_in(old(entries)@, t, f) || (t
                == text::sbytes(*id) && f == text::norm(fts[pos])),
{
    let fb = field.as_str().as_bytes();
    let nf = text::normalize(fb);
    let cl = id.clone();
    proof {
        assert(text::sbytes(cl) == text::sbytes(*id));
    }
    let e = IndexEntry { text: nf, term_id: cl };
    entries.push(e);
    proof {
        let s2 = entries@;
        let s1 = old(entries)@;
        assert(s2 =~= s1.push(e));
        assert forall|t: Seq<u8>, f: Seq<u8>| #[trigger]
            entry_in(s2, t, f) <==> entry_in(s1, t, f) || (t == text::sbytes(*id) && f
                == text::norm(fts[pos])) by {
            if entry_in(s2, t, f) {
                let k = choose|k: int|
                    0 <= k < s2.len() && (#[trigger] s2[k]).id_bytes() == t && s2[k].text@ == f;
                if k < s1.len() {
                    assert(s1[k].id_bytes() == t && s1[k].text@ == f);
                } else {
                    assert(s2[k] == e);
                }
            }
            if entry_in(s1, t, f) {
                let k = choose|k: int|
                    0 <= k < s1.len() && (#[trigger] s1[k]).id_bytes() == t && s1[k].text@ == f;
                assert(s2[k].id_bytes() == t && s2[k].text@ == f);
            }
            if t == text::sbytes(*id) && f == text::norm(fts[pos]) {
                assert(s2[s1.len() as int] == e);
                assert(s2[s1.len() as int].id_bytes() == t && s2[s1.len() as int].text@ == f);
            }
        }
    }
}

} // verus!
