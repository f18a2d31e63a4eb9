//! Query assembler: turns heterogeneous requests — explicit term
//! identifier lists, or gene identifiers that must be carried into the
//! other namespace — into canonical identifier sequences, deduplicated in
//! first-seen order, with non-fatal warnings for what could not be
//! resolved instead of a request-fatal error.

use vstd::prelude::*;
use vstd::string::StringSliceAdditionalSpecFns;

use crate::document::TermCollection;
use crate::index::{id_views, Index, InvalidQuery};
use crate::server::ResultHpoTerm;
use crate::text;
use crate::xref::XrefTable;
use crate::Match;

verus! {

/// A non-fatal, per-item diagnostic accumulated alongside partial
/// results.
#[derive(Debug, Clone, PartialEq, Eq)]
pub enum ResolutionWarning {
    /// A requested term identifier is not in the loaded collection.
    UnknownTermId {
        /// The identifier as requested.
        id: String,
    },
    /// A requested NCBI gene identifier has no cross-reference entry.
    UnresolvableGene {
        /// The identifier as requested.
        ncbi_gene_id: u32,
    },
}

/// First-seen deduplication of a sequence of identifiers: each identifier
/// keeps its first position and later repeats vanish.
pub open spec fn dedup_views(s: Seq<Seq<u8>>) -> Seq<Seq<u8>>
    decreases s.len(),
{
    if s.len() == 0 {
        Seq::empty()
    } else if dedup_views(s.drop_last()).contains(s.last()) {
        dedup_views(s.drop_last())
    } else {
        dedup_views(s.drop_last()).push(s.last())
    }
}

/// The requested identifiers that the collection knows, in request order.
pub open spec fn keep_known(c: TermCollection, s: Seq<Seq<u8>>) -> Seq<Seq<u8>>
    decreases s.len(),
{
    if s.len() == 0 {
        Seq::empty()
    } else if c.has_id(s.last()) {
        keep_known(c, s.drop_last()).push(s.last())
    } else {
        keep_known(c, s.drop_last())
    }
}

/// The requested identifiers that the collection does not know, in
/// request order.
pub open spec fn keep_unknown(c: TermCollection, s: Seq<Seq<u8>>) -> Seq<Seq<u8>>
    decreases s.len(),
{
    if s.len() == 0 {
        Seq::empty()
    } else if c.has_id(s.last()) {
        keep_unknown(c, s.drop_last())
    } else {
        keep_unknown(c, s.drop_last()).push(s.last())
    }
}

/// Decides whether the collection holds a term with this identifier.
pub fn collection_contains(c: &TermCollection, id: &str) -> (r: bool)
    ensures
        r == c.has_id(id.spec_bytes()),
{
    let n: usize = c.terms.len();
    let mut i: usize = 0;
    while i < n
        invariant
            n == c.terms@.len(),
            i <= n,
            forall|k: int| 0 <= k < i ==> (#[trigger] c.terms@[k]).id_bytes() != id.spec_bytes(),
        decreases n - i,
    {
        if text::bytes_eq(c.terms[i].id.as_str().as_bytes(), id.as_bytes()) {
            proof {
                assert(c.terms@[i as int].id_bytes() == id.spec_bytes());
            }
            return true;
        }
        i = i + 1;
    }
    false
}

/// Decides whether an identifier already stands in the output sequence.
fn vec_contains_bytes(v: &Vec<String>, x: &[u8]) -> (r: bool)
    ensures
        r == id_views(v@).contains(x@),
{
    let n: usize = v.len();
    let mut i: usize = 0;
    while i < n
        invariant
            n == v@.len(),
            i <= n,
            forall|k: int| 0 <= k < i ==> id_views(v@)[k] != x@,
        decreases n - i,
    {
        if text::bytes_eq(v[i].as_str().as_bytes(), x) {
            proof {
                assert(id_views(v@)[i as int] == x@);
            }
            return true;
        }
        i = i + 1;
    }
    proof {
        if id_views(v@).contains(x@) {
            let k = choose|k: int| 0 <= k < id_views(v@).len() && id_views(v@)[k] == x@;
            assert(id_views(v@)[k] != x@);
        }
    }
    false
}

/// Resolves an explicit term identifier list against the collection.
///
/// Known identifiers are kept in first-seen order without repeats;
/// unknown ones are dropped, each with a warning, so that one bad
/// identifier does not void the whole batch.
pub fn resolve_term_ids(c: &TermCollection, ids: &Vec<String>) -> (r: (
    Vec<String>,
    Vec<ResolutionWarning>,
))
    ensures
        id_views(r.0@) == dedup_views(keep_known(*c, id_views(ids@))),
        r.1@.len() == keep_unknown(*c, id_views(ids@)).len(),
        forall|m: int|
            0 <= m < r.1@.len() ==> ((#[trigger] r.1@[m]) matches ResolutionWarning::UnknownTermId {
                id,
            } && text::sbytes(id) == keep_unknown(*c, id_views(ids@))[m]),
{
    let mut out: Vec<String> = Vec::new();
    let mut warns: Vec<ResolutionWarning> = Vec::new();
    let n: usize = ids.len();
    let mut i: usize = 0;
    proof {
        assert(id_views(ids@).subrange(0, 0) =~= Seq::<Seq<u8>>::empty());
    }
    while i < n
        invariant
            n == ids@.len(),
            i <= n,
            id_views(out@) == dedup_views(keep_known(*c, id_views(ids@).subrange(0, i as int))),
            warns@.len() == keep_unknown(*c, id_views(ids@).subrange(0, i as int)).len(),
            forall|m: int|
                0 <= m < warns@.len() ==> ((#[trigger] warns@[m])
                    matches ResolutionWarning::UnknownTermId { id } && text::sbytes(id)
                    == keep_unknown(*c, id_views(ids@).subrange(0, i as int))[m]),
        decreases n - i,
    {
        let ghost pre = id_views(ids@).subrange(0, i as int);
        let ghost post = id_views(ids@).subrange(0, i + 1);
        proof {
            assert(post.drop_last() =~= pre);
            assert(post.last() == text::sbytes(ids@[i as int]));
        }
        let id = &ids[i];
        if collection_contains(c, id.as_str()) {
            proof {
                let kk = keep_known(*c, pre);
                assert(keep_known(*c, post) == kk.push(post.last()));
                assert(kk.push(post.last()).drop_last() =~= kk);
            }
            if !vec_contains_bytes(&out, id.as_str().as_bytes()) {
                let cl = id.clone();
                proof {
                    assert(text::sbytes(cl) == text::sbytes(*id));
                }
                let ghost out0 = out@;
                out.push(cl);
                proof {
                    assert(id_views(out@) =~= id_views(out0).push(text::sbytes(*id)));
                }
            }
        } else {
            let cl = id.clone();
            proof {
                assert(text::sbytes(cl) == text::sbytes(*id));
            }
            warns.push(ResolutionWarning::UnknownTermId { id: cl });
        }
        i = i + 1;
    }
    proof {
        assert(id_views(ids@).subrange(0, n as int) =~= id_views(ids@));
    }
    (out, warns)
}

/// The identifiers of a result-record sequence under the byte-level
/// text model.
pub open spec fn term_record_views(s: Seq<ResultHpoTerm>) -> Seq<Seq<u8>> {
    s.map_values(|x: ResultHpoTerm| text::sbytes(x.term_id))
}

/// Every record pairs a term identifier of the collection with that
/// term's own name.
pub open spec fn named_records_ok(c: TermCollection, s: Seq<ResultHpoTerm>) -> bool {
    forall|m: int|
        0 <= m < s.len() ==> exists|i: int|
            0 <= i < c.terms@.len() && c.terms@[i].id_bytes() == text::sbytes(
                (#[trigger] s[m]).term_id,
            ) && text::sbytes(s[m].name) == text::sbytes(c.terms@[i].name)
}

/// Finds the position of the term carrying this identifier.
fn find_term(c: &TermCollection, id: &str) -> (r: Option<usize>)
    ensures
        match r {
            Some(k) => k < c.terms@.len() && c.terms@[k as int].id_bytes() == id.spec_bytes(),
            None => !c.has_id(id.spec_bytes()),
        },
{
    let n: usize = c.terms.len();
    let mut k: usize = 0;
    while k < n
        invariant
            n == c.terms@.len(),
            k <= n,
            forall|j: int| 0 <= j < k ==> (#[trigger] c.terms@[j]).id_bytes() != id.spec_bytes(),
        decreases n - k,
    {
        if text::bytes_eq(c.terms[k].id.as_str().as_bytes(), id.as_bytes()) {
            proof {
                assert(c.terms@[k as int].id_bytes() == id.spec_bytes());
            }
            return Some(k);
        }
        k = k + 1;
    }
    proof {
        if c.has_id(id.spec_bytes()) {
            let j = choose|j: int|
                0 <= j < c.terms@.len() && c.terms@[j].id_bytes() == id.spec_bytes();
            assert(c.terms@[j].id_bytes() != id.spec_bytes());
        }
    }
    None
}

/// Attaches display metadata to resolved term identifiers: each known
/// identifier, in order, paired with the name of its term; identifiers
/// the collection does not know contribute nothing.
pub fn terms_with_names(c: &TermCollection, ids: &Vec<String>) -> (r: Vec<ResultHpoTerm>)
    ensures
        term_record_views(r@) == keep_known(*c, id_views(ids@)),
        named_records_ok(*c, r@),
{
    let mut out: Vec<ResultHpoTerm> = Vec::new();
    let n: usize = ids.len();
    let mut i: usize = 0;
    proof {
        assert(id_views(ids@).subrange(0, 0) =~= Seq::<Seq<u8>>::empty());
    }
    while i < n
        invariant
            n == ids@.len(),
            i <= n,
            term_record_views(out@) == keep_known(*c, id_views(ids@).subrange(0, i as int)),
            named_records_ok(*c, out@),
        decreases n - i,
    {
        let ghost pre = id_views(ids@).subrange(0, i as int);
        let ghost post = id_views(ids@).subrange(0, i + 1);
        proof {
            assert(post.drop_last() =~= pre);
            assert(post.last() == text::sbytes(ids@[i as int]));
        }
        let id = &ids[i];
        match find_term(c, id.as_str()) {
            Some(k) => {
                let rec = ResultHpoTerm { term_id: id.clone(), name: c.terms[k].name.clone() };
                let ghost out0 = out@;
                proof {
                    assert(c.terms@[k as int].id_bytes() == text::sbytes(*id));
                    assert(text::sbytes(rec.term_id) == text::sbytes(*id));
                    assert(text::sbytes(rec.name) == text::sbytes(c.terms@[k as int].name));
                    assert(c.has_id(post.last()));
                    let kk = keep_known(*c, pre);
                    assert(keep_known(*c, post) == kk.push(post.last()));
                }
                out.push(rec);
                proof {
                    assert(term_record_views(out@) =~= term_record_views(out0).push(
                        text::sbytes(*id),
                    ));
                    assert(named_records_ok(*c, out@)) by {
                        assert forall|m: int| 0 <= m < out@.len() implies exists|ii: int|
                            0 <= ii < c.terms@.len() && c.terms@[ii].id_bytes() == text::sbytes(
                                (#[trigger] out@[m]).term_id,
                            ) && text::sbytes(out@[m].name) == text::sbytes(c.terms@[ii].name) by {
                            if m < out0.len() {
                                assert(out@[m] == out0[m]);
                                assert(exists|ii: int|
                                    0 <= ii < c.terms@.len() && c.terms@[ii].id_bytes()
                                        == text::sbytes((#[trigger] out0[m]).term_id)
                                        && text::sbytes(out0[m].name) == text::sbytes(
                                        c.terms@[ii].name,
                                    ));
                                let ii = choose|ii: int|
                                    0 <= ii < c.terms@.len() && c.terms@[ii].id_bytes()
                                        == text::sbytes((#[trigger] out0[m]).term_id)
                                        && text::sbytes(out0[m].name) == text::sbytes(
                                        c.terms@[ii].name,
                                    );
                                assert(0 <= ii < c.terms@.len() && c.terms@[ii].id_bytes()
                                    == text::sbytes(out@[m].term_id) && text::sbytes(out@[m].name)
                                    == text::sbytes(c.terms@[ii].name));
                            } else {
                                assert(out@[m] == rec);
                                assert(0 <= (k as int) < c.terms@.len() && c.terms@[k as int].id_bytes()
                                    == text::sbytes(out@[m].term_id) && text::sbytes(out@[m].name)
                                    == text::sbytes(c.terms@[k as int].name));
                            }
                        }
                    }
                }
            },
            None => {
                proof {
                    assert(!c.has_id(post.last()));
                    assert(keep_known(*c, post) == keep_known(*c, pre));
                }
            },
        }
        i = i + 1;
    }
    proof {
        assert(id_views(ids@).subrange(0, n as int) =~= id_views(ids@));
    }
    out
}

/// The cross-reference table has an HGNC partner for this NCBI gene.
pub open spec fn gene_mapped(t: XrefTable, a: u32) -> bool {
    exists|b: Seq<u8>| t.maps(a, b)
}

/// The HGNC partner of a mapped NCBI gene.
pub open spec fn hgnc_of(t: XrefTable, a: u32) -> Seq<u8> {
    choose|b: Seq<u8>| t.maps(a, b)
}

/// The HGNC identifiers of the mappable requested genes, in request
/// order.
pub open spec fn keep_mapped(t: XrefTable, s: Seq<u32>) -> Seq<Seq<u8>>
    decreases s.len(),
{
    if s.len() == 0 {
        Seq::empty()
    } else if gene_mapped(t, s.last()) {
        keep_mapped(t, s.drop_last()).push(hgnc_of(t, s.last()))
    } else {
        keep_mapped(t, s.drop_last())
    }
}

/// The requested genes with no cross-reference entry, in request order.
pub open spec fn keep_unmapped(t: XrefTable, s: Seq<u32>) -> Seq<u32>
    decreases s.len(),
{
    if s.len() == 0 {
        Seq::empty()
    } else if gene_mapped(t, s.last()) {
        keep_unmapped(t, s.drop_last())
    } else {
        keep_unmapped(t, s.drop_last()).push(s.last())
    }
}

/// Resolves NCBI gene identifiers toward the HGNC namespace.
///
/// Mapped genes yield their HGNC identifier in first-seen order without
/// repeats; genes without a cross-reference entry are dropped, each with
/// a warning, mirroring the identifier-list policy.
pub fn resolve_genes_to_hgnc(t: &XrefTable, genes: &Vec<u32>) -> (r: (
    Vec<String>,
    Vec<ResolutionWarning>,
))
    requires
        t.wf(),
    ensures
        id_views(r.0@) == dedup_views(keep_mapped(*t, genes@)),
        r.1@.len() == keep_unmapped(*t, genes@).len(),
        forall|m: int|
            0 <= m < r.1@.len() ==> ((#[trigger] r.1@[m])
                matches ResolutionWarning::UnresolvableGene { ncbi_gene_id } && ncbi_gene_id
                == keep_unmapped(*t, genes@)[m]),
{
    let mut out: Vec<String> = Vec::new();
    let mut warns: Vec<ResolutionWarning> = Vec::new();
    let n: usize = genes.len();
    let mut i: usize = 0;
    proof {
        assert(genes@.subrange(0, 0) =~= Seq::<u32>::empty());
    }
    while i < n
        invariant
            t.wf(),
            n == genes@.len(),
            i <= n,
            id_views(out@) == dedup_views(keep_mapped(*t, genes@.subrange(0, i as int))),
            warns@.len() == keep_unmapped(*t, genes@.subrange(0, i as int)).len(),
            forall|m: int|
                0 <= m < warns@.len() ==> ((#[trigger] warns@[m])
                    matches ResolutionWarning::UnresolvableGene { ncbi_gene_id } && ncbi_gene_id
                    == keep_unmapped(*t, genes@.subrange(0, i as int))[m]),
        decreases n - i,
    {
        let ghost pre = genes@.subrange(0, i as int);
        let ghost post = genes@.subrange(0, i + 1);
        proof {
            assert(post.drop_last() =~= pre);
            assert(post.last() == genes@[i as int]);
        }
        let a = genes[i];
        match t.ncbi_to_hgnc(a) {
            Some(b) => {
                proof {
                    assert(t.maps(a, text::sbytes(b)));
                    assert(gene_mapped(*t, a));
                    crate::xref::lemma_xref_symmetry(*t, a, text::sbytes(b));
                    assert(t.maps(a, hgnc_of(*t, a)));
                    assert(hgnc_of(*t, a) == text::sbytes(b));
                    let kk = keep_mapped(*t, pre);
                    assert(keep_mapped(*t, post) == kk.push(hgnc_of(*t, post.last())));
                    assert(kk.push(hgnc_of(*t, post.last())).drop_last() =~= kk);
                }
                if !vec_contains_bytes(&out, b.as_str().as_bytes()) {
                    let ghost out0 = out@;
                    out.push(b);
                    proof {
                        assert(id_views(out@) =~= id_views(out0).push(hgnc_of(*t, a)));
                    }
                }
            },
            None => {
                proof {
                    if gene_mapped(*t, a) {
                        let b = choose|b: Seq<u8>| t.maps(a, b);
                        assert(!t.maps(a, b));
                    }
                }
                warns.push(ResolutionWarning::UnresolvableGene { ncbi_gene_id: a });
            },
        }
        i = i + 1;
    }
    proof {
        assert(genes@.subrange(0, n as int) =~= genes@);
    }
    (out, warns)
}

/// One heterogeneous request: an explicit term identifier list, a
/// free-text query with a match mode, or NCBI gene identifiers to carry
/// into the HGNC namespace.
pub enum QueryInput {
    /// Explicit term identifiers, validated against the collection.
    TermIds(Vec<String>),
    /// Free text, resolved through the full-text index.
    Text(String, Match),
    /// NCBI gene identifiers, resolved through the cross-reference table.
    Genes(Vec<u32>),
}

/// Resolves one heterogeneous request into a canonical, deduplicated
/// identifier sequence with its warnings.
///
/// Identifier lists and gene lists never fail: what cannot be resolved
/// is dropped with a warning. A free-text query fails only when its text
/// is empty after normalization; an empty result set is a valid outcome.
pub fn assemble(
    c: &TermCollection,
    idx: &Index,
    xr: &XrefTable,
    input: &QueryInput,
) -> (r: Result<(Vec<String>, Vec<ResolutionWarning>), InvalidQuery>)
    requires
        xr.wf(),
    ensures
        match input {
            QueryInput::TermIds(ids) => r is Ok && {
                let (out, warns) = r->Ok_0;
                &&& id_views(out@) == dedup_views(keep_known(*c, id_views(ids@)))
                &&& warns@.len() == keep_unknown(*c, id_views(ids@)).len()
            },
            QueryInput::Text(text, mode) => {
                &&& r is Ok <==> text::norm(text::sbytes(*text)).len() > 0
                &&& r is Ok ==> crate::index::search_ok_post(
                    *idx,
                    *mode,
                    text::norm(text::sbytes(*text)),
                    id_views(r->Ok_0.0@),
                ) && r->Ok_0.1@.len() == 0
            },
            QueryInput::Genes(genes) => r is Ok && {
                let (out, warns) = r->Ok_0;
                &&& id_views(out@) == dedup_views(keep_mapped(*xr, genes@))
                &&& warns@.len() == keep_unmapped(*xr, genes@).len()
            },
        },
{
    match input {
        QueryInput::TermIds(ids) => Ok(resolve_term_ids(c, ids)),
        QueryInput::Text(text, mode) => {
            let ids = idx.search(text.as_str(), *mode)?;
            Ok((ids, Vec::new()))
        },
        QueryInput::Genes(genes) => Ok(resolve_genes_to_hgnc(xr, genes)),
    }
}

} // verus!
