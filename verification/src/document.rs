//! Document loader: turns a parsed ontology document (a sequence of term
//! stanzas) into an immutable term collection keyed by identifier.
//!
//! A stanza without an identifier, or one whose identifier repeats an
//! earlier one, is a fatal load error: a partially built collection could
//! silently miss terms, so nothing is merged or skipped.

use vstd::prelude::*;

use crate::text;

verus! {

/// One term stanza of the parsed ontology document, as the snapshot
/// provider hands it over: plain strings only.
#[derive(Debug, Clone)]
pub struct Stanza {
    /// The primary identifier, when the stanza carries one.
    pub identifier: Option<String>,
    /// The display name.
    pub name: String,
    /// Synonym lines, in document order.
    pub synonyms: Vec<String>,
    /// The free-text definition, when present.
    pub definition: Option<String>,
    /// Cross-reference lines into other namespaces.
    pub xrefs: Vec<String>,
}

/// Why a load failed; fatal at startup time.
#[derive(Debug, Clone, PartialEq, Eq)]
pub enum LoadError {
    /// The stanza at this position has no identifier.
    MissingIdentifier {
        /// Position of the offending stanza in the document.
        stanza: usize,
    },
    /// A stanza repeats the identifier of an earlier stanza.
    DuplicateIdentifier {
        /// The repeated identifier.
        id: String,
    },
}

/// One ontology term of the loaded collection; immutable after load.
#[derive(Debug, Clone)]
pub struct OntologyTerm {
    /// The primary identifier, unique within the collection.
    pub id: String,
    /// The display name.
    pub name: String,
    /// Synonym strings, in document order.
    pub synonyms: Vec<String>,
    /// The free-text definition, when present.
    pub definition: Option<String>,
    /// Cross-reference identifiers into other namespaces.
    pub xrefs: Vec<String>,
}

impl OntologyTerm {
    /// The identifier under the byte-level text model.
    pub open spec fn id_bytes(self) -> Seq<u8> {
        text::sbytes(self.id)
    }

    /// Every searchable field text of this term: the name, each synonym,
    /// and the definition when present, in that order.
    pub open spec fn field_texts(self) -> Seq<Seq<u8>> {
        seq![text::sbytes(self.name)] + self.synonyms@.map_values(|s: String| text::sbytes(s))
            + (match self.definition {
            Some(d) => seq![text::sbytes(d)],
            None => Seq::empty(),
        })
    }
}

/// The loaded term collection: stanza order kept, identifiers unique.
#[derive(Debug, Clone)]
pub struct TermCollection {
    /// The terms, in document order.
    pub terms: Vec<OntologyTerm>,
}

impl TermCollection {
    /// Well-formedness: no two terms share an identifier.
    pub open spec fn wf(self) -> bool {
        forall|i: int, j: int|
            0 <= i < j < self.terms@.len() ==> self.terms@[i].id_bytes()
                != self.terms@[j].id_bytes()
    }

    /// Some term of the collection carries this identifier.
    pub open spec fn has_id(self, id: Seq<u8>) -> bool {
        exists|i: int| 0 <= i < self.terms@.len() && self.terms@[i].id_bytes() == id
    }

    /// Number of terms.
    pub fn len(&self) -> (n: usize)
        ensures
            n == self.terms@.len(),
    {
        self.terms.len()
    }
}

/// The term mirrors the stanza: same identifier, name, synonyms,
/// definition and cross-references, compared as text.
pub open spec fn term_from_stanza(t: OntologyTerm, s: Stanza) -> bool {
    &&& s.identifier is Some
    &&& t.id@ == s.identifier->0@
    &&& t.name@ == s.name@
    &&& t.synonyms@.len() == s.synonyms@.len()
    &&& forall|k: int| 0 <= k < s.synonyms@.len() ==> t.synonyms@[k]@ == s.synonyms@[k]@
    &&& (t.definition is Some <==> s.definition is Some)
    &&& (s.definition is Some ==> t.definition->0@ == s.definition->0@)
    &&& t.xrefs@.len() == s.xrefs@.len()
    &&& forall|k: int| 0 <= k < s.xrefs@.len() ==> t.xrefs@[k]@ == s.xrefs@[k]@
}

/// The stanza at `i` repeats the identifier of an earlier stanza.
pub open spec fn stanza_dup(s: Seq<Stanza>, i: int) -> bool {
    exists|j: int|
        0 <= j < i && s[j].identifier is Some && s[i].identifier is Some && text::sbytes(
            s[j].identifier->0,
        ) == text::sbytes(s[i].identifier->0)
}

/// The stanza at `i` cannot be loaded: it lacks an identifier or repeats
/// an earlier one.
pub open spec fn stanza_bad(s: Seq<Stanza>, i: int) -> bool {
    s[i].identifier is None || stanza_dup(s, i)
}

/// Every stanza of the document can be loaded.
pub open spec fn all_stanzas_ok(s: Seq<Stanza>) -> bool {
    forall|i: int| 0 <= i < s.len() ==> !stanza_bad(s, i)
}

/// `e` is the load error reported for the document `s`: it describes the
/// first stanza that cannot be loaded.
pub open spec fn load_error_at(s: Seq<Stanza>, i: int, e: LoadError) -> bool {
    &&& 0 <= i < s.len()
    &&& stanza_bad(s, i)
    &&& (forall|j: int| 0 <= j < i ==> !stanza_bad(s, j))
    &&& (match e {
        LoadError::MissingIdentifier { stanza } => s[i].identifier is None && stanza == i,
        LoadError::DuplicateIdentifier { id } => s[i].identifier is Some && text::sbytes(id)
            == text::sbytes(s[i].identifier->0),
    })
}

/// Clones a vector of strings, keeping each text.
fn clone_string_vec(v: &Vec<String>) -> (r: Vec<String>)
    ensures
        r@.len() == v@.len(),
        forall|i: int| 0 <= i < v@.len() ==> r@[i]@ == v@[i]@,
{
    let mut r: Vec<String> = Vec::new();
    let n: usize = v.len();
    let mut i: usize = 0;
    while i < n
        invariant
            n == v@.len(),
            i <= n,
            r@.len() == i,
            forall|k: int| 0 <= k < i ==> r@[k]@ == v@[k]@,
        decreases n - i,
    {
        r.push(v[i].clone());
        i = i + 1;
    }
    r
}

/// Clones an optional string, keeping presence and text.
fn clone_opt_string(v: &Option<String>) -> (r: Option<String>)
    ensures
        r is Some <==> v is Some,
        v is Some ==> r->0@ == v->0@,
{
    match v {
        Some(s) => Some(s.clone()),
        None => None,
    }
}

/// Loads a parsed document into a term collection.
///
/// Succeeds exactly when every stanza has an identifier and no identifier
/// repeats; the collection then mirrors the document stanza for stanza.
/// Otherwise reports the first offending stanza, as a missing-identifier
/// or duplicate-identifier error.
pub fn load(stanzas: &Vec<Stanza>) -> (r: Result<TermCollection, LoadError>)
    ensures
        r is Ok <==> all_stanzas_ok(stanzas@),
        r is Ok ==> {
            let c = r->Ok_0;
            &&& c.wf()
            &&& c.terms@.len() == stanzas@.len()
            &&& forall|i: int|
                0 <= i < stanzas@.len() ==> term_from_stanza(c.terms@[i], stanzas@[i])
        },
        r is Err ==> exists|i: int| load_error_at(stanzas@, i, r->Err_0),
{
    let mut terms: Vec<OntologyTerm> = Vec::new();
    let n: usize = stanzas.len();
    let mut i: usize = 0;
    while i < n
        invariant
            n == stanzas@.len(),
            i <= n,
            terms@.len() == i,
            forall|k: int| 0 <= k < i ==> term_from_stanza(#[trigger] terms@[k], stanzas@[k]),
            forall|k: int| 0 <= k < i ==> !stanza_bad(stanzas@, k),
            forall|p: int, q: int|
                0 <= p < q < i ==> terms@[p].id_bytes() != terms@[q].id_bytes(),
        decreases n - i,
    {
        let st = &stanzas[i];
        match &st.identifier {
            None => {
                let r: Result<TermCollection, LoadError> = Err(
                    LoadError::MissingIdentifier { stanza: i },
                );
                proof {
                    assert(load_error_at(stanzas@, i as int, r->Err_0));
                    assert(exists|k: int| load_error_at(stanzas@, k, r->Err_0));
                }
                return r;
            },
            Some(id) => {
                let m: usize = terms.len();
                let mut j: usize = 0;
                while j < m
                    invariant
                        n == stanzas@.len(),
                        i < n,
                        m == terms@.len(),
                        m == i,
                        j <= m,
                        forall|k: int| 0 <= k < m ==> term_from_stanza(#[trigger] terms@[k], stanzas@[k]),
                        forall|k: int| 0 <= k < i ==> !stanza_bad(stanzas@, k),
                        id@ == stanzas@[i as int].identifier->0@,
                        stanzas@[i as int].identifier is Some,
                        forall|k: int| 0 <= k < j ==> terms@[k].id_bytes() != text::sbytes(*id),
                    decreases m - j,
                {
                    if text::bytes_eq(terms[j].id.as_str().as_bytes(), id.as_str().as_bytes()) {
                        proof {
                            assert(terms@[j as int].id_bytes() == text::sbytes(*id));
                            assert(stanzas@[j as int].identifier is Some);
                            assert(text::sbytes(stanzas@[j as int].identifier->0) == text::sbytes(
                                stanzas@[i as int].identifier->0,
                            ));
                            assert(stanza_dup(stanzas@, i as int)) by {
                                let jj = j as int;
                                assert(0 <= jj < i && stanzas@[jj].identifier is Some
                                    && stanzas@[i as int].identifier is Some && text::sbytes(
                                    stanzas@[jj].identifier->0,
                                ) == text::sbytes(stanzas@[i as int].identifier->0));
                            }
                        }
                        let dup = id.clone();
                        let r: Result<TermCollection, LoadError> = Err(
                            LoadError::DuplicateIdentifier { id: dup },
                        );
                        proof {
                            assert(text::sbytes(r->Err_0->DuplicateIdentifier_id)
                                == text::sbytes(*id));
                            assert(load_error_at(stanzas@, i as int, r->Err_0));
                            assert(exists|k: int| load_error_at(stanzas@, k, r->Err_0));
                        }
                        return r;
                    }
                    j = j + 1;
                }
                proof {
                    if stanza_dup(stanzas@, i as int) {
                        let jj = choose|jj: int|
                            0 <= jj < i && stanzas@[jj].identifier is Some
                                && stanzas@[i as int].identifier is Some && text::sbytes(
                                stanzas@[jj].identifier->0,
                            ) == text::sbytes(stanzas@[i as int].identifier->0);
                        assert(terms@[jj].id_bytes() == text::sbytes(*id));
                    }
                }
                let t = OntologyTerm {
                    id: id.clone(),
                    name: st.name.clone(),
                    synonyms: clone_string_vec(&st.synonyms),
                    definition: clone_opt_string(&st.definition),
                    xrefs: clone_string_vec(&st.xrefs),
                };
                terms.push(t);
            },
        }
        i = i + 1;
    }
    Ok(TermCollection { terms })
}

} // verus!
