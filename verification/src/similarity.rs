//! Similarity request builder: the configuration handed to the external
//! similarity scorer, and the ranking of its per-candidate results —
//! descending by score, ties broken by ascending candidate identifier,
//! truncated to a caller-chosen maximum.
//!
//! Scores arrive as fixed-point integers: the caller scales the scorer's
//! bounded numeric output so that larger still means more similar.

use vstd::prelude::*;
use vstd::seq_lib::group_to_multiset_ensures;

use crate::text;

verus! {

/// The statistical basis for information-content weighting, consumed
/// opaquely by the external scorer.
#[derive(Debug, Clone, Copy, PartialEq, Eq, Structural)]
pub enum IcBasedOn {
    /// Weight terms by gene-annotation frequency.
    Gene,
    /// Weight terms by disease-annotation frequency.
    Omim,
}

/// The pairwise similarity method, consumed opaquely by the external
/// scorer.
#[derive(Debug, Clone, Copy, PartialEq, Eq, Structural)]
pub enum SimilarityMethod {
    /// Distance-based similarity.
    DistanceGene,
    /// Graph information content.
    GraphIc,
    /// Information coefficient.
    InformationCoefficient,
    /// Jiang-Conrath distance.
    Jc,
    /// Lin similarity.
    Lin,
    /// Mutation-weighted similarity.
    Mutation,
    /// Relevance similarity.
    Relevance,
    /// Resnik similarity.
    Resnik,
}

/// How pairwise term similarities are combined into one set-to-set
/// value, consumed opaquely by the external scorer.
#[derive(Debug, Clone, Copy, PartialEq, Eq, Structural)]
pub enum ScoreCombiner {
    /// Symmetric best-match average.
    FunSimAvg,
    /// Best-match maximum.
    FunSimMax,
    /// Asymmetric best-match average.
    Bma,
}

/// One similarity request: the configuration triple, the query term set,
/// and the cap on reported results.
pub struct SimilarityRequest {
    /// The information-content basis.
    pub ic_based_on: IcBasedOn,
    /// The pairwise similarity method.
    pub method: SimilarityMethod,
    /// The score combiner.
    pub combiner: ScoreCombiner,
    /// The resolved query term identifiers.
    pub query: Vec<String>,
    /// The maximum number of results to report.
    pub limit: usize,
}

/// A fatal per-request fault of the external scorer: the whole request
/// aborts rather than reporting a partially scored, misleading set.
#[derive(Debug, Clone, PartialEq, Eq)]
pub enum ScoringError {
    /// The scorer signalled an unrecoverable fault.
    CollaboratorFailure {
        /// The scorer's reason, passed through verbatim.
        reason: String,
    },
}

/// One scored candidate: an identifier and its fixed-point score.
#[derive(Debug, Clone, PartialEq, Eq)]
pub struct ScoredCandidate {
    /// The candidate identifier (a gene or disease).
    pub id: String,
    /// The scaled similarity score; larger means more similar.
    pub score: u32,
}

/// `a` strictly precedes `b` in the report: higher score first, ties by
/// ascending identifier.
pub open spec fn rank_before(a: ScoredCandidate, b: ScoredCandidate) -> bool {
    a.score > b.score || (a.score == b.score && text::lex_lt(
        text::sbytes(a.id),
        text::sbytes(b.id),
    ))
}

/// `a` precedes `b` or carries the same key.
pub open spec fn rank_le(a: ScoredCandidate, b: ScoredCandidate) -> bool {
    rank_before(a, b) || (a.score == b.score && text::sbytes(a.id) == text::sbytes(b.id))
}

/// The report order is total: of any two candidates one may stand first.
pub proof fn lemma_rank_connex(a: ScoredCandidate, b: ScoredCandidate)
    ensures
        rank_le(a, b) || rank_le(b, a),
        !rank_before(a, b) ==> rank_le(b, a),
{
    text::lemma_lex_lt_total(text::sbytes(a.id), text::sbytes(b.id));
}

/// The report order is transitive.
pub proof fn lemma_rank_le_trans(a: ScoredCandidate, b: ScoredCandidate, c: ScoredCandidate)
    requires
        rank_le(a, b),
        rank_le(b, c),
    ensures
        rank_le(a, c),
{
    if a.score == b.score && b.score == c.score {
        if text::lex_lt(text::sbytes(a.id), text::sbytes(b.id)) && text::lex_lt(
            text::sbytes(b.id),
            text::sbytes(c.id),
        ) {
            text::lemma_lex_lt_transitive(
                text::sbytes(a.id),
                text::sbytes(b.id),
                text::sbytes(c.id),
            );
        }
    }
}

/// The sequence is in report order throughout.
pub open spec fn sorted_by_rank(s: Seq<ScoredCandidate>) -> bool {
    forall|i: int, j: int| 0 <= i < j < s.len() ==> rank_le(s[i], s[j])
}

/// Decides whether `a` strictly precedes `b` in the report.
fn rank_before_exec(a: &ScoredCandidate, b: &ScoredCandidate) -> (r: bool)
    ensures
        r == rank_before(*a, *b),
{
    if a.score > b.score {
        true
    } else if a.score == b.score {
        text::bytes_lt(a.id.as_str().as_bytes(), b.id.as_str().as_bytes())
    } else {
        false
    }
}

/// Ranks scored candidates: descending by score, ties broken by
/// ascending identifier, truncated to at most `limit` results.
///
/// The result is the leading slice of a report-ordered arrangement of
/// the input: nothing is invented, dropped early, or double-counted.
pub fn rank_results(cands: Vec<ScoredCandidate>, limit: usize) -> (r: Vec<ScoredCandidate>)
    ensures
        r@.len() == if limit < cands@.len() {
            limit as int
        } else {
            cands@.len() as int
        },
        sorted_by_rank(r@),
        exists|s: Seq<ScoredCandidate>|
            #[trigger] s.to_multiset() == cands@.to_multiset() && sorted_by_rank(s) && r@
                == s.subrange(0, r@.len() as int),
{
    broadcast use group_to_multiset_ensures;
    broadcast use vstd::multiset::group_multiset_axioms;

    let ghost total = cands@.to_multiset();
    let mut rem = cands;
    let mut out: Vec<ScoredCandidate> = Vec::new();
    while rem.len() > 0
        invariant
            out@.to_multiset().add(rem@.to_multiset()) =~= total,
            out@.len() + rem@.len() == total.len(),
            sorted_by_rank(out@),
            forall|o: int, w: int|
                0 <= o < out@.len() && 0 <= w < rem@.len() ==> rank_le(out@[o], rem@[w]),
        decreases rem@.len(),
    {
        let n: usize = rem.len();
        let mut best: usize = 0;
        let mut k: usize = 1;
        while k < n
            invariant
                n == rem@.len(),
                best < k <= n || (k <= n && best == 0),
                best < n,
                forall|j: int| 0 <= j < k ==> rank_le(rem@[best as int], rem@[j]),
            decreases n - k,
        {
            if rank_before_exec(&rem[k], &rem[best]) {
                proof {
                    assert forall|j: int| 0 <= j < k + 1 implies rank_le(
                        rem@[k as int],
                        rem@[j],
                    ) by {
                        if j < k {
                            lemma_rank_le_trans(rem@[k as int], rem@[best as int], rem@[j]);
                        }
                    }
                }
                best = k;
            } else {
                proof {
                    lemma_rank_connex(rem@[k as int], rem@[best as int]);
                }
            }
            k = k + 1;
        }
        let ghost rem0 = rem@;
        let ghost out0 = out@;
        let x = rem.remove(best);
        out.push(x);
        proof {
            rem0.to_multiset_ensures();
            out0.to_multiset_ensures();
            assert(rem@ =~= rem0.remove(best as int));
            assert(out@ =~= out0.push(x));
            assert(rem0[best as int] == x);
            assert(rem0.contains(x));
            assert(out0.push(x).to_multiset() =~= out0.to_multiset().insert(x));
            assert(rem0.remove(best as int).to_multiset() =~= rem0.to_multiset().remove(x));
            assert(rem0.to_multiset().count(x) > 0);
            assert(out@.to_multiset() =~= out0.to_multiset().insert(x));
            assert(rem@.to_multiset() =~= rem0.to_multiset().remove(x));
            assert forall|e: ScoredCandidate|
                out@.to_multiset().add(rem@.to_multiset()).count(e) == total.count(e) by {
                assert(out0.to_multiset().add(rem0.to_multiset()).count(e) == total.count(e));
            }
            assert(out@.to_multiset().add(rem@.to_multiset()) =~= total);
            assert forall|o: int, w: int|
                0 <= o < out@.len() && 0 <= w < rem@.len() implies rank_le(
                out@[o],
                rem@[w],
            ) by {
                let wx = if w < best { w } else { w + 1 };
                assert(rem@[w] == rem0[wx]);
                if o < out0.len() {
                    assert(rank_le(out@[o], rem0[wx]));
                } else {
                    assert(out@[o] == x);
                    assert(rank_le(x, rem0[wx]));
                }
            }
            assert forall|i: int, j: int|
                0 <= i < j < out@.len() implies rank_le(out@[i], out@[j]) by {
                if j == out@.len() - 1 {
                    assert(rank_le(out0[i], x));
                }
            }
        }
    }
    proof {
        assert(rem@.to_multiset().len() == 0);
        assert(out@.to_multiset() =~= total);
    }
    let ghost full = out@;
    out.truncate(limit);
    proof {
        if limit < full.len() {
            assert(out@ == full.subrange(0, limit as int));
            assert forall|i: int, j: int|
                0 <= i < j < out@.len() implies rank_le(out@[i], out@[j]) by {
                assert(out@[i] == full[i] && out@[j] == full[j]);
            }
        } else {
            assert(out@ == full);
            assert(full.subrange(0, full.len() as int) =~= full);
        }
        assert(full.to_multiset() == cands@.to_multiset() && sorted_by_rank(full) && out@
            == full.subrange(0, out@.len() as int));
    }
    out
}

/// Collects the scorer's per-candidate results into a report, aborting
/// on the first fault.
///
/// Succeeds exactly when every candidate was scored; otherwise reports
/// the reason of the first fault, so that no partially scored set is
/// ever returned.
pub fn collect_scores(results: &Vec<Result<ScoredCandidate, String>>) -> (r: Result<
    Vec<ScoredCandidate>,
    ScoringError,
>)
    ensures
        r is Ok <==> (forall|i: int|
            0 <= i < results@.len() ==> (#[trigger] results@[i]) is Ok),
        r is Ok ==> {
            let out = r->Ok_0;
            &&& out@.len() == results@.len()
            &&& forall|i: int|
                0 <= i < results@.len() ==> (#[trigger] out@[i]).score == results@[i]->Ok_0.score
                    && text::sbytes(out@[i].id) == text::sbytes(results@[i]->Ok_0.id)
        },
        r is Err ==> exists|i: int|
            0 <= i < results@.len() && (#[trigger] results@[i]) is Err && (forall|j: int|
                0 <= j < i ==> (#[trigger] results@[j]) is Ok) && (r->Err_0
                matches ScoringError::CollaboratorFailure { reason } && reason@
                == results@[i]->Err_0@),
{
    let mut out: Vec<ScoredCandidate> = Vec::new();
    let n: usize = results.len();
    let mut i: usize = 0;
    while i < n
        invariant
            n == results@.len(),
            i <= n,
            out@.len() == i,
            forall|k: int| 0 <= k < i ==> (#[trigger] results@[k]) is Ok,
            forall|k: int|
                0 <= k < i ==> (#[trigger] out@[k]).score == results@[k]->Ok_0.score
                    && text::sbytes(out@[k].id) == text::sbytes(results@[k]->Ok_0.id),
        decreases n - i,
    {
        match &results[i] {
            Ok(c) => {
                let cl = ScoredCandidate { id: c.id.clone(), score: c.score };
                proof {
                    assert(text::sbytes(cl.id) == text::sbytes(c.id));
                }
                out.push(cl);
            },
            Err(reason) => {
                let e: Result<Vec<ScoredCandidate>, ScoringError> = Err(
                    ScoringError::CollaboratorFailure { reason: reason.clone() },
                );
                proof {
                    assert(results@[i as int] is Err);
                    assert(e->Err_0 matches ScoringError::CollaboratorFailure { reason: rr }
                        && rr@ == results@[i as int]->Err_0@);
                }
                return e;
            },
        }
        i = i + 1;
    }
    Ok(out)
}

} // verus!
