//! Phenotype-ontology lookup core.
//!
//! This crate holds the logic behind an HPO lookup service: loading a parsed
//! ontology document into a term collection, building a full-text index over
//! term names, synonyms and definitions, answering point queries under four
//! string-matching modes, resolving heterogeneous identifier requests into
//! canonical term sets, and ranking similarity scores.
//!
//! Text is modelled throughout by its UTF-8 byte sequence; normalization
//! (ASCII case folding and whitespace trimming) and all four match semantics
//! are specified over `Seq<u8>`.

pub mod document;
pub mod index;
pub mod query;
pub mod server;
pub mod similarity;
pub mod text;
pub mod xref;

use vstd::prelude::*;

verus! {

/// How a query string is matched against an indexed field.
#[derive(Debug, Clone, Copy, PartialEq, Eq, Structural)]
pub enum Match {
    /// Exact string match.
    Exact,
    /// Prefix string match.
    Prefix,
    /// Suffix string match.
    Suffix,
    /// String containment.
    Contains,
}

impl Default for Match {
    /// The default match mode is an exact match.
    fn default() -> (r: Match)
        ensures
            r == Match::Exact,
    {
        Match::Exact
    }
}

} // verus!
