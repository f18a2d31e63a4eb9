//! End-to-end tests of the lookup core: loading, indexing, searching
//! under the four match modes, and cross-reference resolution.

use viguno::document::{self, LoadError, Stanza};
use viguno::index::{Index, InvalidQuery};
use viguno::query;
use viguno::query::ResolutionWarning;
use viguno::xref;
use viguno::Match;

fn stanza(id: &str, name: &str, synonyms: &[&str], definition: Option<&str>) -> Stanza {
    Stanza {
        identifier: Some(id.to_string()),
        name: name.to_string(),
        synonyms: synonyms.iter().map(|s| s.to_string()).collect(),
        definition: definition.map(|s| s.to_string()),
        xrefs: Vec::new(),
    }
}

fn gait_snapshot() -> viguno::document::TermCollection {
    let stanzas = vec![stanza("HP:0001", "Abnormal gait", &[], None)];
    document::load(&stanzas).unwrap()
}

#[test]
fn exact_search_finds_term_by_name() {
    let c = gait_snapshot();
    let idx = Index::new(&c);
    let r = idx.search("abnormal gait", Match::Exact).unwrap();
    assert_eq!(r, vec!["HP:0001".to_string()]);
}

#[test]
fn suffix_search_anchors_at_field_end() {
    let c = gait_snapshot();
    let idx = Index::new(&c);
    let r = idx.search("gait", Match::Suffix).unwrap();
    assert_eq!(r, vec!["HP:0001".to_string()]);
    let r2 = idx.search("abnormal", Match::Suffix).unwrap();
    assert!(r2.is_empty());
}

#[test]
fn prefix_search_anchors_at_field_start() {
    let c = gait_snapshot();
    let idx = Index::new(&c);
    let r = idx.search("abnormal", Match::Prefix).unwrap();
    assert_eq!(r, vec!["HP:0001".to_string()]);
    let r2 = idx.search("gait", Match::Prefix).unwrap();
    assert!(r2.is_empty());
}

#[test]
fn whole_field_is_its_own_prefix() {
    let c = gait_snapshot();
    let idx = Index::new(&c);
    let r = idx.search("abnormal gait", Match::Prefix).unwrap();
    assert_eq!(r, vec!["HP:0001".to_string()]);
}

#[test]
fn empty_query_is_rejected() {
    let c = gait_snapshot();
    let idx = Index::new(&c);
    assert_eq!(idx.search("", Match::Exact), Err(InvalidQuery::EmptyQuery));
    assert_eq!(idx.search("   ", Match::Contains), Err(InvalidQuery::EmptyQuery));
}

#[test]
fn normalization_folds_case_and_trims() {
    let c = gait_snapshot();
    let idx = Index::new(&c);
    let r = idx.search("  ABNORMAL Gait  ", Match::Exact).unwrap();
    assert_eq!(r, vec!["HP:0001".to_string()]);
}

#[test]
fn contains_search_matches_inner_substring() {
    let stanzas = vec![
        stanza("HP:0002", "Abnormality of the eye", &[], None),
        stanza("HP:0003", "An abnormality", &["strange finding"], None),
    ];
    let c = document::load(&stanzas).unwrap();
    let idx = Index::new(&c);
    let r = idx.search("abnormal", Match::Contains).unwrap();
    assert_eq!(r, vec!["HP:0002".to_string(), "HP:0003".to_string()]);
    // field-level anchoring: Prefix does not match the inner occurrence
    let rp = idx.search("abnormal", Match::Prefix).unwrap();
    assert_eq!(rp, vec!["HP:0002".to_string()]);
}

#[test]
fn synonym_and_definition_fields_are_indexed() {
    let stanzas = vec![stanza(
        "HP:0004",
        "Short stature",
        &["Small size"],
        Some("Height below expectation"),
    )];
    let c = document::load(&stanzas).unwrap();
    let idx = Index::new(&c);
    assert_eq!(
        idx.search("small size", Match::Exact).unwrap(),
        vec!["HP:0004".to_string()]
    );
    assert_eq!(
        idx.search("expectation", Match::Suffix).unwrap(),
        vec!["HP:0004".to_string()]
    );
}

#[test]
fn search_is_idempotent_on_unchanged_index() {
    let stanzas = vec![
        stanza("HP:0010", "Gait disturbance", &[], None),
        stanza("HP:0007", "Abnormal gait", &["gait disturbance"], None),
    ];
    let c = document::load(&stanzas).unwrap();
    let idx = Index::new(&c);
    let r1 = idx.search("gait", Match::Contains).unwrap();
    let r2 = idx.search("gait", Match::Contains).unwrap();
    assert_eq!(r1, r2);
    // ties are reported in ascending identifier order
    assert_eq!(r1, vec!["HP:0007".to_string(), "HP:0010".to_string()]);
}

#[test]
fn every_loaded_term_is_reachable_by_its_own_name() {
    let stanzas = vec![
        stanza("HP:0001", "Abnormal gait", &[], None),
        stanza("HP:0002", "Abnormality of the eye", &[], None),
        stanza("HP:0003", "Short stature", &["Small size"], None),
    ];
    let c = document::load(&stanzas).unwrap();
    let idx = Index::new(&c);
    for t in &c.terms {
        let r = idx.search(&t.name, Match::Exact).unwrap();
        assert!(r.contains(&t.id));
    }
}

#[test]
fn load_rejects_missing_identifier() {
    let mut bad = stanza("HP:0001", "Abnormal gait", &[], None);
    bad.identifier = None;
    let stanzas = vec![stanza("HP:0002", "Eye finding", &[], None), bad];
    let e = document::load(&stanzas).unwrap_err();
    assert_eq!(e, LoadError::MissingIdentifier { stanza: 1 });
}

#[test]
fn load_rejects_duplicate_identifier() {
    let stanzas = vec![
        stanza("HP:0001", "Abnormal gait", &[], None),
        stanza("HP:0001", "Abnormal gait variant", &[], None),
    ];
    let e = document::load(&stanzas).unwrap_err();
    assert_eq!(e, LoadError::DuplicateIdentifier { id: "HP:0001".to_string() });
}

#[test]
fn xref_parse_and_symmetric_lookup() {
    let lines = vec!["1234\tHGNC:5678".to_string()];
    let (t, skipped) = xref::load(&lines);
    assert!(skipped.is_empty());
    assert_eq!(t.ncbi_to_hgnc(1234), Some("HGNC:5678".to_string()));
    assert_eq!(t.hgnc_to_ncbi("HGNC:5678"), Some(1234));
    assert_eq!(t.ncbi_to_hgnc(9999), None);
    assert_eq!(t.hgnc_to_ncbi("HGNC:0"), None);
}

#[test]
fn xref_skips_malformed_lines_with_positions() {
    let lines = vec![
        "1234\tHGNC:5678".to_string(),
        "not a number\tHGNC:1".to_string(),
        "77".to_string(),
        "88\t".to_string(),
        "99\tHGNC:2\textra".to_string(),
        "4295\tHGNC:7".to_string(),
    ];
    let (t, skipped) = xref::load(&lines);
    assert_eq!(skipped, vec![1, 2, 3, 4]);
    assert_eq!(t.ncbi_to_hgnc(1234), Some("HGNC:5678".to_string()));
    assert_eq!(t.ncbi_to_hgnc(4295), Some("HGNC:7".to_string()));
    assert_eq!(t.ncbi_to_hgnc(99), None);
}

#[test]
fn xref_parse_line_value_bounds() {
    assert_eq!(xref::parse_line("4294967295\tX"), Some((4294967295, "X".to_string())));
    assert_eq!(xref::parse_line("4294967296\tX"), None);
    assert_eq!(xref::parse_line("007\tX"), Some((7, "X".to_string())));
}

#[test]
fn xref_skips_repeated_identifiers() {
    let lines = vec![
        "1\tHGNC:A".to_string(),
        "1\tHGNC:B".to_string(),
        "2\tHGNC:A".to_string(),
        "3\tHGNC:C".to_string(),
    ];
    let (t, skipped) = xref::load(&lines);
    assert_eq!(skipped, vec![1, 2]);
    assert_eq!(t.ncbi_to_hgnc(1), Some("HGNC:A".to_string()));
    assert_eq!(t.ncbi_to_hgnc(2), None);
    assert_eq!(t.ncbi_to_hgnc(3), Some("HGNC:C".to_string()));
}

#[test]
fn resolve_term_ids_deduplicates_and_warns() {
    let stanzas = vec![
        stanza("HP:0001", "Abnormal gait", &[], None),
        stanza("HP:0002", "Eye finding", &[], None),
    ];
    let c = document::load(&stanzas).unwrap();
    let ids = vec![
        "HP:0002".to_string(),
        "HP:0001".to_string(),
        "HP:0002".to_string(),
        "HP:9999".to_string(),
    ];
    let (kept, warns) = query::resolve_term_ids(&c, &ids);
    assert_eq!(kept, vec!["HP:0002".to_string(), "HP:0001".to_string()]);
    assert_eq!(
        warns,
        vec![ResolutionWarning::UnknownTermId { id: "HP:9999".to_string() }]
    );
}

#[test]
fn resolve_genes_warns_on_unknown_but_keeps_batch() {
    let lines = vec!["1234\tHGNC:5678".to_string()];
    let (t, _) = xref::load(&lines);
    let genes = vec![1234, 9999];
    let (kept, warns) = query::resolve_genes_to_hgnc(&t, &genes);
    assert_eq!(kept, vec!["HGNC:5678".to_string()]);
    assert_eq!(
        warns,
        vec![ResolutionWarning::UnresolvableGene { ncbi_gene_id: 9999 }]
    );
}

#[test]
fn assemble_dispatches_all_three_request_shapes() {
    let stanzas = vec![
        stanza("HP:0001", "Abnormal gait", &[], None),
        stanza("HP:0002", "Eye finding", &[], None),
    ];
    let c = document::load(&stanzas).unwrap();
    let idx = Index::new(&c);
    let (t, _) = xref::load(&vec!["1234\tHGNC:5678".to_string()]);

    let by_ids = query::QueryInput::TermIds(vec!["HP:0001".to_string(), "HP:0404".to_string()]);
    let (out, warns) = query::assemble(&c, &idx, &t, &by_ids).unwrap();
    assert_eq!(out, vec!["HP:0001".to_string()]);
    assert_eq!(warns.len(), 1);

    let by_text = query::QueryInput::Text("gait".to_string(), Match::Contains);
    let (out, warns) = query::assemble(&c, &idx, &t, &by_text).unwrap();
    assert_eq!(out, vec!["HP:0001".to_string()]);
    assert!(warns.is_empty());

    let by_genes = query::QueryInput::Genes(vec![1234]);
    let (out, warns) = query::assemble(&c, &idx, &t, &by_genes).unwrap();
    assert_eq!(out, vec!["HGNC:5678".to_string()]);
    assert!(warns.is_empty());

    let empty = query::QueryInput::Text("  ".to_string(), Match::Exact);
    assert_eq!(query::assemble(&c, &idx, &t, &empty), Err(InvalidQuery::EmptyQuery));
}

#[test]
fn default_match_mode_is_exact() {
    assert_eq!(Match::default(), Match::Exact);
}

#[test]
fn terms_with_names_attaches_display_metadata() {
    let stanzas = vec![
        stanza("HP:0001", "Abnormal gait", &[], None),
        stanza("HP:0002", "Eye finding", &[], None),
    ];
    let c = document::load(&stanzas).unwrap();
    let ids = vec!["HP:0002".to_string(), "HP:0404".to_string(), "HP:0001".to_string()];
    let records = query::terms_with_names(&c, &ids);
    assert_eq!(records.len(), 2);
    assert_eq!(records[0].term_id, "HP:0002");
    assert_eq!(records[0].name, "Eye finding");
    assert_eq!(records[1].term_id, "HP:0001");
    assert_eq!(records[1].name, "Abnormal gait");
}
