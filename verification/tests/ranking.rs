//! Tests of similarity-result ranking and score collection, and of the
//! server-facing plumbing helpers.

use viguno::server;
use viguno::server::Args;
use viguno::similarity::{collect_scores, rank_results, ScoredCandidate, ScoringError};

fn cand(id: &str, score: u32) -> ScoredCandidate {
    ScoredCandidate { id: id.to_string(), score }
}

#[test]
fn ranking_puts_identical_candidate_before_disjoint_one() {
    // one candidate shares every query term (maximal score), one shares
    // none (minimal score)
    let cands = vec![cand("GENE:DISJOINT", 0), cand("GENE:IDENTICAL", 1_000_000)];
    let r = rank_results(cands, 10);
    assert_eq!(r, vec![cand("GENE:IDENTICAL", 1_000_000), cand("GENE:DISJOINT", 0)]);
}

#[test]
fn ranking_breaks_ties_by_ascending_identifier() {
    let cands = vec![cand("G3", 5), cand("G1", 5), cand("G2", 7)];
    let r = rank_results(cands, 10);
    assert_eq!(r, vec![cand("G2", 7), cand("G1", 5), cand("G3", 5)]);
}

#[test]
fn ranking_truncates_to_the_result_limit() {
    let cands = vec![cand("G1", 1), cand("G2", 4), cand("G3", 3), cand("G4", 2)];
    let r = rank_results(cands, 2);
    assert_eq!(r, vec![cand("G2", 4), cand("G3", 3)]);
}

#[test]
fn ranking_of_empty_input_is_empty() {
    let r = rank_results(Vec::new(), 5);
    assert!(r.is_empty());
}

#[test]
fn collect_scores_keeps_all_when_every_candidate_scored() {
    let results = vec![Ok(cand("G1", 3)), Ok(cand("G2", 9))];
    let r = collect_scores(&results).unwrap();
    assert_eq!(r, vec![cand("G1", 3), cand("G2", 9)]);
}

#[test]
fn collect_scores_aborts_on_first_fault() {
    let results = vec![
        Ok(cand("G1", 3)),
        Err("information content unavailable".to_string()),
        Ok(cand("G2", 9)),
    ];
    let e = collect_scores(&results).unwrap_err();
    assert_eq!(
        e,
        ScoringError::CollaboratorFailure { reason: "information content unavailable".to_string() }
    );
}

#[test]
fn print_hints_reports_address_and_docs() {
    let args = Args {
        path_hpo_dir: "/data/hpo".to_string(),
        suppress_hints: false,
        listen_host: "127.0.0.1".to_string(),
        listen_port: 8080,
    };
    let lines = server::print_hints(&args);
    assert_eq!(
        lines,
        vec![
            "Launching server main on http://127.0.0.1:8080 ...".to_string(),
            "  SEE SWAGGER UI FOR INTERACTIVE DOCS: http://127.0.0.1:8080/swagger-ui/".to_string(),
        ]
    );
}

#[test]
fn print_hints_can_be_suppressed() {
    let args = Args {
        path_hpo_dir: "/data/hpo".to_string(),
        suppress_hints: true,
        listen_host: "0.0.0.0".to_string(),
        listen_port: 80,
    };
    let lines = server::print_hints(&args);
    assert_eq!(lines, vec!["Launching server main on http://0.0.0.0:80 ...".to_string()]);
}

#[test]
fn split_comma_splits_pieces_in_order() {
    assert_eq!(
        server::split_comma("HP:0001,HP:0002,HP:0003"),
        vec!["HP:0001".to_string(), "HP:0002".to_string(), "HP:0003".to_string()]
    );
    assert_eq!(server::split_comma("single"), vec!["single".to_string()]);
    assert_eq!(server::split_comma("a,,b"), vec![
        "a".to_string(),
        "".to_string(),
        "b".to_string()
    ]);
}

#[test]
fn split_comma_opt_reads_empty_as_nothing() {
    assert_eq!(server::split_comma_opt(""), None);
    assert_eq!(
        server::split_comma_opt("x,y"),
        Some(vec!["x".to_string(), "y".to_string()])
    );
}

#[test]
fn custom_error_carries_its_text() {
    let e = server::CustomError::new("boom".to_string());
    assert_eq!(e.err, "boom");
}

#[test]
fn print_hints_handles_extreme_ports() {
    let mut args = Args {
        path_hpo_dir: String::new(),
        suppress_hints: true,
        listen_host: "h".to_string(),
        listen_port: 65535,
    };
    assert_eq!(
        server::print_hints(&args),
        vec!["Launching server main on http://h:65535 ...".to_string()]
    );
    args.listen_port = 0;
    assert_eq!(
        server::print_hints(&args),
        vec!["Launching server main on http://h:0 ...".to_string()]
    );
}
