use quire_corpus::audit::{audit, CaseFacts, PinState};
use quire_corpus::bounds::{
    case_key_at, parse_unreachable, CaseKey, CaseMetadata, CriterionCoverage, DeclaredCell, Manifest,
    ProducerDeclaration,
};
use quire_corpus::CorpusError;

fn metadata(kind: Option<&str>, criteria: &[&str]) -> CaseMetadata {
    CaseMetadata {
        language: "rust".to_owned(),
        kind: kind.map(str::to_owned),
        issue_ref: Some("agent-ix/quire-rs#1".to_owned()),
        pending: None,
        control_for: None,
        control_for_pair: None,
        control_language: None,
        criteria: criteria.iter().map(|c| (*c).to_owned()).collect(),
    }
}

fn key(f: &str, c: &str, l: &str) -> CaseKey {
    CaseKey(f.to_owned(), c.to_owned(), l.to_owned())
}

fn facts(f: &str, c: &str, l: &str, m: CaseMetadata) -> CaseFacts {
    CaseFacts { key: key(f, c, l), metadata: Ok(m), has_expected: true, has_input: true }
}

fn manifest(cells: Vec<(&str, &str, DeclaredCell)>, producers: Vec<(&str, ProducerDeclaration)>) -> Manifest {
    let mut inventory: Vec<(String, Vec<(String, DeclaredCell)>)> = Vec::new();
    for (family, case, cell) in cells {
        match inventory.iter_mut().find(|(f, _)| f == family) {
            Some((_, cases)) => cases.push((case.to_owned(), cell)),
            None => inventory.push((family.to_owned(), vec![(case.to_owned(), cell)])),
        }
    }
    inventory.sort_by(|a, b| a.0.cmp(&b.0));
    for (_, cases) in inventory.iter_mut() {
        cases.sort_by(|a, b| a.0.cmp(&b.0));
    }
    let mut producers: Vec<(String, ProducerDeclaration)> =
        producers.into_iter().map(|(n, d)| (n.to_owned(), d)).collect();
    producers.sort_by(|a, b| a.0.cmp(&b.0));
    Manifest { inventory, reserved_families: Vec::new(), producers }
}

fn languages(names: &[&str]) -> DeclaredCell {
    DeclaredCell::Languages(names.iter().map(|n| (*n).to_owned()).collect())
}

fn no_producers() -> Vec<(&'static str, ProducerDeclaration)> {
    Vec::new()
}

#[test]
fn missing_declared_fixture_is_gap() {
    let m = manifest(vec![("relations", "bare-import", languages(&["python", "rust"]))], no_producers());
    let cases = vec![facts("relations", "bare-import", "rust", metadata(None, &[]))];
    let report = audit(&m, &cases, &vec![]).ok().expect("report");
    assert!(report.failed());
    assert!(report.gaps.iter().any(|k| k.slash_name() == "relations/bare-import/python"));
    assert_eq!(report.gap_count, 1);
    assert_eq!(report.covered.len(), 1);
}

#[test]
fn gap_count_is_count() {
    let m = manifest(vec![("a", "b", languages(&["x", "y", "z"]))], no_producers());
    let report = audit(&m, &vec![], &vec![]).ok().expect("report");
    assert_eq!(report.gap_count, report.gaps.len());
    assert_eq!(report.gap_count, 3);
}

#[test]
fn undeclared_fixture_fails() {
    let m = manifest(vec![("relations", "bare-import", languages(&["rust"]))], no_producers());
    let cases = vec![
        facts("relations", "bare-import", "mixed", metadata(None, &[])),
        facts("relations", "bare-import", "rust", metadata(None, &[])),
    ];
    let report = audit(&m, &cases, &vec![]).ok().expect("report");
    assert!(report.failed());
    assert!(report.undeclared.iter().any(|k| k.slash_name() == "relations/bare-import/mixed"));
}

#[test]
fn empty_exclusion_reason_fails() {
    let cell = DeclaredCell::Detailed {
        languages: vec!["rust".to_owned()],
        out_of_scope: vec![("mixed".to_owned(), "  ".to_owned())],
    };
    let m = manifest(vec![("relations", "bare-import", cell)], no_producers());
    let error = audit(&m, &vec![], &vec![]).err().expect("error");
    assert!(error.message().contains("wearing a different word"));
    assert_eq!(
        error.message(),
        "out_of_scope[mixed] has no reason; an exclusion without one is a gap wearing a different word"
    );
}

#[test]
fn scoped_out_fixture_is_a_problem() {
    let cell = DeclaredCell::Detailed {
        languages: vec![],
        out_of_scope: vec![("rust".to_owned(), "no such construct".to_owned())],
    };
    let m = manifest(vec![("f", "c", cell)], no_producers());
    let cases = vec![facts("f", "c", "rust", metadata(None, &[]))];
    let report = audit(&m, &cases, &vec![]).ok().expect("report");
    assert_eq!(
        report.scoped_out,
        vec![("f".to_owned(), "c".to_owned(), "rust".to_owned(), "no such construct".to_owned())]
    );
    assert!(report
        .problems
        .contains(&"f/c/rust is scoped out and also has a fixture; one of the two is wrong".to_owned()));
}

#[test]
fn missing_issue_ref_fails() {
    let m = manifest(vec![("ambiguity", "same-name-two-files", languages(&["mixed"]))], no_producers());
    let mut meta = metadata(None, &[]);
    meta.issue_ref = Some(String::new());
    let cases = vec![facts("ambiguity", "same-name-two-files", "mixed", meta)];
    let report = audit(&m, &cases, &vec![]).ok().expect("report");
    assert!(report.problems.iter().any(|message| message.contains("no issue_ref")));
}

#[test]
fn missing_named_control_fails() {
    let m = manifest(vec![("relations", "receiver-typed-call", languages(&["rust"]))], no_producers());
    let mut meta = metadata(Some("positive"), &[]);
    meta.control_for_pair = Some("receiver-typed-call-ambiguous".to_owned());
    let cases = vec![facts("relations", "receiver-typed-call", "rust", meta)];
    let report = audit(&m, &cases, &vec![]).ok().expect("report");
    assert!(report.problems.iter().any(|message| message.contains("which does not exist")));
    assert_eq!(
        report.problems,
        vec!["relations/receiver-typed-call/rust names control \"receiver-typed-call-ambiguous\" in rust, which does not exist".to_owned()]
    );
}

#[test]
fn hygiene_problems_are_sorted_and_controls_listed() {
    let m = manifest(vec![("f", "a", languages(&["rust"])), ("f", "b", languages(&["rust"]))], no_producers());
    let mut control = metadata(Some("control"), &[]);
    control.control_for = Some("a".to_owned());
    control.pending = Some(" ".to_owned());
    let mut second = facts("f", "b", "rust", control);
    second.has_expected = false;
    second.has_input = false;
    let cases = vec![facts("f", "a", "rust", metadata(Some("positive"), &[])), second];
    let report = audit(&m, &cases, &vec![]).ok().expect("report");
    assert_eq!(
        report.problems,
        vec![
            "f/b/rust has no expected.yaml".to_owned(),
            "f/b/rust has no input tree".to_owned(),
            "f/b/rust is pending on nothing; a marker with no issue is a case nobody comes back to".to_owned(),
        ]
    );
    assert_eq!(report.controls.len(), 1);
    assert_eq!(report.controls[0].slash_name(), "f/a/rust");
}

#[test]
fn unreadable_metadata_is_an_error() {
    let m = manifest(vec![("f", "a", languages(&["rust"]))], no_producers());
    let cases = vec![CaseFacts {
        key: key("f", "a", "rust"),
        metadata: Err(CorpusError::Yaml { path: "case.yaml".to_owned(), source: "bad".to_owned() }),
        has_expected: true,
        has_input: true,
    }];
    let error = audit(&m, &cases, &vec![]).err().expect("error");
    assert_eq!(error.message(), "invalid YAML in case.yaml: bad");
}

fn producer(unreachable: &[(&str, &str)]) -> ProducerDeclaration {
    ProducerDeclaration {
        criteria_pin: "producers/quire-code-rs.criteria.yaml".to_owned(),
        unreachable: unreachable.iter().map(|(r, t)| ((*r).to_owned(), (*t).to_owned())).collect(),
    }
}

fn pin(criteria: &[&str]) -> PinState {
    PinState::Criteria(criteria.iter().map(|c| (*c).to_owned()).collect())
}

#[test]
fn unreached_criterion_fails() {
    let m = manifest(vec![("f", "a", languages(&["rust"]))], vec![("quire-code-rs", producer(&[]))]);
    let cases = vec![facts("f", "a", "rust", metadata(None, &["FR-001-AC-1"]))];
    let report = audit(&m, &cases, &vec![pin(&["FR-001-AC-1", "FR-999-AC-1"])]).ok().expect("report");
    assert!(report.problems.iter().any(|message| message.contains("FR-999-AC-1 is reached by no case")));
}

#[test]
fn phantom_claim_fails() {
    let m = manifest(vec![("f", "a", languages(&["rust"]))], vec![("quire-code-rs", producer(&[]))]);
    let cases = vec![facts("f", "a", "rust", metadata(None, &["FR-998-AC-1"]))];
    let report = audit(&m, &cases, &vec![pin(&[])]).ok().expect("report");
    assert!(report.problems.iter().any(|message| message.contains("FR-998-AC-1 is claimed by a case")));
}

#[test]
fn stale_unreachable_fails() {
    let m = manifest(
        vec![("f", "a", languages(&["rust"]))],
        vec![("quire-code-rs", producer(&[("retired", "A criterion that no longer exists in this producer. FR-997-AC-1")]))],
    );
    let cases = vec![facts("f", "a", "rust", metadata(None, &[]))];
    let report = audit(&m, &cases, &vec![pin(&[])]).ok().expect("report");
    assert!(report.problems.iter().any(|message| message.contains("FR-997-AC-1 is declared unreachable")));
}

#[test]
fn coverage_is_measured_against_the_pin() {
    let m = manifest(
        vec![("f", "a", languages(&["rust"]))],
        vec![
            ("absent", producer(&[])),
            ("quire-code-rs", producer(&[("host", "Needs a host. NFR-002-AC-3 and StR-001-VC-2")])),
        ],
    );
    let cases = vec![facts("f", "a", "rust", metadata(None, &["FR-001-AC-1"]))];
    let pins = vec![
        PinState::Unreadable("producers/absent.criteria.yaml".to_owned()),
        pin(&["FR-001-AC-1", "NFR-002-AC-3", "StR-001-VC-2"]),
    ];
    let report = audit(&m, &cases, &pins).ok().expect("report");
    assert!(report.problems.is_empty());
    match &report.criterion_coverage[0].1 {
        CriterionCoverage::Unavailable { why } => {
            assert_eq!(why, "producers/absent.criteria.yaml is not readable from here")
        }
        _ => panic!("coverage measured"),
    }
    match &report.criterion_coverage[1].1 {
        CriterionCoverage::Measured { total, reached, unreachable, unreached, .. } => {
            assert_eq!(*total, 3);
            assert_eq!(reached, &vec!["FR-001-AC-1".to_owned()]);
            assert_eq!(unreachable.len(), 2);
            assert!(unreached.is_empty());
        }
        _ => panic!("coverage unavailable"),
    }
}

#[test]
fn later_reasons_replace_earlier_ones() {
    let declaration = producer(&[("alpha", "FR-1-AC-1 and FR-2-AC-2"), ("beta", "only FR-1-AC-1; not FR-3-XX-1")]);
    let found = parse_unreachable(&declaration).ok().expect("criteria");
    assert_eq!(
        found,
        vec![("FR-1-AC-1".to_owned(), "beta".to_owned()), ("FR-2-AC-2".to_owned(), "alpha".to_owned())]
    );
}

#[test]
fn wrong_depth_is_error() {
    let parts = vec!["declarations".to_owned(), "case.yaml".to_owned()];
    let error = case_key_at(&parts, "fixtures/declarations/case.yaml").err().expect("error");
    assert!(error.message().contains("four-segment"));
    let good = vec!["a".to_owned(), "b".to_owned(), "c".to_owned(), "case.yaml".to_owned()];
    assert_eq!(case_key_at(&good, "x").ok().expect("key").slash_name(), "a/b/c");
}

#[test]
fn first_invalid_pin_in_producer_order_is_the_error() {
    let m = manifest(
        vec![("f", "a", languages(&["rust"]))],
        vec![("a-one", producer(&[])), ("b-two", producer(&[])), ("c-three", producer(&[]))],
    );
    let cases = vec![facts("f", "a", "rust", metadata(None, &[]))];
    let pins = vec![
        pin(&[]),
        PinState::Invalid(CorpusError::Yaml { path: "producers/b-two.criteria.yaml".to_owned(), source: "first".to_owned() }),
        PinState::Invalid(CorpusError::Yaml { path: "producers/c-three.criteria.yaml".to_owned(), source: "second".to_owned() }),
    ];
    match audit(&m, &cases, &pins).err().expect("error") {
        CorpusError::Yaml { path, source } => {
            assert_eq!(path, "producers/b-two.criteria.yaml");
            assert_eq!(source, "first");
        }
        _ => panic!("another error"),
    }
}

#[test]
fn declaration_without_criteria_parses_to_nothing() {
    let found = parse_unreachable(&producer(&[("none", "no identifier here")])).ok().expect("criteria");
    assert!(found.is_empty());
}
