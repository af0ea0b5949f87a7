use quire_corpus::bounds::CaseMetadata;
use quire_corpus::json::{json_eq, JsonNumber, JsonValue};
use quire_corpus::score::{Counts, Tally};
use quire_corpus::verdict::{score_case, CaseScore};
use quire_corpus::scoring::{relation_budget, wants_determinism};

fn from_serde(v: &serde_json::Value) -> JsonValue {
    match v {
        serde_json::Value::Null => JsonValue::Null,
        serde_json::Value::Bool(b) => JsonValue::Bool(*b),
        serde_json::Value::Number(n) => {
            if let Some(u) = n.as_u64() {
                JsonValue::Number(JsonNumber::PosInt(u))
            } else if let Some(i) = n.as_i64() {
                JsonValue::Number(JsonNumber::NegInt(i))
            } else {
                JsonValue::Number(JsonNumber::Float(n.to_string()))
            }
        }
        serde_json::Value::String(s) => JsonValue::Str(s.clone()),
        serde_json::Value::Array(xs) => JsonValue::Array(xs.iter().map(from_serde).collect()),
        serde_json::Value::Object(m) => {
            JsonValue::Object(m.iter().map(|(k, v)| (k.clone(), from_serde(v))).collect())
        }
    }
}

fn j(text: &str) -> JsonValue {
    from_serde(&serde_json::from_str(text).expect("test JSON"))
}

fn meta(language: &str) -> CaseMetadata {
    CaseMetadata {
        language: language.to_owned(),
        kind: None,
        issue_ref: None,
        pending: None,
        control_for: None,
        control_for_pair: None,
        control_language: None,
        criteria: Vec::new(),
    }
}

fn score_simple(expected: &str, produced: &str, tally: &mut Tally) -> CaseScore {
    score_case(&meta("rust"), &j(expected), &j(produced), tally, "{}")
        .ok()
        .expect("score case")
}

fn empty_payload() -> &'static str {
    r#"{"nodes": [], "edges": [], "mentions": [], "diagnostics": []}"#
}

fn slice(tally: &Tally, axis: &str, value: &str) -> Option<Counts> {
    tally
        .entries()
        .into_iter()
        .find(|(a, v, _)| a == axis && v == value)
        .map(|(_, _, c)| c)
}

fn has_finding(score: &CaseScore, needle: &str) -> bool {
    score.findings.iter().any(|f| f.contains(needle))
}

#[test]
fn unanswered_query_is_not_computed() {
    let mut tally = Tally::new();
    let result = score_simple(
        r#"{"org":"o","repo":"r","impact":[{"seed":"a"}]}"#,
        empty_payload(),
        &mut tally,
    );
    let impact = result.derived.iter().find(|a| a.query == "impact").expect("impact answer");
    assert_eq!(impact.matches, None);
    assert!(tally.entries().is_empty());
}

#[test]
fn absent_derived_answer_never_enters_ratio() {
    unanswered_query_is_not_computed();
}

#[test]
fn kind_is_censused_not_graded() {
    let mut tally = Tally::new();
    let result = score_simple(
        r#"{"org":"o","repo":"r","nodes":[{"object_type":"code_function","name":"o/r/a.rs::f","kind":"method"}]}"#,
        r#"{"nodes":[{"name":"o/r/a.rs::f","object_type":"code_function","data":{"kind":"function"}}],"edges":[]}"#,
        &mut tally,
    );
    assert!(result.findings.is_empty());
    let group = result.kind_census.iter().find(|(t, _)| t == "code_function").expect("object type");
    let count = group.1.iter().find(|(k, _)| k == "function").expect("kind").1;
    assert_eq!(count, 1);
}

#[test]
fn productions_differing_only_in_kind_score_alike() {
    let expected = r#"{"org":"o","repo":"r","unique_node_names":true,"nodes":[{"object_type":"code_function","name":"f"},{"object_type":"code_type","name":"T"}]}"#;
    let mut first_tally = Tally::new();
    let first = score_simple(
        expected,
        r#"{"nodes":[{"name":"f","object_type":"code_function","data":{"kind":"method"}},{"name":"g","object_type":"code_function","data":{"kind":"method"}}]}"#,
        &mut first_tally,
    );
    let mut second_tally = Tally::new();
    let second = score_simple(
        expected,
        r#"{"nodes":[{"name":"f","object_type":"code_function","data":{"kind":"function"}},{"name":"g","object_type":"code_function"}]}"#,
        &mut second_tally,
    );
    assert_eq!(first.findings, second.findings);
    assert_eq!(first.findings.len(), 2);
    let a = slice(&first_tally, "object_type", "code_function").expect("first slice");
    let b = slice(&second_tally, "object_type", "code_function").expect("second slice");
    assert_eq!((a.tp, a.fp, a.fn_), (b.tp, b.fp, b.fn_));
    assert_eq!((a.tp, a.fp, a.fn_), (1, 1, 0));
}

#[test]
fn edges_are_scoped_to_declared_types() {
    let mut tally = Tally::new();
    let result = score_simple(
        r#"{"org":"o","repo":"r","edges":[{"source":"a","type":"calls","target":"b","reason":"receiver-typed"}]}"#,
        r#"{"nodes":[],"edges":[{"source_ref":"a","edge_type":"calls","target_ref":"b","reason":"receiver-typed"},{"source_ref":"a","edge_type":"contains","target_ref":"c","reason":"syntactic"}]}"#,
        &mut tally,
    );
    assert!(result.findings.is_empty());
}

#[test]
fn forbidden_edge_is_false_positive() {
    let mut tally = Tally::new();
    let result = score_simple(
        r#"{"org":"o","repo":"r","edges":[],"forbidden_edge_types":["calls"]}"#,
        r#"{"nodes":[],"edges":[{"source_ref":"a","edge_type":"calls","target_ref":"b","reason":"name-match"}]}"#,
        &mut tally,
    );
    assert!(!result.findings.is_empty());
    assert_eq!(slice(&tally, "total", "total").expect("total").fp, 1);
}

#[test]
fn tier_disagreement_is_not_wrong_edge() {
    let mut tally = Tally::new();
    let result = score_simple(
        r#"{"org":"o","repo":"r","edges":[{"source":"a","type":"calls","target":"b","reason":"receiver-typed"}]}"#,
        r#"{"nodes":[],"edges":[{"source_ref":"a","edge_type":"calls","target_ref":"b","reason":"import-scoped"}]}"#,
        &mut tally,
    );
    assert!(result.findings.is_empty());
    assert_eq!(result.tier_disagreements.len(), 1);
    assert_eq!(slice(&tally, "total", "total").expect("total").tp, 1);
}

fn mention_case(expected: &str, mentions: &str) -> CaseScore {
    let mut tally = Tally::new();
    let produced = format!(r#"{{"nodes":[],"edges":[],"mentions":{}}}"#, mentions);
    score_simple(expected, &produced, &mut tally)
}

#[test]
fn missing_mention_is_false_negative() {
    let result = mention_case(
        r#"{"org":"o","repo":"r","mentions":[{"identifier":"TC-001","kind":"tracking_tag","source":"o/r/a.rs::t"}]}"#,
        "[]",
    );
    assert!(has_finding(&result, "missing mention TC-001"));
}

#[test]
fn mention_kind_is_part_of_claim() {
    let result = mention_case(
        r#"{"org":"o","repo":"r","mentions":[{"identifier":"TC-001","kind":"tracking_tag","source":"o/r/a.rs::t"}]}"#,
        r#"[{"identifier":"TC-001","kind":"requirement_citation","source":"o/r/a.rs::t"}]"#,
    );
    assert!(has_finding(&result, "missing mention TC-001 as tracking_tag"));
}

#[test]
fn extra_mention_only_fails_when_exhaustive() {
    let mentions = r#"[{"identifier":"FR-002","kind":"requirement_citation","source":"o/r/a.rs"}]"#;
    assert!(mention_case(r#"{"org":"o","repo":"r","mentions":[]}"#, mentions).findings.is_empty());
    assert!(!mention_case(r#"{"org":"o","repo":"r","mentions":[],"exhaustive_mentions":true}"#, mentions)
        .findings
        .is_empty());
}

#[test]
fn diagnostic_bounds_work_both_directions() {
    let mut tally = Tally::new();
    let few = score_simple(r#"{"org":"o","repo":"r","diagnostics":{"min":1}}"#, empty_payload(), &mut tally);
    assert!(has_finding(&few, "at least 1"));
    let many = score_simple(
        r#"{"org":"o","repo":"r","diagnostics":{"max":0}}"#,
        r#"{"nodes":[],"edges":[],"diagnostics":[{"code":"x","path":"a"}]}"#,
        &mut tally,
    );
    assert!(has_finding(&many, "at most 0"));
}

#[test]
fn diagnostic_code_and_path_are_graded() {
    let mut tally = Tally::new();
    let result = score_simple(
        r#"{"org":"o","repo":"r","diagnostics":{"codes":["parse_error"],"paths":["src/broken.rs"]}}"#,
        r#"{"nodes":[],"edges":[],"diagnostics":[{"code":"other","path":"src/other.rs"}]}"#,
        &mut tally,
    );
    assert!(has_finding(&result, "code 'parse_error'"));
    assert!(has_finding(&result, "naming 'src/broken.rs'"));
}

#[test]
fn forbidden_payload_substring_is_finding() {
    let mut tally = Tally::new();
    let result = score_case(
        &meta("rust"),
        &j(r#"{"org":"o","repo":"r","forbidden_payload_substrings":["/Users/"]}"#),
        &j(empty_payload()),
        &mut tally,
        "{\"path\":\"/Users/person/repo\"}",
    )
    .ok()
    .expect("score case");
    assert!(has_finding(&result, "/Users/"));
}

#[test]
fn missing_and_unexpected_nodes_are_counted_exactly() {
    let mut tally = Tally::new();
    let result = score_simple(
        r#"{"nodes":[{"name":"a","object_type":"code_function"},{"name":"b","object_type":"code_function"}]}"#,
        r#"{"nodes":[{"name":"b","object_type":"code_function"},{"name":"c","object_type":"code_struct"}],"edges":[]}"#,
        &mut tally,
    );
    assert_eq!(
        result.findings,
        vec!["missing node code_function a".to_owned(), "unexpected node code_struct c".to_owned()]
    );
    let total = slice(&tally, "total", "total").expect("total");
    assert_eq!((total.tp, total.fp, total.fn_), (1, 1, 1));
    let structs = slice(&tally, "object_type", "code_struct").expect("struct slice");
    assert_eq!((structs.tp, structs.fp, structs.fn_), (0, 1, 0));
    assert_eq!(result.population.nodes_expected, 2);
    assert_eq!(result.population.nodes_produced, 2);
}

#[test]
fn non_exhaustive_nodes_ignore_extras() {
    let mut tally = Tally::new();
    let result = score_simple(
        r#"{"nodes":[{"name":"a","object_type":"f"}],"exhaustive_nodes":false}"#,
        r#"{"nodes":[{"name":"a","object_type":"f"},{"name":"z","object_type":"f"}]}"#,
        &mut tally,
    );
    assert!(result.findings.is_empty());
    assert_eq!(slice(&tally, "total", "total").expect("total").tp, 1);
}

#[test]
fn repeated_identity_is_a_false_positive() {
    let mut tally = Tally::new();
    let result = score_simple(
        r#"{"unique_node_names":true}"#,
        r#"{"nodes":[{"name":"a","object_type":"f"},{"name":"a","object_type":"f"}]}"#,
        &mut tally,
    );
    assert_eq!(
        result.findings,
        vec!["2 nodes share the name a (f); a consumer keying on identity keeps one of them".to_owned()]
    );
}

#[test]
fn forbidden_names_and_kinds_are_graded() {
    let mut tally = Tally::new();
    let result = score_simple(
        r#"{"forbidden_node_names":["ghost","real"],"forbidden_node_kinds":["macro"]}"#,
        r#"{"nodes":[{"name":"real","object_type":"f","data":{"kind":"macro"}}]}"#,
        &mut tally,
    );
    assert_eq!(
        result.findings,
        vec![
            "forbidden node minted: real is not a declaration".to_owned(),
            "forbidden node kind \"macro\": real \u{2014} this language cannot declare one".to_owned(),
        ]
    );
    let total = slice(&tally, "total", "total").expect("total");
    assert_eq!((total.tp, total.fp), (1, 2));
}

#[test]
fn provenance_and_evidence_are_compared() {
    let mut tally = Tally::new();
    let result = score_simple(
        r#"{"edges":[{"source":"a","type":"calls","target":"b","confidence":"high","evidence":[{"file":"x.rs","line":3}],"evidence_len":2}]}"#,
        r#"{"edges":[{"source_ref":"a","edge_type":"calls","target_ref":"b","confidence":"low","evidence":[{"file":"x.rs","line":4}]}]}"#,
        &mut tally,
    );
    assert_eq!(
        result.findings,
        vec![
            "edge a -calls-> b has confidence 'low', expected 'high'".to_owned(),
            "edge a -calls-> b evidence is [Object {\"file\": String(\"x.rs\"), \"line\": Number(4)}], expected [Object {\"file\": String(\"x.rs\"), \"line\": Number(3)}]".to_owned(),
            "edge a -calls-> b carries 1 evidence entries, expected 2".to_owned(),
        ]
    );
}

#[test]
fn visibility_and_signature_are_graded() {
    let mut tally = Tally::new();
    let result = score_simple(
        r#"{"visibility":{"f":"public","g":"private"},"signatures":{"f":"fn f()"}}"#,
        r#"{"nodes":[{"name":"f","object_type":"code_function","data":{"visibility":"crate","signature":"fn f()"}}]}"#,
        &mut tally,
    );
    assert_eq!(
        result.findings,
        vec![
            "f classified 'crate', expected 'public'".to_owned(),
            "visibility unmeasurable: no node named g".to_owned(),
        ]
    );
    let sig = slice(&tally, "axis_kind", "signature").expect("signature slice");
    assert_eq!(sig.tp, 1);
}

#[test]
fn unexpected_scoped_edge_names_its_tier() {
    let mut tally = Tally::new();
    let result = score_simple(
        r#"{"edges":[{"source":"a","type":"calls","target":"b"}],"forbidden_edges":[{"source":"a","type":"calls","target":"c"}]}"#,
        r#"{"edges":[{"source_ref":"a","edge_type":"calls","target_ref":"c","reason":"name-match"}]}"#,
        &mut tally,
    );
    assert_eq!(
        result.findings,
        vec![
            "missing edge a -calls-> b".to_owned(),
            "unexpected edge a -calls-> c (tier 'name-match')".to_owned(),
            "forbidden edge emitted: a -calls-> c".to_owned(),
        ]
    );
    assert_eq!(result.population.edges_expected, 1);
}

#[test]
fn non_object_root_is_rejected() {
    let mut tally = Tally::new();
    let error = score_case(&meta("rust"), &j("[]"), &j("{}"), &mut tally, "{}").err().expect("error");
    assert_eq!(error.message(), "observation root is not an object");
}

#[test]
fn node_without_name_is_rejected_with_context() {
    let mut tally = Tally::new();
    let error = score_case(&meta("rust"), &j("{}"), &j(r#"{"nodes":[{"object_type":"f"}]}"#), &mut tally, "{}")
        .err()
        .expect("error");
    assert_eq!(error.message(), "node has no string \"name\"");
}

#[test]
fn census_reports_ambiguous_sites_and_diagnostics() {
    let mut tally = Tally::new();
    let result = score_simple(
        r#"{"ambiguous_call_sites":2,"diagnostics":{"min":0}}"#,
        r#"{"nodes":[],"stats":{"unresolved_calls":3},"diagnostics":[{"code":"a"}]}"#,
        &mut tally,
    );
    let ambiguous = result.census.ambiguous_call_sites.expect("ambiguous census");
    assert!(matches!(ambiguous.reported, Some(JsonValue::Number(JsonNumber::PosInt(3)))));
    assert_eq!(result.census.diagnostics.expect("diagnostics census").reported, 1);
}

#[test]
fn unknown_tally_outcome_is_rejected() {
    let mut tally = Tally::new();
    let error = tally.add("maybe", &[("language", "rust")]).err().expect("error");
    assert_eq!(error.message(), "unknown tally outcome \"maybe\"");
    tally.add("fn", &[("language", "rust"), ("object_type", "")]).ok().expect("added");
    let total = slice(&tally, "total", "total").expect("total");
    assert_eq!(total.fn_, 1);
    assert!(slice(&tally, "object_type", "").is_none());
    assert_eq!(slice(&tally, "language", "rust").expect("language").fn_, 1);
}

#[test]
fn relation_budget_is_five_per_outcome() {
    assert_eq!(relation_budget(0), Some(5));
    assert_eq!(relation_budget(3), Some(20));
    assert_eq!(relation_budget(usize::MAX), None);
}

#[test]
fn determinism_is_checked_only_when_asked() {
    assert!(wants_determinism(&j(r#"{"deterministic":true}"#)));
    assert!(!wants_determinism(&j(r#"{"deterministic":false}"#)));
    assert!(!wants_determinism(&j(r#"{"deterministic":"yes"}"#)));
    assert!(!wants_determinism(&j("{}")));
}

#[test]
fn zero_and_negative_zero_are_equal_numbers() {
    assert!(json_eq(&j("0.0"), &j("-0.0")));
    assert!(json_eq(&j("-0.0"), &j("-0.0")));
    assert!(json_eq(&j("1.5"), &j("1.50")));
    assert!(!json_eq(&j("0.0"), &j("0.5")));
    assert!(!json_eq(&j("0.0"), &j("0")));
}

#[test]
fn confidence_of_negative_zero_matches_zero() {
    let mut tally = Tally::new();
    let result = score_simple(
        r#"{"edges":[{"source":"a","type":"calls","target":"b","confidence":0.0}]}"#,
        r#"{"nodes":[],"edges":[{"source_ref":"a","edge_type":"calls","target_ref":"b","confidence":-0.0}]}"#,
        &mut tally,
    );
    assert!(result.findings.is_empty(), "{:?}", result.findings);
}
