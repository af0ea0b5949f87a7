use quire_corpus::json::{JsonNumber, JsonValue};
use quire_corpus::relation::compare_runs;

fn from_serde(v: &serde_json::Value) -> JsonValue {
    match v {
        serde_json::Value::Null => JsonValue::Null,
        serde_json::Value::Bool(b) => JsonValue::Bool(*b),
        serde_json::Value::Number(n) => {
            if let Some(u) = n.as_u64() {
                JsonValue::Number(JsonNumber::PosInt(u))
            } else if let Some(i) = n.as_i64() {
                JsonValue::Number(JsonNumber::NegInt(i))
            } else {
                JsonValue::Number(JsonNumber::Float(n.to_string()))
            }
        }
        serde_json::Value::String(s) => JsonValue::Str(s.clone()),
        serde_json::Value::Array(xs) => JsonValue::Array(xs.iter().map(from_serde).collect()),
        serde_json::Value::Object(m) => {
            JsonValue::Object(m.iter().map(|(k, v)| (k.clone(), from_serde(v))).collect())
        }
    }
}

fn j(text: &str) -> JsonValue {
    from_serde(&serde_json::from_str(text).expect("test JSON"))
}

fn payload(nodes: &[(&str, &str)]) -> JsonValue {
    let items: Vec<String> = nodes
        .iter()
        .map(|(name, id)| {
            format!(
                r#"{{"name":"{}","object_type":"code_function","id":"{}","data":{{"kind":"function","path":"src/lib.rs"}}}}"#,
                name, id
            )
        })
        .collect();
    j(&format!(r#"{{"nodes":[{}],"edges":[]}}"#, items.join(",")))
}

fn findings(relation: &str, first: &JsonValue, second: &JsonValue, spec: &JsonValue) -> Vec<String> {
    compare_runs(relation, first, second, spec).ok().expect("compare runs")
}

#[test]
fn moved_declaration_keeps_identifier() {
    let first = payload(&[("o/r/a.rs::f", "aaa")]);
    assert!(findings("ids_preserved", &first, &first, &j("{}")).is_empty());
    assert!(findings("ids_preserved", &first, &payload(&[("o/r/a.rs::f", "bbb")]), &j("{}"))
        .iter()
        .any(|finding| finding.contains("changed identifier")));
}

#[test]
fn org_names_are_disjoint() {
    let first = payload(&[("agent-ix/r/a.rs::f", "aaa")]);
    assert!(findings("disjoint_names", &first, &payload(&[("other/r/a.rs::f", "bbb")]), &j("{}")).is_empty());
    assert!(findings("disjoint_names", &first, &payload(&[("agent-ix/r/a.rs::f", "ccc")]), &j("{}"))
        .iter()
        .any(|finding| finding.contains("under both orgs")));
}

#[test]
fn identical_except_ignores_only_named_records() {
    let first = payload(&[("o/r/a.rs::f", "aaa")]);
    let added = payload(&[("o/r/a.rs::f", "aaa"), ("o/r/b.rs::g", "bbb")]);
    assert!(findings("identical_except", &first, &added, &j(r#"{"except_names":["o/r/b.rs::g"]}"#)).is_empty());
    assert!(!findings("identical_except", &first, &added, &j("{}")).is_empty());
}

#[test]
fn unknown_relation_is_not_held() {
    assert!(findings("wishful", &payload(&[]), &payload(&[]), &j("{}"))
        .iter()
        .any(|finding| finding.contains("unknown relation")));
}

#[test]
fn identical_relation_holds_on_one_observation() {
    let first = payload(&[("o/r/a.rs::f", "aaa"), ("o/r/b.rs::g", "bbb")]);
    assert!(findings("identical", &first, &first, &j("{}")).is_empty());
    assert_eq!(
        findings("identical", &first, &payload(&[("o/r/a.rs::f", "aaa")]), &j("{}")),
        vec!["the two extractions disagree, and the input difference between them is not one the records may depend on".to_owned()]
    );
}

#[test]
fn identical_relation_compares_repeats() {
    let one = payload(&[("o/r/a.rs::f", "aaa")]);
    let twice = payload(&[("o/r/a.rs::f", "aaa"), ("o/r/a.rs::f", "aaa")]);
    assert_eq!(findings("identical", &one, &twice, &j("{}")).len(), 1);
}

#[test]
fn identical_except_names_the_differing_records() {
    let first = payload(&[("o/r/a.rs::f", "aaa")]);
    let added = payload(&[("o/r/a.rs::f", "aaa"), ("o/r/b.rs::g", "bbb")]);
    assert_eq!(
        findings("identical_except", &first, &added, &j("{}")),
        vec!["records outside the changed file differ between the two runs: [(\"code_function\", \"o/r/b.rs::g\")]".to_owned()]
    );
}

#[test]
fn absent_name_is_reported() {
    let first = payload(&[("o/r/a.rs::f", "aaa")]);
    assert_eq!(
        findings("ids_preserved", &first, &payload(&[]), &j("{}")),
        vec!["o/r/a.rs::f is absent from the second run".to_owned()]
    );
}

#[test]
fn shared_names_are_counted_and_listed() {
    let first = payload(&[("a", "1"), ("b", "2"), ("c", "3"), ("d", "4")]);
    assert_eq!(
        findings("disjoint_names", &first, &first, &j("{}")),
        vec!["4 name(s) appear under both orgs, so two repositories collide in one graph: [\"a\", \"b\", \"c\"]".to_owned()]
    );
}

#[test]
fn malformed_edge_is_an_error() {
    let bad = j(r#"{"nodes":[],"edges":[{"source_ref":"a","edge_type":"calls"}]}"#);
    let error = compare_runs("identical", &bad, &bad, &j("{}")).err().expect("error");
    assert_eq!(error.message(), "edge has no string \"target_ref\"");
}
