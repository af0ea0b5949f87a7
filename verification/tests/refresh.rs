use quire_corpus::producer::{tool_failure, ProcessExit};
use quire_corpus::refresh::{collect_criteria, pin_header, render_pin, repository_name};
use quire_corpus::text::trim_text;

#[test]
fn criteria_refresh_is_exact_and_deterministic() {
    let documents = vec!["| FR-002-AC-1 | a |\n| FR-001-AC-1 | b |\n".to_owned()];
    let criteria = collect_criteria(&documents).ok().expect("criteria");
    assert_eq!(criteria, vec!["FR-001-AC-1".to_owned(), "FR-002-AC-1".to_owned()]);
    let producer = repository_name("https://github.com/agent-ix/demo-producer.git").ok().expect("name");
    assert_eq!(producer, "demo-producer");
    let first = render_pin(None, &producer, "abc123", "main", &criteria);
    let second = render_pin(Some(&first), &producer, "abc123", "main", &criteria);
    assert_eq!(first, second);
    assert!(first.find("FR-001-AC-1").unwrap() < first.find("FR-002-AC-1").unwrap());
    assert!(!first.contains("FR-999-AC-1"));
    assert_eq!(
        first,
        "producer: agent-ix/demo-producer\nrevision: abc123\nbranch: main\ncriteria:\n- FR-001-AC-1\n- FR-002-AC-1\n"
    );
}

#[test]
fn only_table_rows_state_criteria() {
    let documents = vec![
        "prose FR-003-AC-1\n| FR-004-AC-2 | row |\n|FR-005-AC-3| tight |\n".to_owned(),
        "| FR-004-AC-2 | again |\n".to_owned(),
    ];
    assert_eq!(collect_criteria(&documents).ok().expect("criteria"), vec!["FR-004-AC-2".to_owned()]);
}

#[test]
fn repository_names_are_derived_or_refused() {
    assert_eq!(repository_name("git@github.com:agent-ix/quire-rs.git/").ok().expect("name"), "quire-rs");
    assert_eq!(repository_name("quire").ok().expect("name"), "quire");
    let error = repository_name("https://host/with space").err().expect("error");
    assert_eq!(error.message(), "cannot derive repository name from origin \"https://host/with space\"");
    assert!(repository_name("git@host:").is_err());
}

#[test]
fn pin_header_keeps_what_precedes_the_producer_line() {
    assert_eq!(pin_header("# kept\nproducer: x\nmore"), "# kept\n");
    assert_eq!(pin_header("no marker"), "no marker");
}

#[test]
fn tool_failures_trim_their_stderr() {
    let error = tool_failure("git", &ProcessExit::Code(128), "\n  fatal: no repo \n");
    assert_eq!(error.message(), "git exited 128: fatal: no repo");
    assert_eq!(trim_text("\u{3000} x y\t"), "x y");
}

#[test]
fn no_documents_state_no_criteria() {
    let criteria = collect_criteria(&Vec::new()).ok().expect("criteria");
    assert!(criteria.is_empty());
}
