use quire_corpus::coverage::{compact_text, validate_report, CoverageReport, Diagnostic, Row, Totals};

fn base() -> CoverageReport {
    CoverageReport {
        totals: Totals { backed: 1, total: 1 },
        status_lies: vec![],
        unbacked_rows: vec![],
        no_symbol_rows: vec![],
        diagnostics: vec![],
    }
}

fn row(document: &str, row_id: &str) -> Row {
    Row { document: document.to_owned(), row_id: row_id.to_owned() }
}

#[test]
fn coverage_rejects_every_false_green_class() {
    let mut empty = base();
    empty.totals = Totals { backed: 0, total: 0 };
    assert!(validate_report(&empty).failed());
    let mut lies = base();
    lies.status_lies = vec![row("x", "TC-1")];
    assert!(validate_report(&lies).failed());
    let mut unbacked = base();
    unbacked.unbacked_rows = vec![row("x", "TC-1")];
    assert!(validate_report(&unbacked).failed());
    for reason in [
        "id-column-matches-nothing",
        "archetype-matches-nothing",
        "section-holds-no-table",
        "marker-form-mismatch",
        "hollow-denominator",
    ] {
        let mut hollow = base();
        hollow.diagnostics = vec![Diagnostic { reason: reason.to_owned(), message: "broken declaration".to_owned() }];
        assert!(validate_report(&hollow).failed());
    }
    assert!(!validate_report(&base()).failed());
}

#[test]
fn explained_rows_are_not_problems() {
    let mut report = base();
    report.unbacked_rows = vec![row("spec", "TC-2"), row("spec", "TC-3")];
    report.no_symbol_rows = vec![row("spec", "TC-2"), row("spec", "TC-2")];
    let outcome = validate_report(&report);
    assert_eq!(outcome.unbacked, 2);
    assert_eq!(outcome.explained, 1);
    assert_eq!(
        outcome.problems,
        vec!["TC-3 is unbacked and its verification method does not explain why (spec)".to_owned()]
    );
}

#[test]
fn explained_counts_only_unbacked_rows() {
    let mut report = base();
    report.no_symbol_rows = vec![row("x", "TC-1")];
    let outcome = validate_report(&report);
    assert_eq!(outcome.unbacked, 0);
    assert_eq!(outcome.explained, 0);
    assert!(outcome.problems.is_empty());
    let mut twice = base();
    twice.unbacked_rows = vec![row("x", "TC-1"), row("x", "TC-1"), row("x", "TC-2")];
    twice.no_symbol_rows = vec![row("x", "TC-1"), row("y", "TC-9")];
    let outcome = validate_report(&twice);
    assert_eq!(outcome.unbacked, 3);
    assert_eq!(outcome.explained, 1);
}

#[test]
fn hollow_messages_are_compacted_and_shortened() {
    let mut report = base();
    report.totals = Totals { backed: 0, total: 0 };
    report.diagnostics = vec![
        Diagnostic { reason: "marker-form-mismatch".to_owned(), message: "  two\n\twords  ".to_owned() },
        Diagnostic { reason: "other".to_owned(), message: "ignored".to_owned() },
        Diagnostic { reason: "hollow-denominator".to_owned(), message: "y ".repeat(200) },
    ];
    let outcome = validate_report(&report);
    assert_eq!(outcome.problems[0], "nothing was reconciled \u{2014} the matrix or module path is wrong");
    assert_eq!(outcome.problems[1], "marker-form-mismatch: two words");
    assert_eq!(outcome.problems[2].len(), "hollow-denominator: ".len() + 160);
    assert_eq!(outcome.problems.len(), 3);
}

#[test]
fn compaction_collapses_white_space() {
    assert_eq!(compact_text(" a  b\u{2003}c "), "a b c");
    assert_eq!(compact_text("   "), "");
}

#[test]
fn white_space_agrees_with_std_on_every_char() {
    for u in 0u32..=0x10ffff {
        if let Some(c) = char::from_u32(u) {
            assert_eq!(quire_corpus::text::is_whitespace(c), c.is_whitespace(), "U+{u:04X}");
        }
    }
}
