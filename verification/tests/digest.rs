use quire_corpus::bounds::CaseKey;
use quire_corpus::digest::{case_digests, corpus_revision, digest_paths, hex, report, FileEntry};

fn file(path: &str, content: &str) -> FileEntry {
    FileEntry { path: path.to_owned(), content: content.as_bytes().to_vec() }
}

fn manifest() -> FileEntry {
    file("corpus.yaml", "inventory: {}\n")
}

fn fixtures() -> Vec<FileEntry> {
    vec![
        file("fixtures/relations/bare-import/rust/case.yaml", "language: rust\n"),
        file("fixtures/relations/bare-import/rust/input/src/lib.rs", "pub fn f() {}\n"),
    ]
}

#[test]
fn repeated_digest_runs_agree() {
    assert_eq!(corpus_revision(manifest(), fixtures()), corpus_revision(manifest(), fixtures()));
}

#[test]
fn digest_is_lowercase_hex_of_thirty_two_bytes() {
    let revision = corpus_revision(manifest(), fixtures());
    assert_eq!(revision.len(), 64);
    assert!(revision.chars().all(|c| c.is_ascii_digit() || ('a'..='f').contains(&c)));
}

#[test]
fn empty_digest_is_blake2b_256_of_nothing() {
    assert_eq!(
        digest_paths(&[]),
        "0e5751c026e543b2e8ab2eb06099daa1d1e5df47778f7787faab45cdf12fe3a8"
    );
}

#[test]
fn fixture_edit_changes_revision() {
    let mut edited = fixtures();
    edited[1].content.extend_from_slice(b"pub fn added() {}\n");
    assert_ne!(corpus_revision(manifest(), fixtures()), corpus_revision(manifest(), edited));
}

#[test]
fn fixture_move_changes_revision() {
    let mut moved = fixtures();
    moved[1].path = "fixtures/relations/bare-import/moved/input/src/lib.rs".to_owned();
    assert_ne!(corpus_revision(manifest(), fixtures()), corpus_revision(manifest(), moved));
}

#[test]
fn framing_separates_path_from_content() {
    let a = digest_paths(&[file("ab", "c")]);
    let b = digest_paths(&[file("a", "bc")]);
    assert_ne!(a, b);
}

#[test]
fn hex_writes_two_digits_per_byte() {
    assert_eq!(hex(&[0, 15, 16, 255]), "000f10ff");
    assert_eq!(hex(&[]), "");
}

#[test]
fn case_digests_are_ordered_by_slash_name() {
    let cases = vec![
        (CaseKey("a".to_owned(), "z".to_owned(), "rust".to_owned()), vec![file("x", "1")]),
        (CaseKey("a-b".to_owned(), "c".to_owned(), "rust".to_owned()), vec![file("y", "2")]),
    ];
    let digests = case_digests(&cases);
    assert_eq!(digests.len(), 2);
    assert_eq!(digests[0].0, "a-b/c/rust");
    assert_eq!(digests[1].0, "a/z/rust");
    assert_eq!(digests[1].1, digest_paths(&[file("x", "1")]));
    let full = report(&[manifest()], &cases);
    assert_eq!(full.schema_version, 1);
    assert_eq!(full.corpus_revision, digest_paths(&[manifest()]));
}
