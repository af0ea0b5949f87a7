use quire_corpus::producer::{
    limited, producer_json_error, producer_output, reads_in_place, render_argument, ProcessExit,
    ProducerInvocation,
};

fn invocation(extra: &[String]) -> ProducerInvocation {
    let mut arguments = extra.to_vec();
    arguments.extend(["{org}".to_owned(), "{repo}".to_owned(), "{input}".to_owned()]);
    ProducerInvocation { executable: "quire-corpus-test-producer".to_owned(), arguments }
}

fn input_of(case_dir: &str, file_name: Option<&str>) -> String {
    if reads_in_place(file_name) {
        case_dir.to_owned()
    } else {
        format!("{case_dir}/input")
    }
}

#[test]
fn invocation_substitutes_all_placeholders() {
    let case = "fixtures/relations/bare-import/rust";
    let input = input_of(case, Some("rust"));
    let arguments = invocation(&[]).arguments_for("org", "repo", &input);
    assert_eq!(arguments[0], "org");
    assert_eq!(arguments[1], "repo");
    assert!(arguments[2].ends_with("/input"));
}

#[test]
fn failing_producer_is_not_scored() {
    let case = "fixtures/relations/bare-import/rust";
    let error = producer_output(
        "quire-corpus-test-producer",
        false,
        &ProcessExit::Code(3),
        "requested failure\n",
        Ok(String::new()),
        case,
    )
    .err()
    .expect("error");
    assert!(error.message().contains("exited 3"));
}

#[test]
fn non_json_output_is_rejected() {
    let case = "fixtures/relations/bare-import/rust";
    let raw = producer_output("quire-corpus-test-producer", true, &ProcessExit::Code(0), "", Ok("not json\n".to_owned()), case)
        .ok()
        .expect("raw output");
    let source = serde_json::from_str::<serde_json::Value>(&raw).err().expect("not JSON").to_string();
    let error = producer_json_error(case, &source);
    assert!(error.message().contains("invalid JSON"));
}

#[test]
fn producer_arguments_remain_literal() {
    let special = ["space value", "; touch never", "$(never)", "{org}-literal"];
    let extra = special.iter().map(|value| (*value).to_owned()).collect::<Vec<_>>();
    let input = input_of("fixtures/relations/bare-import/rust", Some("rust"));
    let arguments = invocation(&extra).arguments_for("{repo}", "actual-repo", &input);
    assert_eq!(arguments[0], "space value");
    assert_eq!(arguments[1], "; touch never");
    assert_eq!(arguments[2], "$(never)");
    assert_eq!(arguments[3], "{repo}-literal");
}

#[test]
fn variant_directory_is_read_in_place() {
    assert!(reads_in_place(Some("variant")));
    assert!(!reads_in_place(Some("variants")));
    assert!(!reads_in_place(None));
    assert_eq!(input_of("x/variant", Some("variant")), "x/variant");
}

#[test]
fn placeholders_render_left_to_right() {
    assert_eq!(render_argument("--in={input}/{org}{repo}", "o", "r", "i"), "--in=i/or");
    assert_eq!(render_argument("{or{org}}", "o", "r", "i"), "{oro}");
    assert_eq!(render_argument("{{org}}", "{org}", "r", "i"), "{{org}}");
}

#[test]
fn failure_status_and_stderr_are_reported() {
    let long = "x".repeat(500);
    let error = producer_output("p", false, &ProcessExit::Signal, &long, Ok(String::new()), "c").err().expect("error");
    let message = error.message();
    assert!(message.starts_with("p exited by signal: "));
    assert_eq!(message.len(), "p exited by signal: ".len() + 400);
    let negative = producer_output("p", false, &ProcessExit::Code(-2), "e", Ok(String::new()), "c").err().expect("error");
    assert_eq!(negative.message(), "p exited -2: e");
    let utf8 = producer_output("p", true, &ProcessExit::Code(0), "", Err("bad byte".to_owned()), "c").err().expect("error");
    assert_eq!(utf8.message(), "producer output on c is not UTF-8: bad byte");
    assert_eq!(limited("abcdef", 3), "abc");
}
