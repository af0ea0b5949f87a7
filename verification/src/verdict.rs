//! The whole score of one case: every section in order, the censuses, the
//! derived-query answers and the populations.
use vstd::prelude::*;
use crate::bounds::CaseMetadata;
use crate::case::{
    ScoreState, texts, value_repr, string_repr, string_repr_exec, member_or_null, first_fault,
    node_fields, nodes_section, repeats_section, forbidden_names_section, forbidden_kinds_section,
    edges_section, nodes_bound, edges_bound, kind_census, census_view, census_exec, nodes_exec,
    repeats_exec, forbidden_names_exec, forbidden_kinds_exec, edges_exec, TierDisagreement,
    tier_view, records_of, edge_fields, records_exec, strs, lemma_room_mono, lemma_fold_failed,
    emit, forbidden_name_step, forbidden_kind_step, forbidden_kind_node_step,
};
use crate::report::{
    visibility_section, signatures_section, mentions_section, mentions_bound, members_of,
    declarations_exec, mentions_exec, visibility_step, signature_step,
};
use crate::error::CorpusError;
use crate::json::{JsonValue, JsonNumber, JsonData, get, get_str, json_equal, json_eq, json_text, json_debug, to_json_text, to_json_debug, items, data, copy_json};
use crate::order::{keys, sorted_set, to_sorted_set, lemma_sorted_set_arity};
use crate::score::{Tally, Counts, has_room};
use crate::text::{push_text, chars_of, str_debug, debug_str, decimal, decimal_string, count_string};

verus! {

/// The scoring of one case before its censuses: the state after every
/// section, in the order the sections run, and the tier disagreements.
pub open spec fn case_sections(st: ScoreState, expected: JsonValue, produced: JsonValue, language: Seq<char>) -> (
    ScoreState,
    Seq<(Seq<Seq<char>>, JsonData, JsonData)>,
) {
    let s1 = nodes_section(st, expected, produced, language);
    let s2 = repeats_section(s1, expected, produced, language);
    let s3 = forbidden_names_section(s2, expected, produced, language);
    let s4 = forbidden_kinds_section(s3, expected, produced, language);
    let (s5, tiers) = edges_section(s4, expected, produced, language);
    let s6 = visibility_section(s5, expected, produced, language);
    let s7 = signatures_section(s6, expected, produced, language);
    (mentions_section(s7, expected, produced, language), tiers)
}

/// Whether a value is a JSON object.
pub open spec fn is_object(v: JsonValue) -> bool {
    v is Object
}

/// The error that stops a case before any section: a root that is not an
/// object, or a produced node without a string `name` and `object_type`.
pub open spec fn case_precheck(expected: JsonValue, produced: JsonValue) -> Option<Seq<char>> {
    if !is_object(expected) || !is_object(produced) {
        Some("observation root is not an object"@)
    } else {
        first_fault(items(produced, "nodes"@), node_fields(), "node"@)
    }
}

/// The scoring of one case from a tally: its final state and tier disagreements.
pub open spec fn case_outcome(
    expected: JsonValue,
    produced: JsonValue,
    language: Seq<char>,
    tally: Map<Seq<Seq<char>>, Counts>,
) -> (ScoreState, Seq<(Seq<Seq<char>>, JsonData, JsonData)>) {
    let st = ScoreState { tally, findings: seq![], error: case_precheck(expected, produced) };
    if st.error is Some {
        (st, seq![])
    } else {
        case_sections(st, expected, produced, language)
    }
}

/// The events one case can count; each uses at most five units of room.
pub open spec fn case_bound(expected: JsonValue, produced: JsonValue) -> nat {
    nodes_bound(expected, produced) + items(produced, "nodes"@).len()
        + items(expected, "forbidden_node_names"@).len()
        + items(expected, "forbidden_node_kinds"@).len() * items(produced, "nodes"@).len()
        + edges_bound(expected, produced) + members_of(expected, "visibility"@).len()
        + members_of(expected, "signatures"@).len() + mentions_bound(expected, produced)
}

// ---------------------------------------------------------------------------
// Censuses.

/// `produced.stats.unresolved_calls`.
pub open spec fn unresolved_calls(produced: JsonValue) -> Option<JsonValue> {
    match get(produced, "stats"@) {
        Some(s) => get(s, "unresolved_calls"@),
        None => None,
    }
}

/// The content of an optional value.
pub open spec fn opt_data(v: Option<JsonValue>) -> Option<JsonData> {
    match v {
        Some(x) => Some(data(x)),
        None => None,
    }
}

/// The ambiguous call-site census: measured when the producer reports a count, else not computed.
pub struct AmbiguousCensus {
    /// What the case declares.
    pub expected: JsonValue,
    /// What the producer reported, when it reported anything.
    pub reported: Option<JsonValue>,
}

/// The diagnostics census: always measured.
pub struct DiagnosticsCensus {
    /// How many diagnostics the producer emitted.
    pub reported: usize,
    /// What the case declares (an object with `min`, `max`, `codes`, `paths`).
    pub expected: JsonValue,
}

/// The censuses a case asks for.
pub struct Census {
    pub ambiguous_call_sites: Option<AmbiguousCensus>,
    pub diagnostics: Option<DiagnosticsCensus>,
}

/// Whether `c` is the census that `expected` asks for of `produced`.
pub open spec fn census_of(c: Census, expected: JsonValue, produced: JsonValue) -> bool {
    &&& match get(expected, "ambiguous_call_sites"@) {
        Some(w) => c.ambiguous_call_sites matches Some(a) && data(a.expected) == data(w)
            && opt_data(a.reported) == opt_data(unresolved_calls(produced)),
        None => c.ambiguous_call_sites is None,
    }
    &&& match get(expected, "diagnostics"@) {
        Some(w) => if is_object(w) {
            c.diagnostics matches Some(d) && d.reported == items(produced, "diagnostics"@).len()
                && data(d.expected) == data(w)
        } else {
            c.diagnostics is None
        },
        None => c.diagnostics is None,
    }
}

/// Parts joined by `, `.
pub open spec fn joined(parts: Seq<Seq<char>>) -> Seq<char>
    decreases parts.len(),
{
    if parts.len() == 0 {
        seq![]
    } else if parts.len() == 1 {
        parts[0]
    } else {
        joined(parts.drop_last()) + ", "@ + parts.last()
    }
}

/// How `{:?}` prints the `code` of each diagnostic (null when it has none).
pub open spec fn codes_debug(diags: Seq<JsonValue>) -> Seq<char> {
    "["@ + joined(diags.map_values(|d: JsonValue| json_debug(member_or_null(d, "code"@)))) + "]"@
}

/// A string member shown quoted, or `None`.
pub open spec fn opt_repr(s: Option<Seq<char>>) -> Seq<char> {
    match s {
        Some(t) => string_repr(t),
        None => "None"@,
    }
}

/// The distinct shown `field` members of the diagnostics, in string order, as a list.
pub open spec fn optional_list(diags: Seq<JsonValue>, field: Seq<char>) -> Seq<char> {
    let shown = diags.map_values(|d: JsonValue| seq![opt_repr(get_str(d, field))]);
    "["@ + joined(sorted_set(shown).map_values(|k: Seq<Seq<char>>| k[0])) + "]"@
}

/// A declared code or path as a finding shows it: a quoted string, or JSON text.
pub open spec fn plain_repr(v: JsonValue) -> Seq<char> {
    match v {
        JsonValue::Str(s) => string_repr(s@),
        _ => json_text(v),
    }
}

/// Whether some diagnostic's `field` equals `v`.
pub open spec fn diagnostic_with(diags: Seq<JsonValue>, field: Seq<char>, v: JsonValue) -> bool {
    exists|i: int| 0 <= i < diags.len() && match get(#[trigger] diags[i], field) {
        Some(g) => json_equal(g, v),
        None => false,
    }
}

/// A finding for each declared value that no diagnostic carries in `field`.
pub open spec fn absent_findings(list: Seq<JsonValue>, diags: Seq<JsonValue>, field: Seq<char>, prefix: Seq<char>) -> Seq<Seq<char>>
    decreases list.len(),
{
    if list.len() == 0 {
        seq![]
    } else {
        let prev = absent_findings(list.drop_last(), diags, field, prefix);
        if diagnostic_with(diags, field, list.last()) {
            prev
        } else {
            prev.push(prefix + plain_repr(list.last()) + "; got "@ + optional_list(diags, field))
        }
    }
}

/// The finding for fewer diagnostics than the declared minimum.
pub open spec fn min_findings(wanted: JsonValue, n: nat) -> Seq<Seq<char>> {
    match get(wanted, "min"@) {
        Some(JsonValue::Number(JsonNumber::PosInt(m))) => if n < m {
            seq!["expected at least "@ + decimal(m as nat) + " diagnostic(s), got "@ + decimal(n)]
        } else {
            seq![]
        },
        _ => seq![],
    }
}

/// The finding for more diagnostics than the declared maximum, with their codes.
pub open spec fn max_findings(wanted: JsonValue, diags: Seq<JsonValue>) -> Seq<Seq<char>> {
    match get(wanted, "max"@) {
        Some(JsonValue::Number(JsonNumber::PosInt(m))) => if diags.len() > m {
            seq![
                "expected at most "@ + decimal(m as nat) + " diagnostic(s), got "@ + decimal(diags.len()) + ": "@
                    + codes_debug(diags),
            ]
        } else {
            seq![]
        },
        _ => seq![],
    }
}

/// Everything the declared diagnostics census finds, in order: minimum,
/// maximum, each missing code, each missing path.
pub open spec fn diagnostics_findings(expected: JsonValue, produced: JsonValue) -> Seq<Seq<char>> {
    let diags = items(produced, "diagnostics"@);
    match get(expected, "diagnostics"@) {
        Some(w) => if is_object(w) {
            min_findings(w, diags.len()) + max_findings(w, diags)
                + absent_findings(items(w, "codes"@), diags, "code"@, "no diagnostic with code "@)
                + absent_findings(items(w, "paths"@), diags, "path"@, "no diagnostic naming "@)
        } else {
            seq![]
        },
        None => seq![],
    }
}

// ---------------------------------------------------------------------------
// Derived queries and the payload.

/// One derived-query answer: `matches` is `None` when the producer emits no such answer.
pub struct DerivedAnswer {
    pub query: String,
    pub matches: Option<bool>,
}

/// The answer for one declared query.
pub open spec fn derived_entry(expected: JsonValue, produced: JsonValue, key: Seq<char>, payload_key: Seq<char>) -> Seq<(Seq<char>, Option<bool>)> {
    match get(expected, key) {
        None => seq![],
        Some(w) => seq![(key, match get(produced, payload_key) {
            Some(g) => Some(json_equal(g, w)),
            None => None,
        })],
    }
}

/// The answers for the declared queries, in the order paths, impact, test
/// selection, derived links (which the producer calls `links`).
pub open spec fn derived_answers(expected: JsonValue, produced: JsonValue) -> Seq<(Seq<char>, Option<bool>)> {
    derived_entry(expected, produced, "paths"@, "paths"@) + derived_entry(expected, produced, "impact"@, "impact"@)
        + derived_entry(expected, produced, "test_selection"@, "test_selection"@)
        + derived_entry(expected, produced, "derived_links"@, "links"@)
}

/// The view of a list of derived answers.
pub open spec fn derived_view(v: Seq<DerivedAnswer>) -> Seq<(Seq<char>, Option<bool>)> {
    v.map_values(|a: DerivedAnswer| (a.query@, a.matches))
}

/// Whether `needle` occurs in `hay`.
pub open spec fn text_contains(hay: Seq<char>, needle: Seq<char>) -> bool {
    exists|i: int| 0 <= i && i + needle.len() <= hay.len() && #[trigger] hay.subrange(i, i + needle.len()) == needle
}

/// A finding for each forbidden substring the raw payload contains.
pub open spec fn payload_findings(list: Seq<JsonValue>, raw: Seq<char>) -> Seq<Seq<char>>
    decreases list.len(),
{
    if list.len() == 0 {
        seq![]
    } else {
        let prev = payload_findings(list.drop_last(), raw);
        match list.last() {
            JsonValue::Str(s) => if text_contains(raw, s@) {
                prev.push("payload contains "@ + str_debug(s@) + " - a value that cannot be compared between two machines"@)
            } else {
                prev
            },
            _ => prev,
        }
    }
}

/// How many records a case holds and how many it declares.
pub struct Population {
    pub nodes_produced: usize,
    pub edges_produced: usize,
    pub nodes_expected: usize,
    /// Distinct declared edges.
    pub edges_expected: usize,
}

/// The score of one case.
pub struct CaseScore {
    pub findings: Vec<String>,
    pub tier_disagreements: Vec<TierDisagreement>,
    pub kind_census: Vec<(String, Vec<(String, u64)>)>,
    pub census: Census,
    pub derived: Vec<DerivedAnswer>,
    pub population: Population,
}

// ---------------------------------------------------------------------------
// Executable parts.

fn copy_opt(v: Option<&JsonValue>) -> (r: Option<JsonValue>)
    ensures
        opt_data(r) == opt_data(match v {
            Some(x) => Some(*x),
            None => None,
        }),
{
    match v {
        Some(x) => Some(copy_json(x)),
        None => None,
    }
}

fn census_of_exec(expected: &JsonValue, produced: &JsonValue) -> (r: Census)
    ensures
        census_of(r, *expected, *produced),
{
    let ambiguous = match expected.get("ambiguous_call_sites") {
        Some(w) => {
            let reported = match produced.get("stats") {
                Some(s) => copy_opt(s.get("unresolved_calls")),
                None => None,
            };
            Some(AmbiguousCensus { expected: copy_json(w), reported })
        },
        None => None,
    };
    let diagnostics = match expected.get("diagnostics") {
        Some(w) => match w {
            JsonValue::Object(_) => Some(DiagnosticsCensus { reported: produced.items("diagnostics").len(), expected: copy_json(w) }),
            _ => None,
        },
        None => None,
    };
    Census { ambiguous_call_sites: ambiguous, diagnostics }
}

fn codes_debug_exec(diags: &[JsonValue]) -> (r: String)
    ensures
        r@ == codes_debug(diags@),
{
    let ghost parts = diags@.map_values(|d: JsonValue| json_debug(member_or_null(d, "code"@)));
    let mut out = "[".to_owned();
    let mut i: usize = 0;
    while i < diags.len()
        invariant
            0 <= i <= diags@.len(),
            parts == diags@.map_values(|d: JsonValue| json_debug(member_or_null(d, "code"@))),
            out@ == "["@ + joined(parts.take(i as int)),
        decreases diags@.len() - i,
    {
        proof {
            let t = parts.take(i + 1);
            assert(t.drop_last() == parts.take(i as int));
            assert(t.last() == parts[i as int]);
            if i == 0 {
                assert(t.len() == 1 && t[0] == parts[0]);
            }
        }
        if i > 0 {
            push_text(&mut out, ", ");
        }
        let null = JsonValue::Null;
        let d = &diags[i];
        let code = match d.get("code") {
            Some(c) => c,
            None => &null,
        };
        proof {
            assert(*d == diags@[i as int]);
            assert(*code == member_or_null(*d, "code"@));
        }
        let part = to_json_debug(code);
        push_text(&mut out, part.as_str());
        proof {
            assert(part@ == parts[i as int]);
            assert(out@ =~= "["@ + joined(parts.take(i + 1)));
        }
        i = i + 1;
    }
    push_text(&mut out, "]");
    proof {
        assert(parts.take(diags@.len() as int) == parts);
    }
    out
}

fn optional_list_exec(diags: &[JsonValue], field: &str) -> (r: String)
    ensures
        r@ == optional_list(diags@, field@),
{
    let ghost shown = diags@.map_values(|d: JsonValue| seq![opt_repr(get_str(d, field@))]);
    let mut list: Vec<Vec<String>> = Vec::new();
    let mut i: usize = 0;
    while i < diags.len()
        invariant
            0 <= i <= diags@.len(),
            shown == diags@.map_values(|d: JsonValue| seq![opt_repr(get_str(d, field@))]),
            keys(list@) == shown.take(i as int),
        decreases diags@.len() - i,
    {
        let repr = match crate::json::get_string(&diags[i], field) {
            Some(s) => string_repr_exec(s.as_str()),
            None => "None".to_owned(),
        };
        let ghost before = list@;
        let mut one: Vec<String> = Vec::new();
        one.push(repr);
        list.push(one);
        proof {
            assert(words_one(one@) == seq![opt_repr(get_str(diags@[i as int], field@))]);
            assert(keys(list@) =~= keys(before).push(crate::order::words(one@)));
            assert(shown.take(i + 1) =~= shown.take(i as int).push(shown[i as int]));
        }
        i = i + 1;
    }
    proof {
        assert(shown.take(diags@.len() as int) == shown);
        assert forall|k: int| 0 <= k < shown.len() implies (#[trigger] shown[k]).len() == 1 by {}
        lemma_sorted_set_arity(shown, 1);
    }
    let sorted = to_sorted_set(&list);
    let ghost sk = keys(sorted@);
    let ghost parts = sk.map_values(|k: Seq<Seq<char>>| k[0]);
    let mut out = "[".to_owned();
    let mut j: usize = 0;
    while j < sorted.len()
        invariant
            0 <= j <= sorted@.len(),
            sk == keys(sorted@),
            sk == sorted_set(shown),
            parts == sk.map_values(|k: Seq<Seq<char>>| k[0]),
            forall|k: int| 0 <= k < sk.len() ==> (#[trigger] sk[k]).len() == 1,
            out@ == "["@ + joined(parts.take(j as int)),
        decreases sorted@.len() - j,
    {
        proof {
            let t = parts.take(j + 1);
            assert(t.drop_last() == parts.take(j as int));
            assert(t.last() == parts[j as int]);
            if j == 0 {
                assert(t.len() == 1 && t[0] == parts[0]);
            }
            assert(sk[j as int] == crate::order::words(sorted@[j as int]@));
            assert(sk[j as int].len() == 1);
        }
        if j > 0 {
            push_text(&mut out, ", ");
        }
        let w = &sorted[j];
        push_text(&mut out, w[0].as_str());
        proof {
            assert(out@ =~= "["@ + joined(parts.take(j + 1)));
        }
        j = j + 1;
    }
    push_text(&mut out, "]");
    proof {
        assert(parts.take(sorted@.len() as int) == parts);
    }
    out
}

/// The words of a one-element list.
pub open spec fn words_one(v: Seq<String>) -> Seq<Seq<char>> {
    crate::order::words(v)
}

fn plain_repr_exec(v: &JsonValue) -> (r: String)
    ensures
        r@ == plain_repr(*v),
{
    match v {
        JsonValue::Str(s) => string_repr_exec(s.as_str()),
        _ => to_json_text(v),
    }
}

fn diagnostic_with_exec(diags: &[JsonValue], field: &str, v: &JsonValue) -> (r: bool)
    ensures
        r == diagnostic_with(diags@, field@, *v),
{
    let mut i: usize = 0;
    while i < diags.len()
        invariant
            0 <= i <= diags@.len(),
            forall|k: int| 0 <= k < i ==> !(match get(#[trigger] diags@[k], field@) {
                Some(g) => json_equal(g, *v),
                None => false,
            }),
        decreases diags@.len() - i,
    {
        match diags[i].get(field) {
            Some(g) => {
                if json_eq(g, v) {
                    return true;
                }
            },
            None => {},
        }
        i = i + 1;
    }
    false
}

fn absent_findings_exec(list: &[JsonValue], diags: &[JsonValue], field: &str, prefix: &str, out: &mut Vec<String>)
    ensures
        texts(final(out)@) == texts(old(out)@) + absent_findings(list@, diags@, field@, prefix@),
{
    let ghost start = texts(out@);
    let mut i: usize = 0;
    while i < list.len()
        invariant
            0 <= i <= list@.len(),
            texts(out@) == start + absent_findings(list@.take(i as int), diags@, field@, prefix@),
        decreases list@.len() - i,
    {
        proof {
            let t = list@.take(i + 1);
            assert(t.drop_last() == list@.take(i as int));
            assert(t.last() == list@[i as int]);
        }
        if !diagnostic_with_exec(diags, field, &list[i]) {
            let mut finding = prefix.to_owned();
            let shown = plain_repr_exec(&list[i]);
            push_text(&mut finding, shown.as_str());
            push_text(&mut finding, "; got ");
            let got = optional_list_exec(diags, field);
            push_text(&mut finding, got.as_str());
            let ghost before = out@;
            out.push(finding);
            proof {
                assert(texts(out@) =~= texts(before).push(finding@));
            }
        }
        i = i + 1;
    }
    proof {
        assert(list@.take(list@.len() as int) == list@);
    }
}

fn push_finding(out: &mut Vec<String>, finding: String)
    ensures
        texts(final(out)@) == texts(old(out)@).push(finding@),
{
    let ghost before = out@;
    out.push(finding);
    proof {
        assert(texts(out@) =~= texts(before).push(finding@));
    }
}

fn diagnostics_findings_exec(expected: &JsonValue, produced: &JsonValue, out: &mut Vec<String>)
    ensures
        texts(final(out)@) == texts(old(out)@) + diagnostics_findings(*expected, *produced),
{
    let ghost start = texts(out@);
    let wanted = match expected.get("diagnostics") {
        Some(w) => match w {
            JsonValue::Object(_) => w,
            _ => {
                proof {
                    assert(start + seq![] =~= start);
                }
                return;
            },
        },
        None => {
            proof {
                assert(start + seq![] =~= start);
            }
            return;
        },
    };
    let diags = produced.items("diagnostics");
    let n = diags.len();
    match wanted.get("min") {
        Some(JsonValue::Number(JsonNumber::PosInt(m))) => {
            if (n as u64) < *m {
                let mut f = "expected at least ".to_owned();
                let ms = decimal_string(*m);
                push_text(&mut f, ms.as_str());
                push_text(&mut f, " diagnostic(s), got ");
                let ns = count_string(n);
                push_text(&mut f, ns.as_str());
                push_finding(out, f);
            }
        },
        _ => {},
    }
    let ghost after_min = texts(out@);
    proof {
        assert(after_min =~= start + min_findings(*wanted, diags@.len()));
    }
    match wanted.get("max") {
        Some(JsonValue::Number(JsonNumber::PosInt(m))) => {
            if (n as u64) > *m {
                let mut f = "expected at most ".to_owned();
                let ms = decimal_string(*m);
                push_text(&mut f, ms.as_str());
                push_text(&mut f, " diagnostic(s), got ");
                let ns = count_string(n);
                push_text(&mut f, ns.as_str());
                push_text(&mut f, ": ");
                let codes = codes_debug_exec(diags);
                push_text(&mut f, codes.as_str());
                push_finding(out, f);
            }
        },
        _ => {},
    }
    proof {
        assert(texts(out@) =~= start + min_findings(*wanted, diags@.len()) + max_findings(*wanted, diags@));
    }
    absent_findings_exec(wanted.items("codes"), diags, "code", "no diagnostic with code ", out);
    absent_findings_exec(wanted.items("paths"), diags, "path", "no diagnostic naming ", out);
    proof {
        assert(texts(out@) =~= start + diagnostics_findings(*expected, *produced));
    }
}

fn derived_entry_exec(expected: &JsonValue, produced: &JsonValue, key: &str, payload_key: &str, out: &mut Vec<DerivedAnswer>)
    ensures
        derived_view(final(out)@) == derived_view(old(out)@) + derived_entry(*expected, *produced, key@, payload_key@),
{
    let ghost before = out@;
    match expected.get(key) {
        Some(w) => {
            let matches = match produced.get(payload_key) {
                Some(g) => Some(json_eq(g, w)),
                None => None,
            };
            out.push(DerivedAnswer { query: key.to_owned(), matches });
            proof {
                assert(derived_view(out@) =~= derived_view(before) + derived_entry(*expected, *produced, key@, payload_key@));
            }
        },
        None => {
            proof {
                assert(derived_view(out@) =~= derived_view(before) + derived_entry(*expected, *produced, key@, payload_key@));
            }
        },
    }
}

fn derived_exec(expected: &JsonValue, produced: &JsonValue) -> (r: Vec<DerivedAnswer>)
    ensures
        derived_view(r@) == derived_answers(*expected, *produced),
{
    let mut out: Vec<DerivedAnswer> = Vec::new();
    proof {
        assert(derived_view(out@) =~= seq![]);
    }
    derived_entry_exec(expected, produced, "paths", "paths", &mut out);
    derived_entry_exec(expected, produced, "impact", "impact", &mut out);
    derived_entry_exec(expected, produced, "test_selection", "test_selection", &mut out);
    derived_entry_exec(expected, produced, "derived_links", "links", &mut out);
    proof {
        assert(derived_view(out@) =~= derived_answers(*expected, *produced));
    }
    out
}

/// `hay.contains(needle)`.
pub fn contains_text(hay: &str, needle: &str) -> (r: bool)
    ensures
        r == text_contains(hay@, needle@),
{
    let h = chars_of(hay);
    let n = chars_of(needle);
    if n.len() > h.len() {
        return false;
    }
    let mut i: usize = 0;
    while i <= h.len() - n.len()
        invariant
            h@ == hay@,
            n@ == needle@,
            n@.len() <= h@.len(),
            0 <= i <= h@.len() - n@.len() + 1,
            forall|k: int| 0 <= k < i ==> #[trigger] hay@.subrange(k, k + needle@.len()) != needle@,
        decreases h@.len() - i,
    {
        let mut j: usize = 0;
        let mut same = true;
        while j < n.len() && same
            invariant
                h@ == hay@,
                n@ == needle@,
                i + n@.len() <= h@.len(),
                0 <= j <= n@.len(),
                same ==> forall|t: int| 0 <= t < j ==> h@[i + t] == n@[t],
                !same ==> exists|t: int| 0 <= t < n@.len() && h@[i + t] != n@[t],
            decreases n@.len() - j,
        {
            assert(i + j < h@.len());
            assert(h@.len() == h.len());
            if h[i + j] != n[j] {
                same = false;
            }
            j = j + 1;
        }
        if same {
            proof {
                assert(hay@.subrange(i as int, i + needle@.len()) =~= needle@);
            }
            return true;
        }
        proof {
            let t = choose|t: int| 0 <= t < n@.len() && h@[i + t] != n@[t];
            assert(hay@.subrange(i as int, i + needle@.len())[t] != needle@[t]);
        }
        i = i + 1;
    }
    false
}

fn payload_findings_exec(list: &[JsonValue], raw: &str, out: &mut Vec<String>)
    ensures
        texts(final(out)@) == texts(old(out)@) + payload_findings(list@, raw@),
{
    let ghost start = texts(out@);
    let mut i: usize = 0;
    while i < list.len()
        invariant
            0 <= i <= list@.len(),
            texts(out@) == start + payload_findings(list@.take(i as int), raw@),
        decreases list@.len() - i,
    {
        proof {
            let t = list@.take(i + 1);
            assert(t.drop_last() == list@.take(i as int));
            assert(t.last() == list@[i as int]);
        }
        match &list[i] {
            JsonValue::Str(s) => {
                if contains_text(raw, s.as_str()) {
                    let mut f = "payload contains ".to_owned();
                    let shown = debug_str(s.as_str());
                    push_text(&mut f, shown.as_str());
                    push_text(&mut f, " - a value that cannot be compared between two machines");
                    let ghost before = texts(out@);
                    push_finding(out, f);
                    proof {
                        assert(texts(out@) =~= start + payload_findings(list@.take(i + 1), raw@));
                    }
                }
            },
            _ => {},
        }
        i = i + 1;
    }
    proof {
        assert(list@.take(list@.len() as int) == list@);
    }
}


/// A failed state passes through every section unchanged.
proof fn lemma_failure_stays(st: ScoreState, expected: JsonValue, produced: JsonValue, language: Seq<char>)
    requires
        st.error is Some,
    ensures
        nodes_section(st, expected, produced, language) == st,
        repeats_section(st, expected, produced, language) == st,
        forbidden_names_section(st, expected, produced, language) == st,
        forbidden_kinds_section(st, expected, produced, language) == st,
        edges_section(st, expected, produced, language).0 == st,
        visibility_section(st, expected, produced, language) == st,
        signatures_section(st, expected, produced, language) == st,
        mentions_section(st, expected, produced, language) == st,
        case_sections(st, expected, produced, language).0 == st,
{
    reveal(nodes_section);
    reveal(repeats_section);
    reveal(forbidden_names_section);
    reveal(forbidden_kinds_section);
    reveal(edges_section);
    reveal(visibility_section);
    reveal(signatures_section);
    reveal(mentions_section);
    let nodes = items(produced, "nodes"@);
    let fname = forbidden_name_step(language, nodes);
    assert forall|s: ScoreState, x: JsonValue| s.error is Some implies #[trigger] fname(s, x) == s by {}
    lemma_fold_failed(items(expected, "forbidden_node_names"@), st, fname);
    let fkind = forbidden_kind_step(language, nodes);
    assert forall|s: ScoreState, x: JsonValue| s.error is Some implies #[trigger] fkind(s, x) == s by {
        match x {
            JsonValue::Str(kind) => {
                let inner = forbidden_kind_node_step(language, kind@);
                assert forall|s2: ScoreState, n: JsonValue| s2.error is Some implies #[trigger] inner(s2, n) == s2 by {}
                lemma_fold_failed(nodes, s, inner);
            },
            _ => {},
        }
    }
    lemma_fold_failed(items(expected, "forbidden_node_kinds"@), st, fkind);
    let fvis = visibility_step(language, nodes);
    assert forall|s: ScoreState, x: (String, JsonValue)| s.error is Some implies #[trigger] fvis(s, x) == s by {}
    lemma_fold_failed(members_of(expected, "visibility"@), st, fvis);
    let fsig = signature_step(language, nodes);
    assert forall|s: ScoreState, x: (String, JsonValue)| s.error is Some implies #[trigger] fsig(s, x) == s by {}
    lemma_fold_failed(members_of(expected, "signatures"@), st, fsig);
}

/// Declared edges that survive the edge section have every field they need.
proof fn lemma_edges_declared(st: ScoreState, expected: JsonValue, produced: JsonValue, language: Seq<char>)
    requires
        st.error is None,
        edges_section(st, expected, produced, language).0.error is None,
    ensures
        first_fault(items(expected, "edges"@), edge_fields(false), "edge"@) is None,
{
    reveal(edges_section);
}

/// Whether `s` is the score of a case whose sections ended in `post` with `tiers`.
pub open spec fn case_score_of(
    s: CaseScore,
    post: ScoreState,
    tiers: Seq<(Seq<Seq<char>>, JsonData, JsonData)>,
    expected: JsonValue,
    produced: JsonValue,
    raw: Seq<char>,
) -> bool {
    &&& texts(s.findings@) == post.findings + diagnostics_findings(expected, produced)
        + payload_findings(items(expected, "forbidden_payload_substrings"@), raw)
    &&& s.tier_disagreements@.map_values(|t: TierDisagreement| tier_view(t)) == tiers
    &&& census_view(s.kind_census@) == kind_census(items(produced, "nodes"@))
    &&& census_of(s.census, expected, produced)
    &&& derived_view(s.derived@) == derived_answers(expected, produced)
    &&& s.population.nodes_produced == items(produced, "nodes"@).len()
    &&& s.population.edges_produced == items(produced, "edges"@).len()
    &&& s.population.nodes_expected == items(expected, "nodes"@).len()
    &&& s.population.edges_expected == sorted_set(records_of(items(expected, "edges"@), edge_fields(false))).len()
}

/// Score one producer observation against one expected fixture.
///
/// The sections run in order: declared nodes, repeated identities, forbidden
/// names, forbidden kinds, declared/unexpected/forbidden edges, visibility,
/// signatures, mentions. Each outcome is counted in `tally`; the first
/// malformed record stops scoring with its error, and what was counted before
/// it stays counted.
#[verifier::rlimit(100)]
pub fn score_case(
    metadata: &CaseMetadata,
    expected: &JsonValue,
    produced: &JsonValue,
    tally: &mut Tally,
    raw: &str,
) -> (r: Result<CaseScore, CorpusError>)
    requires
        old(tally).wf(),
        has_room(old(tally)@, 5 * case_bound(*expected, *produced) as int),
    ensures
        final(tally).wf(),
        ({
            let (post, tiers) = case_outcome(*expected, *produced, metadata.language@, old(tally)@);
            &&& final(tally)@ == post.tally
            &&& match post.error {
                Some(e) => r matches Err(CorpusError::Invariant(m)) && m@ == e,
                None => r matches Ok(s) && case_score_of(s, post, tiers, *expected, *produced, raw@),
            }
        }),
{
    let language = metadata.language.as_str();
    let ghost lang = language@;
    let ghost room0: int = 5 * case_bound(*expected, *produced) as int;
    let ghost st0 = ScoreState { tally: tally@, findings: seq![], error: None };
    match expected {
        JsonValue::Object(_) => {},
        _ => {
            return Err(CorpusError::Invariant("observation root is not an object".to_owned()));
        },
    }
    match produced {
        JsonValue::Object(_) => {},
        _ => {
            return Err(CorpusError::Invariant("observation root is not an object".to_owned()));
        },
    }
    let nodes = produced.items("nodes");
    let census = census_exec(nodes)?;
    let mut findings: Vec<String> = Vec::new();
    proof {
        assert(texts(findings@) =~= seq![]);
    }
    let ghost s1 = nodes_section(st0, *expected, *produced, lang);
    match nodes_exec(expected, produced, language, tally, &mut findings, Ghost(st0), Ghost(room0)) {
        Ok(()) => {},
        Err(e) => {
            proof {
                lemma_failure_stays(s1, *expected, *produced, lang);
            }
            return Err(e);
        },
    }
    let ghost room1 = room0 - 5 * nodes_bound(*expected, *produced);
    repeats_exec(expected, produced, language, tally, &mut findings, Ghost(s1), Ghost(room1));
    let ghost s2 = repeats_section(s1, *expected, *produced, lang);
    let ghost room2 = room1 - 5 * items(*produced, "nodes"@).len();
    forbidden_names_exec(expected, produced, language, tally, &mut findings, Ghost(s2), Ghost(room2));
    let ghost s3 = forbidden_names_section(s2, *expected, *produced, lang);
    let ghost room3 = room2 - 5 * items(*expected, "forbidden_node_names"@).len();
    forbidden_kinds_exec(expected, produced, language, tally, &mut findings, Ghost(s3), Ghost(room3));
    let ghost s4 = forbidden_kinds_section(s3, *expected, *produced, lang);
    let ghost room4 = room3 - 5 * (items(*expected, "forbidden_node_kinds"@).len() * items(*produced, "nodes"@).len());
    let tiers = match edges_exec(expected, produced, language, tally, &mut findings, Ghost(s4), Ghost(room4)) {
        Ok(t) => t,
        Err(e) => {
            proof {
                let s5 = edges_section(s4, *expected, *produced, lang).0;
                lemma_failure_stays(s5, *expected, *produced, lang);
                lemma_failure_stays(visibility_section(s5, *expected, *produced, lang), *expected, *produced, lang);
                lemma_failure_stays(signatures_section(visibility_section(s5, *expected, *produced, lang), *expected, *produced, lang), *expected, *produced, lang);
            }
            return Err(e);
        },
    };
    let ghost s5 = edges_section(s4, *expected, *produced, lang).0;
    let ghost room5 = room4 - 5 * edges_bound(*expected, *produced);
    declarations_exec(expected, produced, language, false, tally, &mut findings, Ghost(s5), Ghost(room5));
    let ghost s6 = visibility_section(s5, *expected, *produced, lang);
    let ghost room6 = room5 - 5 * members_of(*expected, "visibility"@).len();
    declarations_exec(expected, produced, language, true, tally, &mut findings, Ghost(s6), Ghost(room6));
    let ghost s7 = signatures_section(s6, *expected, *produced, lang);
    let ghost room7 = room6 - 5 * members_of(*expected, "signatures"@).len();
    mentions_exec(expected, produced, language, tally, &mut findings, Ghost(s7), Ghost(room7))?;
    let ghost post = mentions_section(s7, *expected, *produced, lang);
    proof {
        assert(case_sections(st0, *expected, *produced, lang).0 == post);
    }
    diagnostics_findings_exec(expected, produced, &mut findings);
    payload_findings_exec(expected.items("forbidden_payload_substrings"), raw, &mut findings);
    let decl_fields: [&str; 3] = ["source", "type", "target"];
    proof {
        assert(strs(decl_fields@) =~= edge_fields(false));
    }
    let edges_expected = match records_exec(expected.items("edges"), decl_fields.as_slice(), "edge") {
        Ok(list) => to_sorted_set(&list).len(),
        Err(e) => {
            proof {
                lemma_edges_declared(s4, *expected, *produced, lang);
            }
            return Err(e);
        },
    };
    Ok(CaseScore {
        findings,
        tier_disagreements: tiers,
        kind_census: census,
        census: census_of_exec(expected, produced),
        derived: derived_exec(expected, produced),
        population: Population {
            nodes_produced: nodes.len(),
            edges_produced: produced.items("edges").len(),
            nodes_expected: expected.items("nodes").len(),
            edges_expected,
        },
    })
}

} // verus!
