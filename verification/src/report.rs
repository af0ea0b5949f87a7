//! Per-declaration checks of a case: visibility, signatures and mentions.
use vstd::prelude::*;
use crate::case::{
    ScoreState, emit, fail, texts, emit_exec, slice, value_repr, value_repr_exec, first_fault,
    records_of, record_of, strs, records_exec, flag, flag_exec, KeyOutcome, key_step, emit_keys,
    lemma_room_mono, lemma_records_arity, lemma_sorted_set_len, lemma_filter_arity, lemma_key_lengths,
};
use crate::error::CorpusError;
use crate::json::{JsonValue, get, get_str, get_string, json_equal, json_eq, items};
use crate::order::{keys, sorted_set, to_sorted_set, absent_in, present_in, minus, meet, lemma_sorted_set_arity};
use crate::score::{Outcome, Tally, has_room, pairs};
use crate::text::push_text;

verus! {

/// `node.data[key]`, when the node has data holding that member.
pub open spec fn data_member(node: JsonValue, key: Seq<char>) -> Option<JsonValue> {
    match get(node, "data"@) {
        Some(d) => get(d, key),
        None => None,
    }
}

/// The last node named `name`: the one a map keyed by name keeps.
pub open spec fn last_named(nodes: Seq<JsonValue>, name: Seq<char>) -> Option<JsonValue>
    decreases nodes.len(),
{
    if nodes.len() == 0 {
        None
    } else if get_str(nodes.last(), "name"@) == Some(name) {
        Some(nodes.last())
    } else {
        last_named(nodes.drop_last(), name)
    }
}

/// Whether a reported answer is present and equal to the declared one.
pub open spec fn same_answer(got: Option<JsonValue>, wanted: JsonValue) -> bool {
    match got {
        Some(g) => json_equal(g, wanted),
        None => false,
    }
}

/// The slices of an outcome counted by language and axis alone.
pub open spec fn axis_slices(language: Seq<char>, axis: Seq<char>) -> Seq<(Seq<char>, Seq<char>)> {
    seq![("language"@, language), ("axis_kind"@, axis)]
}

/// The members of `value[key]` when it is an object, in document order.
pub open spec fn members_of(value: JsonValue, key: Seq<char>) -> Seq<(String, JsonValue)> {
    match get(value, key) {
        Some(JsonValue::Object(ms)) => ms@,
        _ => seq![],
    }
}

/// One declared visibility: unmeasurable without a node of that name, else
/// a true positive when the node's `data.visibility` agrees and a false positive when not.
pub open spec fn visibility_step(language: Seq<char>, nodes: Seq<JsonValue>) -> spec_fn(ScoreState, (String, JsonValue)) -> ScoreState {
    |st: ScoreState, m: (String, JsonValue)| match last_named(nodes, m.0@) {
        None => emit(
            st,
            Outcome::Fn,
            axis_slices(language, "visibility"@),
            Some("visibility unmeasurable: no node named "@ + m.0@),
        ),
        Some(node) => {
            let got = data_member(node, "visibility"@);
            if same_answer(got, m.1) {
                emit(st, Outcome::Tp, axis_slices(language, "visibility"@), None)
            } else {
                emit(
                    st,
                    Outcome::Fp,
                    axis_slices(language, "visibility"@),
                    Some(m.0@ + " classified "@ + value_repr(got) + ", expected "@ + value_repr(Some(m.1))),
                )
            }
        },
    }
}

/// Every declared visibility, in document order.
#[verifier::opaque]
pub open spec fn visibility_section(st: ScoreState, expected: JsonValue, produced: JsonValue, language: Seq<char>) -> ScoreState {
    members_of(expected, "visibility"@).fold_left(st, visibility_step(language, items(produced, "nodes"@)))
}

/// One declared signature: a true positive when the named node's `data.signature` agrees.
pub open spec fn signature_step(language: Seq<char>, nodes: Seq<JsonValue>) -> spec_fn(ScoreState, (String, JsonValue)) -> ScoreState {
    |st: ScoreState, m: (String, JsonValue)| {
        let got = match last_named(nodes, m.0@) {
            Some(node) => data_member(node, "signature"@),
            None => None,
        };
        if same_answer(got, m.1) {
            emit(st, Outcome::Tp, axis_slices(language, "signature"@), None)
        } else {
            emit(
                st,
                Outcome::Fp,
                axis_slices(language, "signature"@),
                Some(m.0@ + " signature "@ + value_repr(got) + ", expected "@ + value_repr(Some(m.1))),
            )
        }
    }
}

/// Every declared signature, in document order.
#[verifier::opaque]
pub open spec fn signatures_section(st: ScoreState, expected: JsonValue, produced: JsonValue, language: Seq<char>) -> ScoreState {
    members_of(expected, "signatures"@).fold_left(st, signature_step(language, items(produced, "nodes"@)))
}

/// The fields that identify a mention.
pub open spec fn mention_fields() -> Seq<Seq<char>> {
    seq!["identifier"@, "kind"@, "source"@]
}

/// Declared mentions against produced ones: a missing one is a false
/// negative, a matched one a true positive, and an extra one a false positive
/// only when the case says its mention list is exhaustive.
#[verifier::opaque]
pub open spec fn mentions_section(st: ScoreState, expected: JsonValue, produced: JsonValue, language: Seq<char>) -> ScoreState {
    if st.error is Some || get(expected, "mentions"@) is None {
        st
    } else {
        match first_fault(items(expected, "mentions"@), mention_fields(), "expected mention"@) {
            Some(e) => fail(st, e),
            None => match first_fault(items(produced, "mentions"@), mention_fields(), "mention"@) {
                Some(e) => fail(st, e),
                None => {
                    let want = sorted_set(records_of(items(expected, "mentions"@), mention_fields()));
                    let got = sorted_set(records_of(items(produced, "mentions"@), mention_fields()));
                    let s1 = want.filter(absent_in(got)).fold_left(st, key_step(language, KeyOutcome::MissingMention));
                    let s2 = want.filter(present_in(got)).fold_left(s1, key_step(language, KeyOutcome::MatchedMention));
                    if flag(expected, "exhaustive_mentions"@, false) {
                        got.filter(absent_in(want)).fold_left(s2, key_step(language, KeyOutcome::UnexpectedMention))
                    } else {
                        s2
                    }
                },
            },
        }
    }
}

/// The events the mention comparison can count.
pub open spec fn mentions_bound(expected: JsonValue, produced: JsonValue) -> nat {
    items(expected, "mentions"@).len() + items(produced, "mentions"@).len()
}

/// The last node named `name`, as an index.
pub(crate) fn last_named_exec(nodes: &[JsonValue], name: &String) -> (r: Option<usize>)
    ensures
        match last_named(nodes@, name@) {
            Some(n) => r matches Some(i) && i < nodes@.len() && nodes@[i as int] == n,
            None => r is None,
        },
{
    let mut i: usize = nodes.len();
    proof {
        assert(nodes@.take(i as int) == nodes@);
    }
    while i > 0
        invariant
            0 <= i <= nodes@.len(),
            last_named(nodes@, name@) == last_named(nodes@.take(i as int), name@),
        decreases i,
    {
        let ghost t = nodes@.take(i as int);
        proof {
            assert(t.drop_last() == nodes@.take(i - 1));
            assert(t.last() == nodes@[i - 1]);
        }
        match get_string(&nodes[i - 1], "name") {
            Some(n) => {
                if n == *name {
                    return Some(i - 1);
                }
            },
            None => {},
        }
        i = i - 1;
    }
    None
}

fn data_member_exec<'a>(node: &'a JsonValue, key: &str) -> (r: Option<&'a JsonValue>)
    ensures
        match data_member(*node, key@) {
            Some(v) => r == Some(&v),
            None => r is None,
        },
{
    match node.get("data") {
        Some(d) => d.get(key),
        None => None,
    }
}

fn same_answer_exec(got: Option<&JsonValue>, wanted: &JsonValue) -> (r: bool)
    ensures
        r == same_answer(match got {
            Some(g) => Some(*g),
            None => None,
        }, *wanted),
{
    match got {
        Some(g) => json_eq(g, wanted),
        None => false,
    }
}

fn members_exec<'a>(value: &'a JsonValue, key: &str) -> (r: &'a [(String, JsonValue)])
    ensures
        r@ == members_of(*value, key@),
{
    match value.get(key) {
        Some(JsonValue::Object(ms)) => ms.as_slice(),
        _ => &[],
    }
}

fn axis_slices_exec(language: &str, axis: &str) -> (r: Vec<(String, String)>)
    ensures
        pairs(r@) == axis_slices(language@, axis@),
        r@.len() == 2,
{
    let mut out: Vec<(String, String)> = Vec::new();
    out.push(slice("language", language));
    out.push(slice("axis_kind", axis));
    proof {
        assert(pairs(out@) =~= axis_slices(language@, axis@));
    }
    out
}

/// Scores every declared visibility (`signature` false) or signature (`true`).
pub(crate) fn declarations_exec(
    expected: &JsonValue,
    produced: &JsonValue,
    language: &str,
    signature: bool,
    tally: &mut Tally,
    findings: &mut Vec<String>,
    Ghost(st): Ghost<ScoreState>,
    Ghost(room): Ghost<int>,
)
    requires
        old(tally).wf(),
        st.error is None,
        st.tally == old(tally)@,
        st.findings == texts(old(findings)@),
        room >= 5 * members_of(*expected, if signature { "signatures"@ } else { "visibility"@ }).len(),
        has_room(old(tally)@, room),
    ensures
        final(tally).wf(),
        has_room(final(tally)@, room - 5 * members_of(*expected, if signature { "signatures"@ } else { "visibility"@ }).len()),
        ({
            let post = if signature {
                signatures_section(st, *expected, *produced, language@)
            } else {
                visibility_section(st, *expected, *produced, language@)
            };
            &&& post.error is None
            &&& final(tally)@ == post.tally
            &&& texts(final(findings)@) == post.findings
        }),
{
    proof {
        reveal(visibility_section); reveal(signatures_section);
    }
    let members = if signature { members_exec(expected, "signatures") } else { members_exec(expected, "visibility") };
    let nodes = produced.items("nodes");
    let ghost f = if signature { signature_step(language@, nodes@) } else { visibility_step(language@, nodes@) };
    proof {
        if signature {
            assert(members@ == members_of(*expected, "signatures"@));
        } else {
            assert(members@ == members_of(*expected, "visibility"@));
        }
    }
    let slices = if signature { axis_slices_exec(language, "signature") } else { axis_slices_exec(language, "visibility") };
    let mut i: usize = 0;
    while i < members.len()
        invariant
            0 <= i <= members@.len(),
            members@ == members_of(*expected, if signature { "signatures"@ } else { "visibility"@ }),
            nodes@ == items(*produced, "nodes"@),
            f == if signature { signature_step(language@, nodes@) } else { visibility_step(language@, nodes@) },
            pairs(slices@) == axis_slices(language@, if signature { "signature"@ } else { "visibility"@ }),
            slices@.len() == 2,
            tally.wf(),
            has_room(tally@, room - 5 * i),
            room >= 5 * members@.len(),
            ({
                let cur = members@.take(i as int).fold_left(st, f);
                &&& cur.error is None
                &&& tally@ == cur.tally
                &&& texts(findings@) == cur.findings
            }),
        decreases members@.len() - i,
    {
        let ghost cur = members@.take(i as int).fold_left(st, f);
        proof {
            let t = members@.take(i + 1);
            assert(t.drop_last() == members@.take(i as int));
            assert(t.last() == members@[i as int]);
        }
        let (name, wanted) = &members[i];
        let at = last_named_exec(nodes, name);
        let got = match at {
            Some(k) => if signature { data_member_exec(&nodes[k], "signature") } else { data_member_exec(&nodes[k], "visibility") },
            None => None,
        };
        if !signature && at.is_none() {
            let mut finding = "visibility unmeasurable: no node named ".to_owned();
            push_text(&mut finding, name.as_str());
            emit_exec(tally, findings, Outcome::Fn, &slices, Some(finding), Ghost(cur), Ghost(room - 5 * i));
        } else if same_answer_exec(got, wanted) {
            emit_exec(tally, findings, Outcome::Tp, &slices, None, Ghost(cur), Ghost(room - 5 * i));
        } else {
            let mut finding = name.clone();
            push_text(&mut finding, if signature { " signature " } else { " classified " });
            let g = value_repr_exec(got);
            push_text(&mut finding, g.as_str());
            push_text(&mut finding, ", expected ");
            let w = value_repr_exec(Some(wanted));
            push_text(&mut finding, w.as_str());
            emit_exec(tally, findings, Outcome::Fp, &slices, Some(finding), Ghost(cur), Ghost(room - 5 * i));
        }
        i = i + 1;
    }
    proof {
        assert(members@.take(members@.len() as int) == members@);
    }
}

/// Scores the declared mentions.
pub(crate) fn mentions_exec(
    expected: &JsonValue,
    produced: &JsonValue,
    language: &str,
    tally: &mut Tally,
    findings: &mut Vec<String>,
    Ghost(st): Ghost<ScoreState>,
    Ghost(room): Ghost<int>,
) -> (r: Result<(), CorpusError>)
    requires
        old(tally).wf(),
        st.error is None,
        st.tally == old(tally)@,
        st.findings == texts(old(findings)@),
        room >= 5 * mentions_bound(*expected, *produced),
        has_room(old(tally)@, room),
    ensures
        final(tally).wf(),
        has_room(final(tally)@, room - 5 * mentions_bound(*expected, *produced)),
        ({
            let post = mentions_section(st, *expected, *produced, language@);
            &&& final(tally)@ == post.tally
            &&& texts(final(findings)@) == post.findings
            &&& match post.error {
                Some(e) => r matches Err(CorpusError::Invariant(m)) && m@ == e,
                None => r is Ok,
            }
        }),
{
    proof {
        reveal(mentions_section);
    }
    let ghost bound = mentions_bound(*expected, *produced);
    proof {
        lemma_room_mono(tally@, room, room - 5 * bound);
    }
    if expected.get("mentions").is_none() {
        return Ok(());
    }
    let fields: [&str; 3] = ["identifier", "kind", "source"];
    proof {
        assert(strs(fields@) =~= mention_fields());
    }
    let want_list = records_exec(expected.items("mentions"), fields.as_slice(), "expected mention")?;
    let got_list = records_exec(produced.items("mentions"), fields.as_slice(), "mention")?;
    let want = to_sorted_set(&want_list);
    let got = to_sorted_set(&got_list);
    let missing = minus(&want, &got);
    let both = meet(&want, &got);
    let extra = minus(&got, &want);
    let ghost wk = keys(want@);
    let ghost gk = keys(got@);
    proof {
        lemma_records_arity(items(*expected, "mentions"@), mention_fields());
        lemma_records_arity(items(*produced, "mentions"@), mention_fields());
        lemma_sorted_set_arity(keys(want_list@), 3);
        lemma_sorted_set_arity(keys(got_list@), 3);
        lemma_sorted_set_len(keys(want_list@));
        lemma_sorted_set_len(keys(got_list@));
        lemma_filter_arity(wk, absent_in(gk), 3);
        lemma_filter_arity(gk, absent_in(wk), 3);
        lemma_filter_arity(wk, present_in(gk), 3);
        lemma_key_lengths(missing@, 3);
        lemma_key_lengths(extra@, 3);
        lemma_key_lengths(both@, 3);
        wk.lemma_filter_len(absent_in(gk));
        assert(wk.filter(absent_in(gk)).len() + wk.filter(present_in(gk)).len() <= wk.len()) by {
            lemma_split_len(wk, gk);
        }
    }
    emit_keys(tally, findings, &missing, language, KeyOutcome::MissingMention, Ghost(st), Ghost(room));
    let ghost s1 = keys(missing@).fold_left(st, key_step(language@, KeyOutcome::MissingMention));
    let ghost room1 = room - 5 * missing@.len();
    emit_keys(tally, findings, &both, language, KeyOutcome::MatchedMention, Ghost(s1), Ghost(room1));
    let ghost s2 = keys(both@).fold_left(s1, key_step(language@, KeyOutcome::MatchedMention));
    let ghost room2 = room1 - 5 * both@.len();
    if flag_exec(expected, "exhaustive_mentions", false) {
        emit_keys(tally, findings, &extra, language, KeyOutcome::UnexpectedMention, Ghost(s2), Ghost(room2));
        proof {
            lemma_room_mono(tally@, room2 - 5 * extra@.len(), room - 5 * bound);
        }
    } else {
        proof {
            lemma_room_mono(tally@, room2, room - 5 * bound);
        }
    }
    Ok(())
}

/// The members of a sequence absent from another and those present in it are together no more than it.
proof fn lemma_split_len(s: Seq<Seq<Seq<char>>>, other: Seq<Seq<Seq<char>>>)
    ensures
        s.filter(absent_in(other)).len() + s.filter(present_in(other)).len() == s.len(),
    decreases s.len(),
{
    reveal_with_fuel(Seq::filter, 1);
    if s.len() > 0 {
        lemma_split_len(s.drop_last(), other);
    }
}

} // verus!
