//! Scoring one producer observation against one case's declared truth.
use vstd::prelude::*;
use crate::error::CorpusError;
use crate::json::{JsonValue, JsonData, get, get_str, get_string, json_text, to_json_text, json_equal, json_eq, json_debug, to_json_debug, data, copy_json};
use crate::order::{keys, words, sorted_set, to_sorted_set, words_equal, absent_in, present_in, minus, meet, lemma_sorted_set_arity};
use crate::json::items;
use crate::score::{Counts, Outcome, Tally, tally_add, has_room, pairs, bump_named, bump_slice, total_key, lemma_room_bump};
use crate::text::{push_text, push_char, debug_str, str_debug, decimal, decimal_string, count_string, chars_of};

verus! {

/// The views of a list of strings.
pub open spec fn texts(v: Seq<String>) -> Seq<Seq<char>> {
    v.map_values(|s: String| s@)
}

/// What scoring has produced so far: the tally, the findings, and the first error.
pub struct ScoreState {
    pub tally: Map<Seq<Seq<char>>, Counts>,
    pub findings: Seq<Seq<char>>,
    pub error: Option<Seq<char>>,
}

/// Counts one outcome in the named slices and, when given, records a finding.
pub open spec fn emit(
    st: ScoreState,
    outcome: Outcome,
    slices: Seq<(Seq<char>, Seq<char>)>,
    finding: Option<Seq<char>>,
) -> ScoreState {
    if st.error is Some {
        st
    } else {
        ScoreState {
            tally: tally_add(st.tally, outcome, slices),
            findings: match finding {
                Some(f) => st.findings.push(f),
                None => st.findings,
            },
            error: None,
        }
    }
}

/// Stops scoring with an error; the first error stands.
pub open spec fn fail(st: ScoreState, message: Seq<char>) -> ScoreState {
    if st.error is Some {
        st
    } else {
        ScoreState { error: Some(message), ..st }
    }
}

/// The message for a record that lacks a string member.
pub open spec fn missing_string(context: Seq<char>, key: Seq<char>) -> Seq<char> {
    context + " has no string "@ + str_debug(key)
}

/// `required_string`: the text of `value[key]`, or the error naming `context`.
pub fn required_string(value: &JsonValue, key: &str, context: &str) -> (r: Result<String, CorpusError>)
    ensures
        match get_str(*value, key@) {
            Some(s) => r matches Ok(t) && t@ == s,
            None => r matches Err(CorpusError::Invariant(m)) && m@ == missing_string(context@, key@),
        },
{
    match get_string(value, key) {
        Some(s) => Ok(s),
        None => {
            let mut message = context.to_owned();
            push_text(&mut message, " has no string ");
            let quoted = debug_str(key);
            push_text(&mut message, quoted.as_str());
            Err(CorpusError::Invariant(message))
        },
    }
}

/// Room enough for `n` more events never shrinks as `n` does.
pub proof fn lemma_room_mono(m: Map<Seq<Seq<char>>, Counts>, a: int, b: int)
    requires
        has_room(m, a),
        0 <= b <= a,
    ensures
        has_room(m, b),
{
}

pub(crate) proof fn lemma_room_named(
    m: Map<Seq<Seq<char>>, Counts>,
    slices: Seq<(Seq<char>, Seq<char>)>,
    o: Outcome,
    n: int,
)
    requires
        has_room(m, n),
        n >= slices.len(),
    ensures
        has_room(bump_named(m, slices, o), n - slices.len()),
    decreases slices.len(),
{
    if slices.len() > 0 {
        lemma_room_named(m, slices.drop_last(), o, n);
        let before = bump_named(m, slices.drop_last(), o);
        let last = slices.last();
        if last.1.len() != 0 {
            lemma_room_bump(before, seq![last.0, last.1], o, n - slices.drop_last().len());
        } else {
            lemma_room_mono(before, n - slices.drop_last().len(), n - slices.len());
        }
    }
}

/// One outcome in at most four named slices uses at most five units of room.
pub proof fn lemma_room_add(
    m: Map<Seq<Seq<char>>, Counts>,
    o: Outcome,
    slices: Seq<(Seq<char>, Seq<char>)>,
    n: int,
)
    requires
        has_room(m, n),
        n >= 5,
        slices.len() <= 4,
    ensures
        has_room(tally_add(m, o, slices), n - 5),
{
    lemma_room_bump(m, total_key(), o, n);
    lemma_room_named(bump_slice(m, total_key(), o), slices, o, n - 1);
    lemma_room_mono(tally_add(m, o, slices), n - 1 - slices.len(), n - 5);
}

/// Counts one outcome and records an optional finding.
pub(crate) fn emit_exec(
    tally: &mut Tally,
    findings: &mut Vec<String>,
    outcome: Outcome,
    slices: &Vec<(String, String)>,
    finding: Option<String>,
    Ghost(st): Ghost<ScoreState>,
    Ghost(room): Ghost<int>,
)
    requires
        old(tally).wf(),
        st.error is None,
        st.tally == old(tally)@,
        st.findings == texts(old(findings)@),
        slices@.len() <= 4,
        room >= 5,
        has_room(old(tally)@, room),
    ensures
        final(tally).wf(),
        has_room(final(tally)@, room - 5),
        ({
            let post = emit(st, outcome, pairs(slices@), match finding {
                Some(f) => Some(f@),
                None => None,
            });
            &&& final(tally)@ == post.tally
            &&& texts(final(findings)@) == post.findings
        }),
{
    proof {
        lemma_room_add(tally@, outcome, pairs(slices@), room);
        lemma_room_mono(tally@, room, (slices@.len() + 1) as int);
    }
    tally.record(outcome, slices);
    match finding {
        Some(f) => {
            let ghost before = findings@;
            findings.push(f);
            proof {
                assert(texts(findings@) =~= texts(before).push(f@));
            }
        },
        None => {},
    }
}

/// `(axis, value)` as an owned slice name.
pub(crate) fn slice(axis: &str, value: &str) -> (r: (String, String))
    ensures
        r.0@ == axis@,
        r.1@ == value@,
{
    (axis.to_owned(), value.to_owned())
}

// ---------------------------------------------------------------------------
// The census of node kinds.

/// The kind a node declares: `data.kind` as text, or `None` when it has none.
pub open spec fn kind_text(node: JsonValue) -> Seq<char> {
    match get(node, "data"@) {
        Some(d) => match get(d, "kind"@) {
            Some(JsonValue::Str(s)) => s@,
            Some(k) => json_text(k),
            None => "None"@,
        },
        None => "None"@,
    }
}

/// The views of a list of field names.
pub open spec fn strs(v: Seq<&str>) -> Seq<Seq<char>> {
    v.map_values(|f: &str| f@)
}

/// The first of `fields` that `value` lacks as a string, as an error message.
pub open spec fn field_fault(value: JsonValue, fields: Seq<Seq<char>>, context: Seq<char>) -> Option<Seq<char>>
    decreases fields.len(),
{
    if fields.len() == 0 {
        None
    } else {
        match field_fault(value, fields.drop_last(), context) {
            Some(e) => Some(e),
            None => if get_str(value, fields.last()) is None {
                Some(missing_string(context, fields.last()))
            } else {
                None
            },
        }
    }
}

/// The first fault among `values`, in order.
pub open spec fn first_fault(values: Seq<JsonValue>, fields: Seq<Seq<char>>, context: Seq<char>) -> Option<Seq<char>>
    decreases values.len(),
{
    if values.len() == 0 {
        None
    } else {
        match first_fault(values.drop_last(), fields, context) {
            Some(e) => Some(e),
            None => field_fault(values.last(), fields, context),
        }
    }
}

/// The string fields of a record, in the order named.
pub open spec fn record_of(value: JsonValue, fields: Seq<Seq<char>>) -> Seq<Seq<char>> {
    fields.map_values(|f: Seq<char>| get_str(value, f).unwrap())
}

/// The records of a list of values.
pub open spec fn records_of(values: Seq<JsonValue>, fields: Seq<Seq<char>>) -> Seq<Seq<Seq<char>>> {
    values.map_values(|v: JsonValue| record_of(v, fields))
}

/// The fields that name a node.
pub open spec fn node_fields() -> Seq<Seq<char>> {
    seq!["name"@, "object_type"@]
}

pub(crate) proof fn lemma_first_fault_extends(values: Seq<JsonValue>, fields: Seq<Seq<char>>, context: Seq<char>, i: int)
    requires
        0 < i <= values.len(),
        first_fault(values.take(i - 1), fields, context) is None,
        field_fault(values[i - 1], fields, context) is Some,
    ensures
        first_fault(values, fields, context) == field_fault(values[i - 1], fields, context),
    decreases values.len(),
{
    if i == values.len() {
        assert(values.drop_last() == values.take(i - 1));
    } else {
        let init = values.drop_last();
        assert(init.take(i - 1) == values.take(i - 1));
        assert(init[i - 1] == values[i - 1]);
        lemma_first_fault_extends(init, fields, context, i);
    }
}

/// The string fields of `value`, in order, or the error for the first it lacks.
pub(crate) fn record_exec(value: &JsonValue, fields: &[&str], context: &str) -> (r: Result<Vec<String>, CorpusError>)
    ensures
        match field_fault(*value, strs(fields@), context@) {
            Some(e) => r matches Err(CorpusError::Invariant(m)) && m@ == e,
            None => r matches Ok(v) && words(v@) == record_of(*value, strs(fields@)),
        },
{
    let ghost fs = strs(fields@);
    let mut out: Vec<String> = Vec::new();
    let mut i: usize = 0;
    while i < fields.len()
        invariant
            fs == strs(fields@),
            0 <= i <= fields@.len(),
            field_fault(*value, fs.take(i as int), context@) is None,
            words(out@) == record_of(*value, fs.take(i as int)),
        decreases fields@.len() - i,
    {
        proof {
            let t = fs.take(i + 1);
            assert(t.drop_last() == fs.take(i as int));
            assert(t.last() == fields@[i as int]@);
        }
        match required_string(value, fields[i], context) {
            Ok(s) => {
                let ghost before = out@;
                out.push(s);
                proof {
                    assert(words(out@) =~= words(before).push(s@));
                    assert(record_of(*value, fs.take(i + 1)) =~= record_of(*value, fs.take(i as int)).push(s@));
                }
            },
            Err(e) => {
                proof {
                    lemma_field_fault_extends(*value, fs, context@, (i + 1) as int);
                }
                return Err(e);
            },
        }
        i = i + 1;
    }
    proof {
        assert(fs.take(fields@.len() as int) == fs);
    }
    Ok(out)
}

pub(crate) proof fn lemma_field_fault_extends(value: JsonValue, fields: Seq<Seq<char>>, context: Seq<char>, i: int)
    requires
        0 < i <= fields.len(),
        field_fault(value, fields.take(i - 1), context) is None,
        get_str(value, fields[i - 1]) is None,
    ensures
        field_fault(value, fields, context) == Some(missing_string(context, fields[i - 1])),
    decreases fields.len(),
{
    if i == fields.len() {
        assert(fields.drop_last() == fields.take(i - 1));
    } else {
        let init = fields.drop_last();
        assert(init.take(i - 1) == fields.take(i - 1));
        assert(init[i - 1] == fields[i - 1]);
        lemma_field_fault_extends(value, init, context, i);
    }
}

/// The records of `values`, in order, or the error for the first fault.
pub(crate) fn records_exec(values: &[JsonValue], fields: &[&str], context: &str) -> (r: Result<Vec<Vec<String>>, CorpusError>)
    ensures
        match first_fault(values@, strs(fields@), context@) {
            Some(e) => r matches Err(CorpusError::Invariant(m)) && m@ == e,
            None => r matches Ok(v) && keys(v@) == records_of(values@, strs(fields@)),
        },
{
    let ghost fs = strs(fields@);
    let mut out: Vec<Vec<String>> = Vec::new();
    let mut i: usize = 0;
    while i < values.len()
        invariant
            fs == strs(fields@),
            0 <= i <= values@.len(),
            first_fault(values@.take(i as int), fs, context@) is None,
            keys(out@) == records_of(values@.take(i as int), fs),
        decreases values@.len() - i,
    {
        proof {
            let t = values@.take(i + 1);
            assert(t.drop_last() == values@.take(i as int));
            assert(t.last() == values@[i as int]);
        }
        match record_exec(&values[i], fields, context) {
            Ok(rec) => {
                let ghost before = out@;
                out.push(rec);
                proof {
                    assert(keys(out@) =~= keys(before).push(words(rec@)));
                    assert(records_of(values@.take(i + 1), fs) =~= records_of(values@.take(i as int), fs).push(
                        record_of(values@[i as int], fs)));
                }
            },
            Err(e) => {
                proof {
                    lemma_first_fault_extends(values@, fs, context@, (i + 1) as int);
                }
                return Err(e);
            },
        }
        i = i + 1;
    }
    proof {
        assert(values@.take(values@.len() as int) == values@);
    }
    Ok(out)
}

/// A node's census key, `[object_type, kind]`.
pub open spec fn census_key(node: JsonValue) -> Seq<Seq<char>> {
    seq![get_str(node, "object_type"@).unwrap(), kind_text(node)]
}

/// How many times `w` occurs in `list`.
pub open spec fn occurrences(list: Seq<Seq<Seq<char>>>, w: Seq<Seq<char>>) -> nat {
    list.filter(equal_to(w)).len()
}

/// The test for being equal to `w`.
pub open spec fn equal_to(w: Seq<Seq<char>>) -> spec_fn(Seq<Seq<char>>) -> bool {
    |x: Seq<Seq<char>>| x == w
}

/// The census: object types in order, each with its kinds in order and their counts.
pub open spec fn census_groups(
    sorted: Seq<Seq<Seq<char>>>,
    all: Seq<Seq<Seq<char>>>,
) -> Seq<(Seq<char>, Seq<(Seq<char>, nat)>)>
    decreases sorted.len(),
{
    if sorted.len() == 0 {
        seq![]
    } else {
        let prev = census_groups(sorted.drop_last(), all);
        let w = sorted.last();
        let entry = (w[1], occurrences(all, w));
        if prev.len() > 0 && prev.last().0 == w[0] {
            prev.update(prev.len() - 1, (w[0], prev.last().1.push(entry)))
        } else {
            prev.push((w[0], seq![entry]))
        }
    }
}

/// The view of a census as built.
pub open spec fn census_view(v: Seq<(String, Vec<(String, u64)>)>) -> Seq<(Seq<char>, Seq<(Seq<char>, nat)>)> {
    v.map_values(|g: (String, Vec<(String, u64)>)| (g.0@, g.1@.map_values(|e: (String, u64)| (e.0@, e.1 as nat))))
}

/// The census of the produced nodes.
pub open spec fn kind_census(nodes: Seq<JsonValue>) -> Seq<(Seq<char>, Seq<(Seq<char>, nat)>)> {
    let all = nodes.map_values(|n: JsonValue| census_key(n));
    census_groups(sorted_set(all), all)
}

pub(crate) fn kind_text_exec(node: &JsonValue) -> (r: String)
    ensures
        r@ == kind_text(*node),
{
    match node.get("data") {
        Some(d) => match d.get("kind") {
            Some(JsonValue::Str(s)) => s.clone(),
            Some(k) => to_json_text(k),
            None => "None".to_owned(),
        },
        None => "None".to_owned(),
    }
}

pub(crate) fn count_key(list: &Vec<Vec<String>>, key: &Vec<String>) -> (r: u64)
    ensures
        r == occurrences(keys(list@), words(key@)),
{
    let ghost w = words(key@);
    let ghost f = equal_to(w);
    let mut n: u64 = 0;
    let mut i: usize = 0;
    while i < list.len()
        invariant
            0 <= i <= list@.len(),
            f == equal_to(w),
            w == words(key@),
            n == keys(list@).take(i as int).filter(f).len(),
            n <= i,
        decreases list@.len() - i,
    {
        proof {
            let t = keys(list@).take(i + 1);
            assert(t.drop_last() == keys(list@).take(i as int));
            reveal_with_fuel(Seq::filter, 1);
        }
        if words_equal(&list[i], key) {
            n = n + 1;
        }
        i = i + 1;
    }
    proof {
        assert(keys(list@).take(list@.len() as int) == keys(list@));
    }
    n
}

/// Checks every produced node and takes the census of their kinds.
pub(crate) fn census_exec(nodes: &[JsonValue]) -> (r: Result<Vec<(String, Vec<(String, u64)>)>, CorpusError>)
    ensures
        match first_fault(nodes@, node_fields(), "node"@) {
            Some(e) => r matches Err(CorpusError::Invariant(m)) && m@ == e,
            None => r matches Ok(c) && census_view(c@) == kind_census(nodes@),
        },
{
    let fields: [&str; 2] = ["name", "object_type"];
    proof {
        assert(strs(fields@) =~= node_fields());
    }
    let records = records_exec(nodes, fields.as_slice(), "node")?;
    let mut all: Vec<Vec<String>> = Vec::new();
    let mut i: usize = 0;
    while i < nodes.len()
        invariant
            0 <= i <= nodes@.len(),
            first_fault(nodes@, node_fields(), "node"@) is None,
            keys(records@) == records_of(nodes@, node_fields()),
            keys(all@) == nodes@.take(i as int).map_values(|n: JsonValue| census_key(n)),
        decreases nodes@.len() - i,
    {
        let node = &nodes[i];
        proof {
            assert(keys(records@).len() == records@.len());
            assert(records_of(nodes@, node_fields()).len() == nodes@.len());
            assert(keys(records@)[i as int] == words(records@[i as int]@));
            assert(keys(records@)[i as int] == record_of(nodes@[i as int], node_fields()));
            assert(record_of(nodes@[i as int], node_fields()).len() == 2);
            assert(words(records@[i as int]@).len() == 2);
            assert(records@[i as int]@.len() == 2);
        }
        proof {
            assert(node_fields()[1] == "object_type"@);
            assert(record_of(*node, node_fields())[1] == get_str(*node, "object_type"@).unwrap());
            assert(words(records@[i as int]@)[1] == records@[i as int]@[1]@);
        }
        let object_type = records[i][1].clone();
        let kind = kind_text_exec(node);
        let ghost before = all@;
        let mut key: Vec<String> = Vec::new();
        key.push(object_type);
        key.push(kind);
        proof {
            assert(words(key@) =~= census_key(*node));
        }
        all.push(key);
        proof {
            assert(keys(all@) =~= keys(before).push(census_key(*node)));
            assert(nodes@.take(i + 1).map_values(|n: JsonValue| census_key(n))
                =~= nodes@.take(i as int).map_values(|n: JsonValue| census_key(n)).push(census_key(*node)));
        }
        i = i + 1;
    }
    proof {
        assert(nodes@.take(nodes@.len() as int) == nodes@);
    }
    let sorted = to_sorted_set(&all);
    proof {
        crate::order::lemma_sorted_set(keys(all@));
        assert forall|k: int| 0 <= k < sorted@.len() implies (#[trigger] keys(sorted@)[k]).len() == 2 by {
            let w = keys(sorted@)[k];
            assert(sorted_set(keys(all@)).to_set().contains(w));
            assert(keys(all@).to_set().contains(w));
            let m = choose|m: int| 0 <= m < keys(all@).len() && keys(all@)[m] == w;
            assert(keys(all@)[m] == census_key(nodes@[m]));
        }
    }
    let mut groups: Vec<(String, Vec<(String, u64)>)> = Vec::new();
    let mut j: usize = 0;
    while j < sorted.len()
        invariant
            0 <= j <= sorted@.len(),
            keys(sorted@) == sorted_set(keys(all@)),
            keys(all@) == nodes@.map_values(|n: JsonValue| census_key(n)),
            forall|k: int| 0 <= k < sorted@.len() ==> (#[trigger] keys(sorted@)[k]).len() == 2,
            census_view(groups@) == census_groups(keys(sorted@).take(j as int), keys(all@)),
        decreases sorted@.len() - j,
    {
        proof {
            let t = keys(sorted@).take(j + 1);
            assert(t.drop_last() == keys(sorted@).take(j as int));
            assert(t.last() == keys(sorted@)[j as int]);
            assert(keys(sorted@)[j as int].len() == 2);
        }
        let key = &sorted[j];
        let n = count_key(&all, key);
        let ghost prev = census_view(groups@);
        let last = groups.len();
        let ghost old_groups = groups@;
        if last > 0 && groups[last - 1].0 == key[0] {
            let mut group = groups.pop().unwrap();
            let ghost old_entries = group.1@;
            group.1.push((key[1].clone(), n));
            proof {
                assert(group.1@.map_values(|e: (String, u64)| (e.0@, e.1 as nat))
                    =~= old_entries.map_values(|e: (String, u64)| (e.0@, e.1 as nat)).push((words(key@)[1], n as nat)));
            }
            groups.push(group);
            proof {
                assert(groups@ =~= old_groups.update(last - 1, group));
                assert(census_view(groups@) =~= prev.update(prev.len() - 1, (words(key@)[0], prev.last().1.push((words(key@)[1], n as nat)))));
            }
        } else {
            let mut entries: Vec<(String, u64)> = Vec::new();
            entries.push((key[1].clone(), n));
            proof {
                assert(entries@.map_values(|e: (String, u64)| (e.0@, e.1 as nat)) =~= seq![(words(key@)[1], n as nat)]);
            }
            groups.push((key[0].clone(), entries));
            proof {
                assert(census_view(groups@) =~= prev.push((words(key@)[0], seq![(words(key@)[1], n as nat)])));
            }
        }
        j = j + 1;
    }
    proof {
        assert(keys(sorted@).take(sorted@.len() as int) == keys(sorted@));
    }
    Ok(groups)
}


// ---------------------------------------------------------------------------
// Outcomes counted per record.

/// How one record of a set comparison is counted.
#[derive(Clone, Copy, PartialEq, Eq, Structural)]
pub enum KeyOutcome {
    MissingNode,
    UnexpectedNode,
    MatchedNode,
    MissingMention,
    UnexpectedMention,
    MatchedMention,
}

/// How many fields a record of this comparison has.
pub open spec fn arity(kf: KeyOutcome) -> nat {
    match kf {
        KeyOutcome::MissingNode | KeyOutcome::UnexpectedNode | KeyOutcome::MatchedNode => 2,
        _ => 3,
    }
}

pub open spec fn key_outcome(kf: KeyOutcome) -> Outcome {
    match kf {
        KeyOutcome::MissingNode | KeyOutcome::MissingMention => Outcome::Fn,
        KeyOutcome::UnexpectedNode | KeyOutcome::UnexpectedMention => Outcome::Fp,
        KeyOutcome::MatchedNode | KeyOutcome::MatchedMention => Outcome::Tp,
    }
}

/// The slices a record's outcome counts in: nodes by object type, mentions by axis alone.
pub open spec fn key_slices(language: Seq<char>, kf: KeyOutcome, w: Seq<Seq<char>>) -> Seq<(Seq<char>, Seq<char>)> {
    match kf {
        KeyOutcome::MissingNode | KeyOutcome::UnexpectedNode | KeyOutcome::MatchedNode => seq![
            ("language"@, language),
            ("object_type"@, w[1]),
            ("axis_kind"@, "node"@),
        ],
        _ => seq![("language"@, language), ("axis_kind"@, "mention"@)],
    }
}

/// The finding a record yields: nodes are `[name, object_type]`, mentions `[identifier, kind, source]`.
pub open spec fn key_finding(kf: KeyOutcome, w: Seq<Seq<char>>) -> Option<Seq<char>> {
    match kf {
        KeyOutcome::MissingNode => Some("missing node "@ + w[1] + " "@ + w[0]),
        KeyOutcome::UnexpectedNode => Some("unexpected node "@ + w[1] + " "@ + w[0]),
        KeyOutcome::MissingMention => Some("missing mention "@ + w[0] + " as "@ + w[1] + " on "@ + w[2]),
        KeyOutcome::UnexpectedMention => Some("unexpected mention "@ + w[0] + " as "@ + w[1] + " on "@ + w[2]),
        _ => None,
    }
}

/// Scoring one record.
pub open spec fn key_step(language: Seq<char>, kf: KeyOutcome) -> spec_fn(ScoreState, Seq<Seq<char>>) -> ScoreState {
    |st: ScoreState, w: Seq<Seq<char>>| emit(st, key_outcome(kf), key_slices(language, kf, w), key_finding(kf, w))
}

pub(crate) fn key_finding_exec(kf: KeyOutcome, w: &Vec<String>) -> (r: Option<String>)
    requires
        w@.len() == arity(kf),
    ensures
        r matches Some(f) ==> key_finding(kf, words(w@)) == Some(f@),
        r is None ==> key_finding(kf, words(w@)) is None,
{
    match kf {
        KeyOutcome::MissingNode | KeyOutcome::UnexpectedNode => {
            let mut out = if kf == KeyOutcome::MissingNode {
                "missing node ".to_owned()
            } else {
                "unexpected node ".to_owned()
            };
            push_text(&mut out, w[1].as_str());
            push_text(&mut out, " ");
            push_text(&mut out, w[0].as_str());
            Some(out)
        },
        KeyOutcome::MissingMention | KeyOutcome::UnexpectedMention => {
            let mut out = if kf == KeyOutcome::MissingMention {
                "missing mention ".to_owned()
            } else {
                "unexpected mention ".to_owned()
            };
            push_text(&mut out, w[0].as_str());
            push_text(&mut out, " as ");
            push_text(&mut out, w[1].as_str());
            push_text(&mut out, " on ");
            push_text(&mut out, w[2].as_str());
            Some(out)
        },
        _ => None,
    }
}

pub(crate) fn key_slices_exec(language: &str, kf: KeyOutcome, w: &Vec<String>) -> (r: Vec<(String, String)>)
    requires
        w@.len() == arity(kf),
    ensures
        pairs(r@) == key_slices(language@, kf, words(w@)),
        r@.len() <= 4,
{
    let mut out: Vec<(String, String)> = Vec::new();
    out.push(slice("language", language));
    match kf {
        KeyOutcome::MissingNode | KeyOutcome::UnexpectedNode | KeyOutcome::MatchedNode => {
            out.push(slice("object_type", w[1].as_str()));
            out.push(slice("axis_kind", "node"));
        },
        _ => {
            out.push(slice("axis_kind", "mention"));
        },
    }
    proof {
        assert(pairs(out@) =~= key_slices(language@, kf, words(w@)));
    }
    out
}

/// Counts every record of `ws` as `kf` directs, in order.
pub(crate) fn emit_keys(
    tally: &mut Tally,
    findings: &mut Vec<String>,
    ws: &Vec<Vec<String>>,
    language: &str,
    kf: KeyOutcome,
    Ghost(st): Ghost<ScoreState>,
    Ghost(room): Ghost<int>,
)
    requires
        old(tally).wf(),
        st.error is None,
        st.tally == old(tally)@,
        st.findings == texts(old(findings)@),
        forall|k: int| 0 <= k < ws@.len() ==> (#[trigger] ws@[k])@.len() == arity(kf),
        room >= 5 * ws@.len(),
        has_room(old(tally)@, room),
    ensures
        final(tally).wf(),
        has_room(final(tally)@, room - 5 * ws@.len()),
        ({
            let post = keys(ws@).fold_left(st, key_step(language@, kf));
            &&& post.error is None
            &&& final(tally)@ == post.tally
            &&& texts(final(findings)@) == post.findings
        }),
{
    let mut i: usize = 0;
    while i < ws.len()
        invariant
            0 <= i <= ws@.len(),
            tally.wf(),
            forall|k: int| 0 <= k < ws@.len() ==> (#[trigger] ws@[k])@.len() == arity(kf),
            has_room(tally@, room - 5 * i),
            room >= 5 * ws@.len(),
            ({
                let cur = keys(ws@).take(i as int).fold_left(st, key_step(language@, kf));
                &&& cur.error is None
                &&& tally@ == cur.tally
                &&& texts(findings@) == cur.findings
            }),
        decreases ws@.len() - i,
    {
        let ghost cur = keys(ws@).take(i as int).fold_left(st, key_step(language@, kf));
        proof {
            let t = keys(ws@).take(i + 1);
            assert(t.drop_last() == keys(ws@).take(i as int));
            assert(t.last() == words(ws@[i as int]@));
        }
        let w = &ws[i];
        let slices = key_slices_exec(language, kf, w);
        let finding = key_finding_exec(kf, w);
        emit_exec(tally, findings, key_outcome_exec(kf), &slices, finding, Ghost(cur), Ghost(room - 5 * i));
        i = i + 1;
    }
    proof {
        assert(keys(ws@).take(ws@.len() as int) == keys(ws@));
    }
}

pub(crate) fn key_outcome_exec(kf: KeyOutcome) -> (r: Outcome)
    ensures
        r == key_outcome(kf),
{
    match kf {
        KeyOutcome::MissingNode | KeyOutcome::MissingMention => Outcome::Fn,
        KeyOutcome::UnexpectedNode | KeyOutcome::UnexpectedMention => Outcome::Fp,
        KeyOutcome::MatchedNode | KeyOutcome::MatchedMention => Outcome::Tp,
    }
}


// ---------------------------------------------------------------------------
// Declared nodes.

/// `value[key]` as a boolean, or `default` when it is not one.
pub open spec fn flag(value: JsonValue, key: Seq<char>, default: bool) -> bool {
    match get(value, key) {
        Some(JsonValue::Bool(b)) => b,
        _ => default,
    }
}

pub(crate) fn flag_exec(value: &JsonValue, key: &str, default: bool) -> (r: bool)
    ensures
        r == flag(*value, key@, default),
{
    match value.get(key) {
        Some(JsonValue::Bool(b)) => *b,
        _ => default,
    }
}

/// Declared nodes against produced nodes, by `(name, object_type)`: a missing
/// one is a false negative, an extra one a false positive unless the case says
/// its node list is not exhaustive, a matched one a true positive.
#[verifier::opaque]
pub open spec fn nodes_section(st: ScoreState, expected: JsonValue, produced: JsonValue, language: Seq<char>) -> ScoreState {
    if st.error is Some || get(expected, "nodes"@) is None {
        st
    } else {
        match first_fault(items(expected, "nodes"@), node_fields(), "expected node"@) {
            Some(e) => fail(st, e),
            None => {
                let want = sorted_set(records_of(items(expected, "nodes"@), node_fields()));
                let got = sorted_set(records_of(items(produced, "nodes"@), node_fields()));
                let s1 = want.filter(absent_in(got)).fold_left(st, key_step(language, KeyOutcome::MissingNode));
                let s2 = if flag(expected, "exhaustive_nodes"@, true) {
                    got.filter(absent_in(want)).fold_left(s1, key_step(language, KeyOutcome::UnexpectedNode))
                } else {
                    s1
                };
                want.filter(present_in(got)).fold_left(s2, key_step(language, KeyOutcome::MatchedNode))
            },
        }
    }
}

/// The events the node comparison can count.
pub open spec fn nodes_bound(expected: JsonValue, produced: JsonValue) -> nat {
    2 * items(expected, "nodes"@).len() + items(produced, "nodes"@).len()
}

pub(crate) proof fn lemma_records_arity(values: Seq<JsonValue>, fields: Seq<Seq<char>>)
    ensures
        forall|k: int| 0 <= k < records_of(values, fields).len() ==> (#[trigger] records_of(values, fields)[k]).len() == fields.len(),
{
}

pub(crate) proof fn lemma_sorted_set_len(list: Seq<Seq<Seq<char>>>)
    ensures
        sorted_set(list).len() <= list.len(),
    decreases list.len(),
{
    if list.len() > 0 {
        lemma_sorted_set_len(list.drop_last());
        lemma_ins_len(sorted_set(list.drop_last()), list.last());
    }
}

pub(crate) proof fn lemma_ins_len(s: Seq<Seq<Seq<char>>>, x: Seq<Seq<char>>)
    ensures
        crate::order::ins(s, x).len() <= s.len() + 1,
    decreases s.len(),
{
    if s.len() > 0 {
        lemma_ins_len(s.drop_first(), x);
    }
}

/// Every vector whose key view has `n` fields has `n` elements.
pub(crate) proof fn lemma_key_lengths(v: Seq<Vec<String>>, n: nat)
    requires
        forall|k: int| 0 <= k < keys(v).len() ==> (#[trigger] keys(v)[k]).len() == n,
    ensures
        forall|k: int| 0 <= k < v.len() ==> (#[trigger] v[k])@.len() == n,
{
    assert forall|k: int| 0 <= k < v.len() implies (#[trigger] v[k])@.len() == n by {
        assert(keys(v)[k] == words(v[k]@));
    }
}

/// Every member of a filtered sequence satisfies what the sequence's members do.
pub(crate) proof fn lemma_filter_arity(s: Seq<Seq<Seq<char>>>, f: spec_fn(Seq<Seq<char>>) -> bool, n: nat)
    requires
        forall|k: int| 0 <= k < s.len() ==> (#[trigger] s[k]).len() == n,
    ensures
        forall|k: int| 0 <= k < s.filter(f).len() ==> (#[trigger] s.filter(f)[k]).len() == n,
        s.filter(f).len() <= s.len(),
{
    s.lemma_filter_len(f);
    assert forall|k: int| 0 <= k < s.filter(f).len() implies (#[trigger] s.filter(f)[k]).len() == n by {
        s.lemma_filter_contains_rev(f, s.filter(f)[k]);
        assert(s.filter(f).contains(s.filter(f)[k]));
    }
}

pub(crate) fn nodes_exec(
    expected: &JsonValue,
    produced: &JsonValue,
    language: &str,
    tally: &mut Tally,
    findings: &mut Vec<String>,
    Ghost(st): Ghost<ScoreState>,
    Ghost(room): Ghost<int>,
) -> (r: Result<(), CorpusError>)
    requires
        old(tally).wf(),
        st.error is None,
        st.tally == old(tally)@,
        st.findings == texts(old(findings)@),
        first_fault(items(*produced, "nodes"@), node_fields(), "node"@) is None,
        room >= 5 * nodes_bound(*expected, *produced),
        has_room(old(tally)@, room),
    ensures
        final(tally).wf(),
        has_room(final(tally)@, room - 5 * nodes_bound(*expected, *produced)),
        ({
            let post = nodes_section(st, *expected, *produced, language@);
            &&& final(tally)@ == post.tally
            &&& texts(final(findings)@) == post.findings
            &&& match post.error {
                Some(e) => r matches Err(CorpusError::Invariant(m)) && m@ == e,
                None => r is Ok,
            }
        }),
{
    proof {
        reveal(nodes_section);
    }
    let ghost bound = nodes_bound(*expected, *produced);
    if expected.get("nodes").is_none() {
        proof {
            lemma_room_mono(tally@, room, room - 5 * bound);
        }
        return Ok(());
    }
    let fields: [&str; 2] = ["name", "object_type"];
    proof {
        assert(strs(fields@) =~= node_fields());
    }
    let want_list = match records_exec(expected.items("nodes"), fields.as_slice(), "expected node") {
        Ok(v) => v,
        Err(e) => {
            proof {
                lemma_room_mono(tally@, room, room - 5 * bound);
            }
            return Err(e);
        },
    };
    let got_list = match records_exec(produced.items("nodes"), fields.as_slice(), "node") {
        Ok(v) => v,
        Err(e) => {
            return Err(e);
        },
    };
    let want = to_sorted_set(&want_list);
    let got = to_sorted_set(&got_list);
    let missing = minus(&want, &got);
    let extra = minus(&got, &want);
    let both = meet(&want, &got);
    let ghost wk = keys(want@);
    let ghost gk = keys(got@);
    proof {
        lemma_records_arity(items(*expected, "nodes"@), node_fields());
        lemma_records_arity(items(*produced, "nodes"@), node_fields());
        lemma_sorted_set_arity(keys(want_list@), 2);
        lemma_sorted_set_arity(keys(got_list@), 2);
        lemma_sorted_set_len(keys(want_list@));
        lemma_sorted_set_len(keys(got_list@));
        lemma_filter_arity(wk, absent_in(gk), 2);
        lemma_filter_arity(gk, absent_in(wk), 2);
        lemma_filter_arity(wk, present_in(gk), 2);
        lemma_key_lengths(missing@, 2);
        lemma_key_lengths(extra@, 2);
        lemma_key_lengths(both@, 2);
    }
    emit_keys(tally, findings, &missing, language, KeyOutcome::MissingNode, Ghost(st), Ghost(room));
    let ghost s1 = keys(missing@).fold_left(st, key_step(language@, KeyOutcome::MissingNode));
    let ghost room1 = room - 5 * missing@.len();
    let exhaustive = flag_exec(expected, "exhaustive_nodes", true);
    let ghost s2 = if exhaustive {
        keys(extra@).fold_left(s1, key_step(language@, KeyOutcome::UnexpectedNode))
    } else {
        s1
    };
    let ghost room2 = if exhaustive { room1 - 5 * extra@.len() } else { room1 };
    if exhaustive {
        emit_keys(tally, findings, &extra, language, KeyOutcome::UnexpectedNode, Ghost(s1), Ghost(room1));
    }
    emit_keys(tally, findings, &both, language, KeyOutcome::MatchedNode, Ghost(s2), Ghost(room2));
    proof {
        lemma_room_mono(tally@, room2 - 5 * both@.len(), room - 5 * bound);
    }
    Ok(())
}


// ---------------------------------------------------------------------------
// Node identity: repeated names, forbidden names, forbidden kinds.

/// The fields that identify a node for uniqueness, object type first.
pub open spec fn identity_fields() -> Seq<Seq<char>> {
    seq!["object_type"@, "name"@]
}

/// The slices a node-axis outcome counts in, by object type.
pub open spec fn node_slices(language: Seq<char>, object_type: Seq<char>) -> Seq<(Seq<char>, Seq<char>)> {
    seq![("language"@, language), ("object_type"@, object_type), ("axis_kind"@, "node"@)]
}

/// One `(object_type, name)` identity: a false positive when several nodes share it.
pub open spec fn repeat_step(language: Seq<char>, all: Seq<Seq<Seq<char>>>) -> spec_fn(ScoreState, Seq<Seq<char>>) -> ScoreState {
    |st: ScoreState, w: Seq<Seq<char>>| if occurrences(all, w) > 1 {
        emit(
            st,
            Outcome::Fp,
            node_slices(language, w[0]),
            Some(decimal(occurrences(all, w)) + " nodes share the name "@ + w[1] + " ("@ + w[0]
                + "); a consumer keying on identity keeps one of them"@),
        )
    } else {
        st
    }
}

/// When the case asks for unique node names, each identity held by more than one node.
#[verifier::opaque]
pub open spec fn repeats_section(st: ScoreState, expected: JsonValue, produced: JsonValue, language: Seq<char>) -> ScoreState {
    if st.error is Some || !flag(expected, "unique_node_names"@, false) {
        st
    } else {
        let all = records_of(items(produced, "nodes"@), identity_fields());
        sorted_set(all).fold_left(st, repeat_step(language, all))
    }
}

pub(crate) fn repeats_exec(
    expected: &JsonValue,
    produced: &JsonValue,
    language: &str,
    tally: &mut Tally,
    findings: &mut Vec<String>,
    Ghost(st): Ghost<ScoreState>,
    Ghost(room): Ghost<int>,
)
    requires
        old(tally).wf(),
        st.error is None,
        st.tally == old(tally)@,
        st.findings == texts(old(findings)@),
        first_fault(items(*produced, "nodes"@), node_fields(), "node"@) is None,
        room >= 5 * items(*produced, "nodes"@).len(),
        has_room(old(tally)@, room),
    ensures
        final(tally).wf(),
        has_room(final(tally)@, room - 5 * items(*produced, "nodes"@).len()),
        ({
            let post = repeats_section(st, *expected, *produced, language@);
            &&& post.error is None
            &&& final(tally)@ == post.tally
            &&& texts(final(findings)@) == post.findings
        }),
{
    proof {
        reveal(repeats_section);
    }
    let ghost n = items(*produced, "nodes"@).len();
    if !flag_exec(expected, "unique_node_names", false) {
        proof {
            lemma_room_mono(tally@, room, room - 5 * n);
        }
        return;
    }
    let fields: [&str; 2] = ["object_type", "name"];
    proof {
        assert(strs(fields@) =~= identity_fields());
        lemma_identity_fields_present(items(*produced, "nodes"@));
    }
    let all = match records_exec(produced.items("nodes"), fields.as_slice(), "node") {
        Ok(v) => v,
        Err(_) => {
            return;
        },
    };
    let sorted = to_sorted_set(&all);
    proof {
        lemma_records_arity(items(*produced, "nodes"@), identity_fields());
        lemma_sorted_set_arity(keys(all@), 2);
        lemma_sorted_set_len(keys(all@));
        lemma_key_lengths(sorted@, 2);
    }
    let ghost f = repeat_step(language@, keys(all@));
    let mut i: usize = 0;
    while i < sorted.len()
        invariant
            0 <= i <= sorted@.len(),
            sorted@.len() <= n,
            f == repeat_step(language@, keys(all@)),
            tally.wf(),
            forall|k: int| 0 <= k < sorted@.len() ==> (#[trigger] sorted@[k])@.len() == 2,
            has_room(tally@, room - 5 * i),
            room >= 5 * n,
            ({
                let cur = keys(sorted@).take(i as int).fold_left(st, f);
                &&& cur.error is None
                &&& tally@ == cur.tally
                &&& texts(findings@) == cur.findings
            }),
        decreases sorted@.len() - i,
    {
        let ghost cur = keys(sorted@).take(i as int).fold_left(st, f);
        proof {
            let t = keys(sorted@).take(i + 1);
            assert(t.drop_last() == keys(sorted@).take(i as int));
            assert(t.last() == words(sorted@[i as int]@));
        }
        let w = &sorted[i];
        let count = count_key(&all, w);
        if count > 1 {
            let mut slices: Vec<(String, String)> = Vec::new();
            slices.push(slice("language", language));
            slices.push(slice("object_type", w[0].as_str()));
            slices.push(slice("axis_kind", "node"));
            let mut finding = decimal_string(count);
            push_text(&mut finding, " nodes share the name ");
            push_text(&mut finding, w[1].as_str());
            push_text(&mut finding, " (");
            push_text(&mut finding, w[0].as_str());
            push_text(&mut finding, "); a consumer keying on identity keeps one of them");
            proof {
                assert(pairs(slices@) =~= node_slices(language@, words(w@)[0]));
            }
            emit_exec(tally, findings, Outcome::Fp, &slices, Some(finding), Ghost(cur), Ghost(room - 5 * i));
        } else {
            proof {
                lemma_room_mono(tally@, room - 5 * i, room - 5 * (i + 1));
            }
        }
        i = i + 1;
    }
    proof {
        assert(keys(sorted@).take(sorted@.len() as int) == keys(sorted@));
        lemma_room_mono(tally@, room - 5 * sorted@.len(), room - 5 * n);
    }
}

/// A record has no fault exactly when it has every field as a string.
pub(crate) proof fn lemma_field_fault_none(value: JsonValue, fields: Seq<Seq<char>>, context: Seq<char>)
    ensures
        field_fault(value, fields, context) is None <==> forall|k: int|
            0 <= k < fields.len() ==> get_str(value, #[trigger] fields[k]) is Some,
    decreases fields.len(),
{
    if fields.len() > 0 {
        lemma_field_fault_none(value, fields.drop_last(), context);
        if field_fault(value, fields, context) is None {
            assert forall|k: int| 0 <= k < fields.len() implies get_str(value, #[trigger] fields[k]) is Some by {
                if k < fields.len() - 1 {
                    assert(fields.drop_last()[k] == fields[k]);
                }
            }
        } else {
            if field_fault(value, fields.drop_last(), context) is Some {
                let k = choose|k: int| 0 <= k < fields.drop_last().len() && get_str(value, #[trigger] fields.drop_last()[k]) is None;
                assert(fields[k] == fields.drop_last()[k]);
            }
        }
    }
}

/// Nodes that carry both a name and an object type carry both in either order.
pub(crate) proof fn lemma_identity_fields_present(nodes: Seq<JsonValue>)
    requires
        first_fault(nodes, node_fields(), "node"@) is None,
    ensures
        first_fault(nodes, identity_fields(), "node"@) is None,
    decreases nodes.len(),
{
    if nodes.len() > 0 {
        lemma_identity_fields_present(nodes.drop_last());
        let v = nodes.last();
        lemma_field_fault_none(v, node_fields(), "node"@);
        lemma_field_fault_none(v, identity_fields(), "node"@);
        assert(get_str(v, node_fields()[0]) is Some);
        assert(get_str(v, node_fields()[1]) is Some);
    }
}

/// Whether some node is named `name`.
pub open spec fn has_node_named(nodes: Seq<JsonValue>, name: Seq<char>) -> bool {
    exists|i: int| 0 <= i < nodes.len() && get_str(#[trigger] nodes[i], "name"@) == Some(name)
}

/// A forbidden name: a false positive with a finding when some node carries it, else a true positive.
pub open spec fn forbidden_name_step(language: Seq<char>, nodes: Seq<JsonValue>) -> spec_fn(ScoreState, JsonValue) -> ScoreState {
    |st: ScoreState, v: JsonValue| match v {
        JsonValue::Str(name) => if has_node_named(nodes, name@) {
            emit(
                st,
                Outcome::Fp,
                seq![("language"@, language), ("axis_kind"@, "node"@)],
                Some("forbidden node minted: "@ + name@ + " is not a declaration"@),
            )
        } else {
            emit(st, Outcome::Tp, seq![("language"@, language), ("axis_kind"@, "node"@)], None)
        },
        _ => st,
    }
}

/// Each forbidden node name, in order.
#[verifier::opaque]
pub open spec fn forbidden_names_section(st: ScoreState, expected: JsonValue, produced: JsonValue, language: Seq<char>) -> ScoreState {
    items(expected, "forbidden_node_names"@).fold_left(st, forbidden_name_step(language, items(produced, "nodes"@)))
}

pub(crate) fn find_named(nodes: &[JsonValue], name: &String) -> (r: bool)
    ensures
        r == has_node_named(nodes@, name@),
{
    let mut i: usize = 0;
    while i < nodes.len()
        invariant
            0 <= i <= nodes@.len(),
            forall|j: int| 0 <= j < i ==> get_str(#[trigger] nodes@[j], "name"@) != Some(name@),
        decreases nodes@.len() - i,
    {
        match get_string(&nodes[i], "name") {
            Some(n) => {
                if n == *name {
                    return true;
                }
            },
            None => {},
        }
        i = i + 1;
    }
    false
}

pub(crate) fn forbidden_names_exec(
    expected: &JsonValue,
    produced: &JsonValue,
    language: &str,
    tally: &mut Tally,
    findings: &mut Vec<String>,
    Ghost(st): Ghost<ScoreState>,
    Ghost(room): Ghost<int>,
)
    requires
        old(tally).wf(),
        st.error is None,
        st.tally == old(tally)@,
        st.findings == texts(old(findings)@),
        room >= 5 * items(*expected, "forbidden_node_names"@).len(),
        has_room(old(tally)@, room),
    ensures
        final(tally).wf(),
        has_room(final(tally)@, room - 5 * items(*expected, "forbidden_node_names"@).len()),
        ({
            let post = forbidden_names_section(st, *expected, *produced, language@);
            &&& post.error is None
            &&& final(tally)@ == post.tally
            &&& texts(final(findings)@) == post.findings
        }),
{
    proof {
        reveal(forbidden_names_section);
    }
    let names = expected.items("forbidden_node_names");
    let nodes = produced.items("nodes");
    let ghost f = forbidden_name_step(language@, nodes@);
    let mut i: usize = 0;
    while i < names.len()
        invariant
            0 <= i <= names@.len(),
            names@ == items(*expected, "forbidden_node_names"@),
            nodes@ == items(*produced, "nodes"@),
            f == forbidden_name_step(language@, nodes@),
            tally.wf(),
            has_room(tally@, room - 5 * i),
            room >= 5 * names@.len(),
            ({
                let cur = names@.take(i as int).fold_left(st, f);
                &&& cur.error is None
                &&& tally@ == cur.tally
                &&& texts(findings@) == cur.findings
            }),
        decreases names@.len() - i,
    {
        let ghost cur = names@.take(i as int).fold_left(st, f);
        proof {
            let t = names@.take(i + 1);
            assert(t.drop_last() == names@.take(i as int));
            assert(t.last() == names@[i as int]);
        }
        match &names[i] {
            JsonValue::Str(name) => {
                let mut slices: Vec<(String, String)> = Vec::new();
                slices.push(slice("language", language));
                slices.push(slice("axis_kind", "node"));
                proof {
                    assert(pairs(slices@) =~= seq![("language"@, language@), ("axis_kind"@, "node"@)]);
                }
                if find_named(nodes, name) {
                    let mut finding = "forbidden node minted: ".to_owned();
                    push_text(&mut finding, name.as_str());
                    push_text(&mut finding, " is not a declaration");
                    emit_exec(tally, findings, Outcome::Fp, &slices, Some(finding), Ghost(cur), Ghost(room - 5 * i));
                } else {
                    emit_exec(tally, findings, Outcome::Tp, &slices, None, Ghost(cur), Ghost(room - 5 * i));
                }
            },
            _ => {
                proof {
                    lemma_room_mono(tally@, room - 5 * i, room - 5 * (i + 1));
                }
            },
        }
        i = i + 1;
    }
    proof {
        assert(names@.take(names@.len() as int) == names@);
    }
}

/// Whether a node declares `data.kind` as the string `kind`.
pub open spec fn declares_kind(node: JsonValue, kind: Seq<char>) -> bool {
    match get(node, "data"@) {
        Some(d) => match get(d, "kind"@) {
            Some(JsonValue::Str(k)) => k@ == kind,
            _ => false,
        },
        None => false,
    }
}

/// A node of a forbidden kind: a false positive with a finding.
pub open spec fn forbidden_kind_node_step(language: Seq<char>, kind: Seq<char>) -> spec_fn(ScoreState, JsonValue) -> ScoreState {
    |st: ScoreState, node: JsonValue| if declares_kind(node, kind) {
        emit(
            st,
            Outcome::Fp,
            seq![("language"@, language), ("node_kind"@, kind), ("axis_kind"@, "node"@)],
            Some("forbidden node kind "@ + str_debug(kind) + ": "@ + get_str(node, "name"@).unwrap()
                + " \u{2014} this language cannot declare one"@),
        )
    } else {
        st
    }
}

/// A forbidden kind, checked against every node in order.
pub open spec fn forbidden_kind_step(language: Seq<char>, nodes: Seq<JsonValue>) -> spec_fn(ScoreState, JsonValue) -> ScoreState {
    |st: ScoreState, v: JsonValue| match v {
        JsonValue::Str(kind) => nodes.fold_left(st, forbidden_kind_node_step(language, kind@)),
        _ => st,
    }
}

/// Each forbidden node kind, in order.
#[verifier::opaque]
pub open spec fn forbidden_kinds_section(st: ScoreState, expected: JsonValue, produced: JsonValue, language: Seq<char>) -> ScoreState {
    items(expected, "forbidden_node_kinds"@).fold_left(st, forbidden_kind_step(language, items(produced, "nodes"@)))
}

pub(crate) fn declares_kind_exec(node: &JsonValue, kind: &String) -> (r: bool)
    ensures
        r == declares_kind(*node, kind@),
{
    match node.get("data") {
        Some(d) => match d.get("kind") {
            Some(JsonValue::Str(k)) => *k == *kind,
            _ => false,
        },
        None => false,
    }
}

pub(crate) fn forbidden_kind_exec(
    nodes: &[JsonValue],
    kind: &String,
    language: &str,
    tally: &mut Tally,
    findings: &mut Vec<String>,
    Ghost(st): Ghost<ScoreState>,
    Ghost(room): Ghost<int>,
)
    requires
        old(tally).wf(),
        st.error is None,
        st.tally == old(tally)@,
        st.findings == texts(old(findings)@),
        first_fault(nodes@, node_fields(), "node"@) is None,
        room >= 5 * nodes@.len(),
        has_room(old(tally)@, room),
    ensures
        final(tally).wf(),
        has_room(final(tally)@, room - 5 * nodes@.len()),
        ({
            let post = nodes@.fold_left(st, forbidden_kind_node_step(language@, kind@));
            &&& post.error is None
            &&& final(tally)@ == post.tally
            &&& texts(final(findings)@) == post.findings
        }),
{
    let ghost f = forbidden_kind_node_step(language@, kind@);
    let mut i: usize = 0;
    while i < nodes.len()
        invariant
            0 <= i <= nodes@.len(),
            f == forbidden_kind_node_step(language@, kind@),
            first_fault(nodes@, node_fields(), "node"@) is None,
            tally.wf(),
            has_room(tally@, room - 5 * i),
            room >= 5 * nodes@.len(),
            ({
                let cur = nodes@.take(i as int).fold_left(st, f);
                &&& cur.error is None
                &&& tally@ == cur.tally
                &&& texts(findings@) == cur.findings
            }),
        decreases nodes@.len() - i,
    {
        let ghost cur = nodes@.take(i as int).fold_left(st, f);
        proof {
            let t = nodes@.take(i + 1);
            assert(t.drop_last() == nodes@.take(i as int));
            assert(t.last() == nodes@[i as int]);
        }
        let node = &nodes[i];
        if declares_kind_exec(node, kind) {
            proof {
                lemma_fault_free_member(nodes@, node_fields(), "node"@, i as int);
                lemma_has_first_field(*node, node_fields(), "node"@);
            }
            let name = match get_string(node, "name") {
                Some(n) => n,
                None => {
                    return;
                },
            };
            let mut slices: Vec<(String, String)> = Vec::new();
            slices.push(slice("language", language));
            slices.push(slice("node_kind", kind.as_str()));
            slices.push(slice("axis_kind", "node"));
            proof {
                assert(pairs(slices@) =~= seq![("language"@, language@), ("node_kind"@, kind@), ("axis_kind"@, "node"@)]);
            }
            let mut finding = "forbidden node kind ".to_owned();
            let quoted = debug_str(kind.as_str());
            push_text(&mut finding, quoted.as_str());
            push_text(&mut finding, ": ");
            push_text(&mut finding, name.as_str());
            push_text(&mut finding, " \u{2014} this language cannot declare one");
            emit_exec(tally, findings, Outcome::Fp, &slices, Some(finding), Ghost(cur), Ghost(room - 5 * i));
        } else {
            proof {
                lemma_room_mono(tally@, room - 5 * i, room - 5 * (i + 1));
            }
        }
        i = i + 1;
    }
    proof {
        assert(nodes@.take(nodes@.len() as int) == nodes@);
    }
}

/// A member of a list without faults has no fault.
pub(crate) proof fn lemma_fault_free_member(values: Seq<JsonValue>, fields: Seq<Seq<char>>, context: Seq<char>, i: int)
    requires
        first_fault(values, fields, context) is None,
        0 <= i < values.len(),
    ensures
        field_fault(values[i], fields, context) is None,
    decreases values.len(),
{
    if i < values.len() - 1 {
        assert(values.drop_last()[i] == values[i]);
        lemma_fault_free_member(values.drop_last(), fields, context, i);
    }
}

/// A record without faults has its first field.
pub(crate) proof fn lemma_has_first_field(value: JsonValue, fields: Seq<Seq<char>>, context: Seq<char>)
    requires
        field_fault(value, fields, context) is None,
        fields.len() > 0,
    ensures
        get_str(value, fields[0]) is Some,
    decreases fields.len(),
{
    if fields.len() > 1 {
        assert(fields.drop_last()[0] == fields[0]);
        lemma_has_first_field(value, fields.drop_last(), context);
    }
}

pub(crate) fn forbidden_kinds_exec(
    expected: &JsonValue,
    produced: &JsonValue,
    language: &str,
    tally: &mut Tally,
    findings: &mut Vec<String>,
    Ghost(st): Ghost<ScoreState>,
    Ghost(room): Ghost<int>,
)
    requires
        old(tally).wf(),
        st.error is None,
        st.tally == old(tally)@,
        st.findings == texts(old(findings)@),
        first_fault(items(*produced, "nodes"@), node_fields(), "node"@) is None,
        room >= 5 * (items(*expected, "forbidden_node_kinds"@).len() * items(*produced, "nodes"@).len()),
        has_room(old(tally)@, room),
    ensures
        final(tally).wf(),
        has_room(final(tally)@, room - 5 * (items(*expected, "forbidden_node_kinds"@).len() * items(*produced, "nodes"@).len())),
        ({
            let post = forbidden_kinds_section(st, *expected, *produced, language@);
            &&& post.error is None
            &&& final(tally)@ == post.tally
            &&& texts(final(findings)@) == post.findings
        }),
{
    proof {
        reveal(forbidden_kinds_section);
    }
    let kinds = expected.items("forbidden_node_kinds");
    let nodes = produced.items("nodes");
    let ghost n = nodes@.len();
    let ghost f = forbidden_kind_step(language@, nodes@);
    let mut i: usize = 0;
    while i < kinds.len()
        invariant
            0 <= i <= kinds@.len(),
            kinds@ == items(*expected, "forbidden_node_kinds"@),
            nodes@ == items(*produced, "nodes"@),
            n == nodes@.len(),
            f == forbidden_kind_step(language@, nodes@),
            first_fault(nodes@, node_fields(), "node"@) is None,
            tally.wf(),
            has_room(tally@, room - 5 * (i * n)),
            room >= 5 * (kinds@.len() * n),
            ({
                let cur = kinds@.take(i as int).fold_left(st, f);
                &&& cur.error is None
                &&& tally@ == cur.tally
                &&& texts(findings@) == cur.findings
            }),
        decreases kinds@.len() - i,
    {
        let ghost cur = kinds@.take(i as int).fold_left(st, f);
        proof {
            let t = kinds@.take(i + 1);
            assert(t.drop_last() == kinds@.take(i as int));
            assert(t.last() == kinds@[i as int]);
            assert((i + 1) * n == i * n + n) by (nonlinear_arith);
            assert((i + 1) <= kinds@.len() ==> (i + 1) * n <= kinds@.len() * n) by (nonlinear_arith);
        }
        match &kinds[i] {
            JsonValue::Str(kind) => {
                forbidden_kind_exec(nodes, kind, language, tally, findings, Ghost(cur), Ghost(room - 5 * (i * n)));
            },
            _ => {
                proof {
                    lemma_room_mono(tally@, room - 5 * (i * n), room - 5 * ((i + 1) * n));
                }
            },
        }
        i = i + 1;
    }
    proof {
        assert(kinds@.take(kinds@.len() as int) == kinds@);
    }
}


// ---------------------------------------------------------------------------
// How values are quoted in findings.

/// How `string_repr` writes one character.
pub open spec fn repr_char(c: char) -> Seq<char> {
    if c == '\\' {
        seq!['\\', '\\']
    } else if c == '\'' {
        seq!['\\', '\'']
    } else {
        seq![c]
    }
}

/// The escaped body of a single-quoted string.
pub open spec fn repr_body(s: Seq<char>) -> Seq<char>
    decreases s.len(),
{
    if s.len() == 0 {
        seq![]
    } else {
        repr_body(s.drop_last()) + repr_char(s.last())
    }
}

/// A string in single quotes, with `\` and `'` escaped.
pub open spec fn string_repr(s: Seq<char>) -> Seq<char> {
    seq!['\''] + repr_body(s) + seq!['\'']
}

/// `string_repr`: a string in single quotes, with `\` and `'` escaped.
pub fn string_repr_exec(s: &str) -> (r: String)
    ensures
        r@ == string_repr(s@),
{
    let cs = chars_of(s);
    let mut out = String::new();
    push_char(&mut out, '\'');
    let mut i: usize = 0;
    while i < cs.len()
        invariant
            cs@ == s@,
            0 <= i <= cs@.len(),
            out@ == seq!['\''] + repr_body(s@.take(i as int)),
        decreases cs@.len() - i,
    {
        proof {
            let t = s@.take(i + 1);
            assert(t.drop_last() == s@.take(i as int));
            assert(t.last() == s@[i as int]);
        }
        let ghost before = out@;
        let c = cs[i];
        if c == '\\' {
            push_char(&mut out, '\\');
            push_char(&mut out, '\\');
        } else if c == '\'' {
            push_char(&mut out, '\\');
            push_char(&mut out, '\'');
        } else {
            push_char(&mut out, c);
        }
        proof {
            assert(out@ =~= before + repr_char(c));
        }
        i = i + 1;
    }
    push_char(&mut out, '\'');
    proof {
        assert(s@.take(s@.len() as int) == s@);
    }
    out
}

/// `value_repr`: `None` for an absent or null value, a quoted string, or JSON text.
pub open spec fn value_repr(v: Option<JsonValue>) -> Seq<char> {
    match v {
        None => "None"@,
        Some(JsonValue::Null) => "None"@,
        Some(JsonValue::Str(s)) => string_repr(s@),
        Some(x) => json_text(x),
    }
}

pub(crate) fn value_repr_exec(v: Option<&JsonValue>) -> (r: String)
    ensures
        r@ == value_repr(match v {
            Some(x) => Some(*x),
            None => None,
        }),
{
    match v {
        None => "None".to_owned(),
        Some(JsonValue::Null) => "None".to_owned(),
        Some(JsonValue::Str(s)) => string_repr_exec(s.as_str()),
        Some(x) => to_json_text(x),
    }
}

// ---------------------------------------------------------------------------
// Declared edges.

/// The fields that name an edge, as declared (`false`) or as produced (`true`).
pub open spec fn edge_fields(produced: bool) -> Seq<Seq<char>> {
    if produced {
        seq!["source_ref"@, "edge_type"@, "target_ref"@]
    } else {
        seq!["source"@, "type"@, "target"@]
    }
}

/// The last of `values` whose record is `w`: a map keyed by record keeps the last.
pub open spec fn last_with(values: Seq<JsonValue>, fields: Seq<Seq<char>>, w: Seq<Seq<char>>) -> Option<JsonValue>
    decreases values.len(),
{
    if values.len() == 0 {
        None
    } else if record_of(values.last(), fields) == w {
        Some(values.last())
    } else {
        last_with(values.drop_last(), fields, w)
    }
}

/// The tier an edge reports: its `reason` when a string, else empty.
pub open spec fn tier_of(edge: JsonValue) -> Seq<char> {
    match get_str(edge, "reason"@) {
        Some(t) => t,
        None => seq![],
    }
}

/// The slices an edge outcome counts in.
pub open spec fn edge_slices(language: Seq<char>, relation: Seq<char>, tier: Seq<char>) -> Seq<(Seq<char>, Seq<char>)> {
    seq![("language"@, language), ("relation"@, relation), ("tier"@, tier), ("axis_kind"@, "edge"@)]
}

/// The slices a provenance outcome counts in.
pub open spec fn provenance_slices(language: Seq<char>) -> Seq<(Seq<char>, Seq<char>)> {
    seq![("language"@, language), ("axis_kind"@, "provenance"@)]
}

/// `{prefix}{source} -{relation}-> {target}`.
pub open spec fn edge_label(prefix: Seq<char>, w: Seq<Seq<char>>) -> Seq<char> {
    prefix + w[0] + " -"@ + w[1] + "-> "@ + w[2]
}

/// Whether `got[field]` equals `wanted` (both present and equal as JSON).
pub open spec fn same_member(got: JsonValue, field: Seq<char>, wanted: JsonValue) -> bool {
    match get(got, field) {
        Some(g) => json_equal(g, wanted),
        None => false,
    }
}

/// A declared `confidence` or `count`: matched or a provenance false positive.
pub open spec fn field_check(
    st: ScoreState,
    language: Seq<char>,
    w: Seq<Seq<char>>,
    wanted: JsonValue,
    got: JsonValue,
    field: Seq<char>,
) -> ScoreState {
    match get(wanted, field) {
        None => st,
        Some(wv) => if same_member(got, field, wv) {
            emit(st, Outcome::Tp, provenance_slices(language), None)
        } else {
            emit(
                st,
                Outcome::Fp,
                provenance_slices(language),
                Some(edge_label("edge "@, w) + " has "@ + field + " "@ + value_repr(get(got, field))
                    + ", expected "@ + value_repr(Some(wv))),
            )
        },
    }
}

/// `value[key]`, or null.
pub open spec fn member_or_null(value: JsonValue, key: Seq<char>) -> JsonValue {
    match get(value, key) {
        Some(v) => v,
        None => JsonValue::Null,
    }
}

/// Evidence lists agree when they have one entry for each and each `file` and `line` agree.
pub open spec fn same_evidence(a: Seq<JsonValue>, b: Seq<JsonValue>) -> bool {
    &&& a.len() == b.len()
    &&& forall|i: int| 0 <= i < a.len() ==> {
        &&& json_equal(member_or_null(#[trigger] a[i], "file"@), member_or_null(b[i], "file"@))
        &&& json_equal(member_or_null(a[i], "line"@), member_or_null(b[i], "line"@))
    }
}

/// How `{:?}` prints one projected evidence entry.
pub open spec fn evidence_entry_debug(entry: JsonValue) -> Seq<char> {
    "Object {"@ + str_debug("file"@) + ": "@ + json_debug(member_or_null(entry, "file"@)) + ", "@
        + str_debug("line"@) + ": "@ + json_debug(member_or_null(entry, "line"@)) + "}"@
}

/// The projected entries of an evidence list, joined by `, `.
pub open spec fn evidence_entries_debug(entries: Seq<JsonValue>) -> Seq<char>
    decreases entries.len(),
{
    if entries.len() == 0 {
        seq![]
    } else if entries.len() == 1 {
        evidence_entry_debug(entries[0])
    } else {
        evidence_entries_debug(entries.drop_last()) + ", "@ + evidence_entry_debug(entries.last())
    }
}

/// How `{:?}` prints a projected evidence list.
pub open spec fn evidence_debug(entries: Seq<JsonValue>) -> Seq<char> {
    "["@ + evidence_entries_debug(entries) + "]"@
}

/// Declared evidence: matched by `file` and `line`, or a provenance false positive.
pub open spec fn evidence_check(st: ScoreState, language: Seq<char>, w: Seq<Seq<char>>, wanted: JsonValue, got: JsonValue) -> ScoreState {
    match get(wanted, "evidence"@) {
        Some(JsonValue::Array(wev)) => if same_evidence(items(got, "evidence"@), wev@) {
            emit(st, Outcome::Tp, provenance_slices(language), None)
        } else {
            emit(
                st,
                Outcome::Fp,
                provenance_slices(language),
                Some(edge_label("edge "@, w) + " evidence is "@ + evidence_debug(items(got, "evidence"@))
                    + ", expected "@ + evidence_debug(wev@)),
            )
        },
        _ => st,
    }
}

/// A declared evidence count: matched, or a provenance false positive.
pub open spec fn evidence_len_check(st: ScoreState, language: Seq<char>, w: Seq<Seq<char>>, wanted: JsonValue, got: JsonValue) -> ScoreState {
    match get(wanted, "evidence_len"@) {
        Some(JsonValue::Number(crate::json::JsonNumber::PosInt(n))) => if items(got, "evidence"@).len() == n {
            emit(st, Outcome::Tp, provenance_slices(language), None)
        } else {
            emit(
                st,
                Outcome::Fp,
                provenance_slices(language),
                Some(edge_label("edge "@, w) + " carries "@ + decimal(items(got, "evidence"@).len()) + " evidence entries, expected "@
                    + decimal(n as nat)),
            )
        },
        _ => st,
    }
}

/// One declared edge: missing, or found and checked for provenance.
pub open spec fn want_edge_effect(st: ScoreState, language: Seq<char>, w: Seq<Seq<char>>, wanted: JsonValue, got: Option<JsonValue>) -> ScoreState {
    match got {
        None => emit(st, Outcome::Fn, edge_slices(language, w[1], tier_of(wanted)), Some(edge_label("missing edge "@, w))),
        Some(g) => {
            let s1 = emit(st, Outcome::Tp, edge_slices(language, w[1], tier_of(g)), None);
            let s2 = field_check(s1, language, w, wanted, g, "confidence"@);
            let s3 = field_check(s2, language, w, wanted, g, "count"@);
            let s4 = evidence_check(s3, language, w, wanted, g);
            evidence_len_check(s4, language, w, wanted, g)
        },
    }
}

/// Scoring one declared edge of `declared`, against the edges of `reported`.
pub open spec fn want_edge_step(language: Seq<char>, declared: Seq<JsonValue>, reported: Seq<JsonValue>) -> spec_fn(ScoreState, Seq<Seq<char>>) -> ScoreState {
    |st: ScoreState, w: Seq<Seq<char>>| want_edge_effect(
        st,
        language,
        w,
        last_with(declared, edge_fields(false), w).unwrap(),
        last_with(reported, edge_fields(true), w),
    )
}


/// A declared tier that the produced edge does not report.
pub struct TierDisagreement {
    pub source: String,
    pub relation: String,
    pub target: String,
    /// The declared `reason`.
    pub expected: JsonValue,
    /// The reported `reason`, or null.
    pub reported: JsonValue,
}

/// The content of a tier disagreement: the edge, the declared and the reported tier.
pub open spec fn tier_view(t: TierDisagreement) -> (Seq<Seq<char>>, JsonData, JsonData) {
    (seq![t.source@, t.relation@, t.target@], data(t.expected), data(t.reported))
}

/// The tier disagreement a declared edge yields, if any.
pub open spec fn tier_item(w: Seq<Seq<char>>, wanted: JsonValue, got: Option<JsonValue>) -> Option<(Seq<Seq<char>>, JsonData, JsonData)> {
    match got {
        Some(g) => match get(wanted, "reason"@) {
            Some(wr) => if same_member(g, "reason"@, wr) {
                None
            } else {
                Some((w, data(wr), data(member_or_null(g, "reason"@))))
            },
            None => None,
        },
        None => None,
    }
}

/// Collecting the tier disagreement of one declared edge.
pub open spec fn tier_step(declared: Seq<JsonValue>, reported: Seq<JsonValue>) -> spec_fn(
    Seq<(Seq<Seq<char>>, JsonData, JsonData)>,
    Seq<Seq<char>>,
) -> Seq<(Seq<Seq<char>>, JsonData, JsonData)> {
    |acc: Seq<(Seq<Seq<char>>, JsonData, JsonData)>, w: Seq<Seq<char>>| match tier_item(
        w,
        last_with(declared, edge_fields(false), w).unwrap(),
        last_with(reported, edge_fields(true), w),
    ) {
        Some(t) => acc.push(t),
        None => acc,
    }
}

pub(crate) proof fn lemma_last_with_suffix(values: Seq<JsonValue>, fields: Seq<Seq<char>>, w: Seq<Seq<char>>, j: int)
    requires
        0 <= j <= values.len(),
        forall|k: int| j <= k < values.len() ==> record_of(#[trigger] values[k], fields) != w,
    ensures
        last_with(values, fields, w) == last_with(values.take(j), fields, w),
    decreases values.len() - j,
{
    if j < values.len() {
        let init = values.drop_last();
        assert forall|k: int| j <= k < init.len() implies record_of(#[trigger] init[k], fields) != w by {
            assert(init[k] == values[k]);
        }
        lemma_last_with_suffix(init, fields, w, j);
        assert(init.take(j) == values.take(j));
    } else {
        assert(values.take(j) == values);
    }
}

pub(crate) proof fn lemma_last_with_at(values: Seq<JsonValue>, fields: Seq<Seq<char>>, w: Seq<Seq<char>>, j: int)
    requires
        0 <= j < values.len(),
        record_of(values[j], fields) == w,
        forall|k: int| j < k < values.len() ==> record_of(#[trigger] values[k], fields) != w,
    ensures
        last_with(values, fields, w) == Some(values[j]),
{
    lemma_last_with_suffix(values, fields, w, j + 1);
    let t = values.take(j + 1);
    assert(t.last() == values[j]);
}

/// The index of the last of `values` whose record is `w`.
pub(crate) fn last_with_exec(values: &[JsonValue], fields: &[&str], w: &Vec<String>) -> (r: Option<usize>)
    requires
        first_fault(values@, strs(fields@), "edge"@) is None,
    ensures
        match r {
            Some(i) => i < values@.len() && last_with(values@, strs(fields@), words(w@)) == Some(values@[i as int]),
            None => last_with(values@, strs(fields@), words(w@)) is None,
        },
{
    let mut j: usize = values.len();
    while j > 0
        invariant
            0 <= j <= values@.len(),
            first_fault(values@, strs(fields@), "edge"@) is None,
            forall|k: int| j <= k < values@.len() ==> record_of(#[trigger] values@[k], strs(fields@)) != words(w@),
        decreases j,
    {
        proof {
            lemma_fault_free_member(values@, strs(fields@), "edge"@, (j - 1) as int);
        }
        match record_exec(&values[j - 1], fields, "edge") {
            Ok(rec) => {
                if words_equal(&rec, w) {
                    proof {
                        lemma_last_with_at(values@, strs(fields@), words(w@), (j - 1) as int);
                    }
                    return Some(j - 1);
                }
            },
            Err(_) => {
                return None;
            },
        }
        j = j - 1;
    }
    proof {
        lemma_last_with_suffix(values@, strs(fields@), words(w@), 0);
    }
    None
}

pub(crate) fn edge_label_exec(prefix: &str, w: &Vec<String>) -> (r: String)
    requires
        w@.len() == 3,
    ensures
        r@ == edge_label(prefix@, words(w@)),
{
    let mut out = prefix.to_owned();
    push_text(&mut out, w[0].as_str());
    push_text(&mut out, " -");
    push_text(&mut out, w[1].as_str());
    push_text(&mut out, "-> ");
    push_text(&mut out, w[2].as_str());
    out
}

pub(crate) fn tier_exec(edge: &JsonValue) -> (r: String)
    ensures
        r@ == tier_of(*edge),
{
    match get_string(edge, "reason") {
        Some(t) => t,
        None => String::new(),
    }
}

pub(crate) fn edge_slices_exec(language: &str, relation: &str, tier: &str) -> (r: Vec<(String, String)>)
    ensures
        pairs(r@) == edge_slices(language@, relation@, tier@),
        r@.len() == 4,
{
    let mut out: Vec<(String, String)> = Vec::new();
    out.push(slice("language", language));
    out.push(slice("relation", relation));
    out.push(slice("tier", tier));
    out.push(slice("axis_kind", "edge"));
    proof {
        assert(pairs(out@) =~= edge_slices(language@, relation@, tier@));
    }
    out
}

pub(crate) fn provenance_slices_exec(language: &str) -> (r: Vec<(String, String)>)
    ensures
        pairs(r@) == provenance_slices(language@),
        r@.len() == 2,
{
    let mut out: Vec<(String, String)> = Vec::new();
    out.push(slice("language", language));
    out.push(slice("axis_kind", "provenance"));
    proof {
        assert(pairs(out@) =~= provenance_slices(language@));
    }
    out
}

pub(crate) fn same_member_exec(got: &JsonValue, field: &str, wanted: &JsonValue) -> (r: bool)
    ensures
        r == same_member(*got, field@, *wanted),
{
    match got.get(field) {
        Some(g) => json_eq(g, wanted),
        None => false,
    }
}

/// Shared shape of the provenance checks: the state before and after, in step.
pub open spec fn in_step(st: ScoreState, tally: Map<Seq<Seq<char>>, Counts>, findings: Seq<Seq<char>>) -> bool {
    &&& st.error is None
    &&& st.tally == tally
    &&& st.findings == findings
}

pub(crate) fn field_check_exec(
    w: &Vec<String>,
    wanted: &JsonValue,
    got: &JsonValue,
    field: &str,
    language: &str,
    tally: &mut Tally,
    findings: &mut Vec<String>,
    Ghost(st): Ghost<ScoreState>,
    Ghost(room): Ghost<int>,
)
    requires
        w@.len() == 3,
        old(tally).wf(),
        in_step(st, old(tally)@, texts(old(findings)@)),
        room >= 5,
        has_room(old(tally)@, room),
    ensures
        final(tally).wf(),
        has_room(final(tally)@, room - 5),
        in_step(field_check(st, language@, words(w@), *wanted, *got, field@), final(tally)@, texts(final(findings)@)),
{
    match wanted.get(field) {
        None => {
            proof {
                lemma_room_mono(tally@, room, room - 5);
            }
        },
        Some(wv) => {
            let slices = provenance_slices_exec(language);
            if same_member_exec(got, field, wv) {
                emit_exec(tally, findings, Outcome::Tp, &slices, None, Ghost(st), Ghost(room));
            } else {
                let mut finding = edge_label_exec("edge ", w);
                push_text(&mut finding, " has ");
                push_text(&mut finding, field);
                push_text(&mut finding, " ");
                let g = value_repr_exec(got.get(field));
                push_text(&mut finding, g.as_str());
                push_text(&mut finding, ", expected ");
                let e = value_repr_exec(Some(wv));
                push_text(&mut finding, e.as_str());
                emit_exec(tally, findings, Outcome::Fp, &slices, Some(finding), Ghost(st), Ghost(room));
            }
        },
    }
}

pub(crate) fn member_eq_exec(a: &JsonValue, b: &JsonValue, key: &str) -> (r: bool)
    ensures
        r == json_equal(member_or_null(*a, key@), member_or_null(*b, key@)),
{
    let null = JsonValue::Null;
    let x = match a.get(key) {
        Some(v) => v,
        None => &null,
    };
    let y = match b.get(key) {
        Some(v) => v,
        None => &null,
    };
    json_eq(x, y)
}

pub(crate) fn same_evidence_exec(a: &[JsonValue], b: &[JsonValue]) -> (r: bool)
    ensures
        r == same_evidence(a@, b@),
{
    if a.len() != b.len() {
        return false;
    }
    let mut i: usize = 0;
    while i < a.len()
        invariant
            a@.len() == b@.len(),
            0 <= i <= a@.len(),
            forall|k: int| 0 <= k < i ==> {
                &&& json_equal(member_or_null(#[trigger] a@[k], "file"@), member_or_null(b@[k], "file"@))
                &&& json_equal(member_or_null(a@[k], "line"@), member_or_null(b@[k], "line"@))
            },
        decreases a@.len() - i,
    {
        if !member_eq_exec(&a[i], &b[i], "file") || !member_eq_exec(&a[i], &b[i], "line") {
            return false;
        }
        i = i + 1;
    }
    true
}

pub(crate) fn evidence_entry_debug_exec(entry: &JsonValue) -> (r: String)
    ensures
        r@ == evidence_entry_debug(*entry),
{
    let null = JsonValue::Null;
    let mut out = "Object {".to_owned();
    let k = debug_str("file");
    push_text(&mut out, k.as_str());
    push_text(&mut out, ": ");
    let f = match entry.get("file") {
        Some(v) => v,
        None => &null,
    };
    let fd = to_json_debug(f);
    push_text(&mut out, fd.as_str());
    push_text(&mut out, ", ");
    let k2 = debug_str("line");
    push_text(&mut out, k2.as_str());
    push_text(&mut out, ": ");
    let l = match entry.get("line") {
        Some(v) => v,
        None => &null,
    };
    let ld = to_json_debug(l);
    push_text(&mut out, ld.as_str());
    push_text(&mut out, "}");
    out
}

pub(crate) fn evidence_debug_exec(entries: &[JsonValue]) -> (r: String)
    ensures
        r@ == evidence_debug(entries@),
{
    let mut out = "[".to_owned();
    let mut i: usize = 0;
    while i < entries.len()
        invariant
            0 <= i <= entries@.len(),
            out@ == "["@ + evidence_entries_debug(entries@.take(i as int)),
        decreases entries@.len() - i,
    {
        proof {
            let t = entries@.take(i + 1);
            assert(t.drop_last() == entries@.take(i as int));
            assert(t.last() == entries@[i as int]);
            if i == 0 {
                assert(t.len() == 1 && t[0] == entries@[0]);
            }
        }
        let ghost before = out@;
        if i > 0 {
            push_text(&mut out, ", ");
        }
        let part = evidence_entry_debug_exec(&entries[i]);
        push_text(&mut out, part.as_str());
        proof {
            assert(out@ =~= "["@ + evidence_entries_debug(entries@.take(i + 1)));
        }
        i = i + 1;
    }
    push_text(&mut out, "]");
    proof {
        assert(entries@.take(entries@.len() as int) == entries@);
    }
    out
}

pub(crate) fn evidence_check_exec(
    w: &Vec<String>,
    wanted: &JsonValue,
    got: &JsonValue,
    language: &str,
    tally: &mut Tally,
    findings: &mut Vec<String>,
    Ghost(st): Ghost<ScoreState>,
    Ghost(room): Ghost<int>,
)
    requires
        w@.len() == 3,
        old(tally).wf(),
        in_step(st, old(tally)@, texts(old(findings)@)),
        room >= 5,
        has_room(old(tally)@, room),
    ensures
        final(tally).wf(),
        has_room(final(tally)@, room - 5),
        in_step(evidence_check(st, language@, words(w@), *wanted, *got), final(tally)@, texts(final(findings)@)),
{
    match wanted.get("evidence") {
        Some(JsonValue::Array(wev)) => {
            let slices = provenance_slices_exec(language);
            let got_ev = got.items("evidence");
            if same_evidence_exec(got_ev, wev.as_slice()) {
                emit_exec(tally, findings, Outcome::Tp, &slices, None, Ghost(st), Ghost(room));
            } else {
                let mut finding = edge_label_exec("edge ", w);
                push_text(&mut finding, " evidence is ");
                let g = evidence_debug_exec(got_ev);
                push_text(&mut finding, g.as_str());
                push_text(&mut finding, ", expected ");
                let e = evidence_debug_exec(wev.as_slice());
                push_text(&mut finding, e.as_str());
                emit_exec(tally, findings, Outcome::Fp, &slices, Some(finding), Ghost(st), Ghost(room));
            }
        },
        _ => {
            proof {
                lemma_room_mono(tally@, room, room - 5);
            }
        },
    }
}

pub(crate) fn evidence_len_check_exec(
    w: &Vec<String>,
    wanted: &JsonValue,
    got: &JsonValue,
    language: &str,
    tally: &mut Tally,
    findings: &mut Vec<String>,
    Ghost(st): Ghost<ScoreState>,
    Ghost(room): Ghost<int>,
)
    requires
        w@.len() == 3,
        old(tally).wf(),
        in_step(st, old(tally)@, texts(old(findings)@)),
        room >= 5,
        has_room(old(tally)@, room),
    ensures
        final(tally).wf(),
        has_room(final(tally)@, room - 5),
        in_step(evidence_len_check(st, language@, words(w@), *wanted, *got), final(tally)@, texts(final(findings)@)),
{
    match wanted.get("evidence_len") {
        Some(JsonValue::Number(crate::json::JsonNumber::PosInt(n))) => {
            let slices = provenance_slices_exec(language);
            let actual = got.items("evidence").len();
            if actual as u64 == *n {
                emit_exec(tally, findings, Outcome::Tp, &slices, None, Ghost(st), Ghost(room));
            } else {
                let mut finding = edge_label_exec("edge ", w);
                push_text(&mut finding, " carries ");
                let a = count_string(actual);
                push_text(&mut finding, a.as_str());
                push_text(&mut finding, " evidence entries, expected ");
                let e = decimal_string(*n);
                push_text(&mut finding, e.as_str());
                emit_exec(tally, findings, Outcome::Fp, &slices, Some(finding), Ghost(st), Ghost(room));
            }
        },
        _ => {
            proof {
                lemma_room_mono(tally@, room, room - 5);
            }
        },
    }
}

/// Scores one declared edge and returns its tier disagreement, if any.
pub(crate) fn want_edge_exec(
    w: &Vec<String>,
    wanted: &JsonValue,
    got: Option<&JsonValue>,
    language: &str,
    tally: &mut Tally,
    findings: &mut Vec<String>,
    Ghost(st): Ghost<ScoreState>,
    Ghost(room): Ghost<int>,
) -> (r: Option<TierDisagreement>)
    requires
        w@.len() == 3,
        old(tally).wf(),
        in_step(st, old(tally)@, texts(old(findings)@)),
        room >= 25,
        has_room(old(tally)@, room),
    ensures
        final(tally).wf(),
        has_room(final(tally)@, room - 25),
        ({
            let g = match got {
                Some(x) => Some(*x),
                None => None,
            };
            &&& in_step(want_edge_effect(st, language@, words(w@), *wanted, g), final(tally)@, texts(final(findings)@))
            &&& match r {
                Some(t) => tier_item(words(w@), *wanted, g) == Some(tier_view(t)),
                None => tier_item(words(w@), *wanted, g) is None,
            }
        }),
{
    match got {
        None => {
            let tier = tier_exec(wanted);
            let slices = edge_slices_exec(language, w[1].as_str(), tier.as_str());
            let finding = edge_label_exec("missing edge ", w);
            emit_exec(tally, findings, Outcome::Fn, &slices, Some(finding), Ghost(st), Ghost(room));
            proof {
                lemma_room_mono(tally@, room - 5, room - 25);
            }
            None
        },
        Some(g) => {
            let tier = tier_exec(g);
            let slices = edge_slices_exec(language, w[1].as_str(), tier.as_str());
            emit_exec(tally, findings, Outcome::Tp, &slices, None, Ghost(st), Ghost(room));
            let ghost s1 = emit(st, Outcome::Tp, edge_slices(language@, words(w@)[1], tier_of(*g)), None);
            field_check_exec(w, wanted, g, "confidence", language, tally, findings, Ghost(s1), Ghost(room - 5));
            let ghost s2 = field_check(s1, language@, words(w@), *wanted, *g, "confidence"@);
            field_check_exec(w, wanted, g, "count", language, tally, findings, Ghost(s2), Ghost(room - 10));
            let ghost s3 = field_check(s2, language@, words(w@), *wanted, *g, "count"@);
            evidence_check_exec(w, wanted, g, language, tally, findings, Ghost(s3), Ghost(room - 15));
            let ghost s4 = evidence_check(s3, language@, words(w@), *wanted, *g);
            evidence_len_check_exec(w, wanted, g, language, tally, findings, Ghost(s4), Ghost(room - 20));
            match wanted.get("reason") {
                Some(wr) => {
                    if same_member_exec(g, "reason", wr) {
                        None
                    } else {
                        let reported = match g.get("reason") {
                            Some(x) => copy_json(x),
                            None => JsonValue::Null,
                        };
                        Some(
                            TierDisagreement {
                                source: w[0].clone(),
                                relation: w[1].clone(),
                                target: w[2].clone(),
                                expected: copy_json(wr),
                                reported,
                            },
                        )
                    }
                },
                None => None,
            }
        },
    }
}


/// Whether a relation is in scope: named by a declared edge or a forbidden edge type.
pub open spec fn scoped(expected: JsonValue, relation: Seq<char>) -> bool {
    ||| exists|i: int|
        0 <= i < items(expected, "edges"@).len()
            && get_str(#[trigger] items(expected, "edges"@)[i], "type"@) == Some(relation)
    ||| exists|j: int|
        0 <= j < items(expected, "forbidden_edge_types"@).len()
            && is_text(#[trigger] items(expected, "forbidden_edge_types"@)[j], relation)
}

/// Whether a value is the string `t`.
pub open spec fn is_text(v: JsonValue, t: Seq<char>) -> bool {
    match v {
        JsonValue::Str(s) => s@ == t,
        _ => false,
    }
}

/// A produced edge that is not declared: a false positive when its relation is in scope.
pub open spec fn unexpected_edge_step(
    language: Seq<char>,
    expected: JsonValue,
    want: Seq<Seq<Seq<char>>>,
    reported: Seq<JsonValue>,
) -> spec_fn(ScoreState, Seq<Seq<char>>) -> ScoreState {
    |st: ScoreState, w: Seq<Seq<char>>| if want.contains(w) || !scoped(expected, w[1]) {
        st
    } else {
        let got = last_with(reported, edge_fields(true), w).unwrap();
        emit(
            st,
            Outcome::Fp,
            edge_slices(language, w[1], tier_of(got)),
            Some(edge_label("unexpected edge "@, w) + " (tier "@ + value_repr(get(got, "reason"@)) + ")"@),
        )
    }
}

/// A forbidden edge: a false positive when produced, else a true positive.
pub open spec fn forbidden_edge_step(language: Seq<char>, reported: Seq<JsonValue>) -> spec_fn(ScoreState, JsonValue) -> ScoreState {
    |st: ScoreState, f: JsonValue| match field_fault(f, edge_fields(false), "edge"@) {
        Some(e) => fail(st, e),
        None => {
            let w = record_of(f, edge_fields(false));
            match last_with(reported, edge_fields(true), w) {
                Some(got) => emit(
                    st,
                    Outcome::Fp,
                    edge_slices(language, w[1], tier_of(got)),
                    Some(edge_label("forbidden edge emitted: "@, w)),
                ),
                None => emit(
                    st,
                    Outcome::Tp,
                    seq![("language"@, language), ("relation"@, w[1]), ("axis_kind"@, "edge"@)],
                    None,
                ),
            }
        },
    }
}

/// Declared, unexpected and forbidden edges, with the tier disagreements of the declared ones.
#[verifier::opaque]
pub open spec fn edges_section(st: ScoreState, expected: JsonValue, produced: JsonValue, language: Seq<char>) -> (
    ScoreState,
    Seq<(Seq<Seq<char>>, JsonData, JsonData)>,
) {
    let declared = items(expected, "edges"@);
    let reported = items(produced, "edges"@);
    if st.error is Some {
        (st, seq![])
    } else {
        match first_fault(declared, edge_fields(false), "edge"@) {
            Some(e) => (fail(st, e), seq![]),
            None => match first_fault(reported, edge_fields(true), "edge"@) {
                Some(e) => (fail(st, e), seq![]),
                None => {
                    let want = sorted_set(records_of(declared, edge_fields(false)));
                    let got = sorted_set(records_of(reported, edge_fields(true)));
                    let s1 = want.fold_left(st, want_edge_step(language, declared, reported));
                    let s2 = got.fold_left(s1, unexpected_edge_step(language, expected, want, reported));
                    let s3 = items(expected, "forbidden_edges"@).fold_left(s2, forbidden_edge_step(language, reported));
                    (s3, want.fold_left(seq![], tier_step(declared, reported)))
                },
            },
        }
    }
}

/// The events the edge comparison can count.
pub open spec fn edges_bound(expected: JsonValue, produced: JsonValue) -> nat {
    5 * items(expected, "edges"@).len() + items(produced, "edges"@).len() + items(expected, "forbidden_edges"@).len()
}

/// A failed state stays as it is through any step that leaves failed states alone.
pub(crate) proof fn lemma_fold_failed<T>(xs: Seq<T>, st: ScoreState, f: spec_fn(ScoreState, T) -> ScoreState)
    requires
        st.error is Some,
        forall|s: ScoreState, x: T| s.error is Some ==> #[trigger] f(s, x) == s,
    ensures
        xs.fold_left(st, f) == st,
    decreases xs.len(),
{
    if xs.len() > 0 {
        lemma_fold_failed(xs.drop_last(), st, f);
    }
}

pub(crate) proof fn lemma_last_with_found(values: Seq<JsonValue>, fields: Seq<Seq<char>>, i: int)
    requires
        0 <= i < values.len(),
    ensures
        last_with(values, fields, record_of(values[i], fields)) is Some,
    decreases values.len(),
{
    let w = record_of(values[i], fields);
    if record_of(values.last(), fields) != w {
        assert(i < values.len() - 1);
        assert(values.drop_last()[i] == values[i]);
        lemma_last_with_found(values.drop_last(), fields, i);
    }
}

/// Every record of a sorted set built from `values` has a last holder among them.
pub(crate) proof fn lemma_sorted_records_found(values: Seq<JsonValue>, fields: Seq<Seq<char>>)
    ensures
        forall|k: int| 0 <= k < sorted_set(records_of(values, fields)).len()
            ==> last_with(values, fields, #[trigger] sorted_set(records_of(values, fields))[k]) is Some,
{
    let list = records_of(values, fields);
    crate::order::lemma_sorted_set(list);
    assert forall|k: int| 0 <= k < sorted_set(list).len()
        implies last_with(values, fields, #[trigger] sorted_set(list)[k]) is Some by {
        let w = sorted_set(list)[k];
        assert(sorted_set(list).to_set().contains(w));
        assert(list.to_set().contains(w));
        let m = choose|m: int| 0 <= m < list.len() && list[m] == w;
        lemma_last_with_found(values, fields, m);
    }
}

pub(crate) fn scoped_exec(expected: &JsonValue, relation: &String) -> (r: bool)
    ensures
        r == scoped(*expected, relation@),
{
    let declared = expected.items("edges");
    let mut i: usize = 0;
    while i < declared.len()
        invariant
            declared@ == items(*expected, "edges"@),
            0 <= i <= declared@.len(),
            forall|k: int| 0 <= k < i ==> get_str(#[trigger] declared@[k], "type"@) != Some(relation@),
        decreases declared@.len() - i,
    {
        match get_string(&declared[i], "type") {
            Some(t) => {
                if t == *relation {
                    return true;
                }
            },
            None => {},
        }
        i = i + 1;
    }
    let types = expected.items("forbidden_edge_types");
    let mut j: usize = 0;
    while j < types.len()
        invariant
            declared@ == items(*expected, "edges"@),
            types@ == items(*expected, "forbidden_edge_types"@),
            forall|k: int| 0 <= k < declared@.len() ==> get_str(#[trigger] declared@[k], "type"@) != Some(relation@),
            0 <= j <= types@.len(),
            forall|k: int| 0 <= k < j ==> !is_text(#[trigger] types@[k], relation@),
        decreases types@.len() - j,
    {
        match &types[j] {
            JsonValue::Str(t) => {
                if *t == *relation {
                    return true;
                }
            },
            _ => {},
        }
        j = j + 1;
    }
    false
}

pub(crate) fn edges_exec(
    expected: &JsonValue,
    produced: &JsonValue,
    language: &str,
    tally: &mut Tally,
    findings: &mut Vec<String>,
    Ghost(st): Ghost<ScoreState>,
    Ghost(room): Ghost<int>,
) -> (r: Result<Vec<TierDisagreement>, CorpusError>)
    requires
        old(tally).wf(),
        in_step(st, old(tally)@, texts(old(findings)@)),
        room >= 5 * edges_bound(*expected, *produced),
        has_room(old(tally)@, room),
    ensures
        final(tally).wf(),
        has_room(final(tally)@, room - 5 * edges_bound(*expected, *produced)),
        ({
            let (post, tiers) = edges_section(st, *expected, *produced, language@);
            &&& final(tally)@ == post.tally
            &&& texts(final(findings)@) == post.findings
            &&& match post.error {
                Some(e) => r matches Err(CorpusError::Invariant(m)) && m@ == e,
                None => r matches Ok(v) && v@.map_values(|t: TierDisagreement| tier_view(t)) == tiers,
            }
        }),
{
    proof {
        reveal(edges_section);
    }
    let ghost bound = edges_bound(*expected, *produced);
    let declared = expected.items("edges");
    let reported = produced.items("edges");
    let decl_fields: [&str; 3] = ["source", "type", "target"];
    let rep_fields: [&str; 3] = ["source_ref", "edge_type", "target_ref"];
    proof {
        assert(strs(decl_fields@) =~= edge_fields(false));
        assert(strs(rep_fields@) =~= edge_fields(true));
        lemma_room_mono(tally@, room, room - 5 * bound);
    }
    let want_list = records_exec(declared, decl_fields.as_slice(), "edge")?;
    let got_list = records_exec(reported, rep_fields.as_slice(), "edge")?;
    let want = to_sorted_set(&want_list);
    let got = to_sorted_set(&got_list);
    proof {
        lemma_records_arity(declared@, edge_fields(false));
        lemma_records_arity(reported@, edge_fields(true));
        lemma_sorted_set_arity(keys(want_list@), 3);
        lemma_sorted_set_arity(keys(got_list@), 3);
        lemma_sorted_set_len(keys(want_list@));
        lemma_sorted_set_len(keys(got_list@));
        lemma_key_lengths(want@, 3);
        lemma_key_lengths(got@, 3);
        lemma_sorted_records_found(declared@, edge_fields(false));
        lemma_sorted_records_found(reported@, edge_fields(true));
    }
    let ghost wk = keys(want@);
    let ghost gk = keys(got@);
    let ghost fw = want_edge_step(language@, declared@, reported@);
    let ghost ft = tier_step(declared@, reported@);
    let mut tiers: Vec<TierDisagreement> = Vec::new();
    let mut i: usize = 0;
    while i < want.len()
        invariant
            0 <= i <= want@.len(),
            wk == keys(want@),
            wk == sorted_set(records_of(declared@, edge_fields(false))),
            declared@ == items(*expected, "edges"@),
            reported@ == items(*produced, "edges"@),
            want@.len() <= declared@.len(),
            first_fault(declared@, edge_fields(false), "edge"@) is None,
            first_fault(reported@, edge_fields(true), "edge"@) is None,
            strs(decl_fields@) == edge_fields(false),
            strs(rep_fields@) == edge_fields(true),
            fw == want_edge_step(language@, declared@, reported@),
            ft == tier_step(declared@, reported@),
            forall|k: int| 0 <= k < want@.len() ==> (#[trigger] want@[k])@.len() == 3,
            forall|k: int| 0 <= k < wk.len() ==> last_with(declared@, edge_fields(false), #[trigger] wk[k]) is Some,
            tally.wf(),
            room >= 5 * bound,
            bound == edges_bound(*expected, *produced),
            has_room(tally@, room - 25 * i),
            in_step(wk.take(i as int).fold_left(st, fw), tally@, texts(findings@)),
            tiers@.map_values(|t: TierDisagreement| tier_view(t)) == wk.take(i as int).fold_left(seq![], ft),
        decreases want@.len() - i,
    {
        let ghost cur = wk.take(i as int).fold_left(st, fw);
        proof {
            let t = wk.take(i + 1);
            assert(t.drop_last() == wk.take(i as int));
            assert(t.last() == words(want@[i as int]@));
            assert(wk[i as int] == words(want@[i as int]@));
        }
        let w = &want[i];
        let wi = match last_with_exec(declared, decl_fields.as_slice(), w) {
            Some(k) => k,
            None => {
                return Ok(tiers);
            },
        };
        let gi = last_with_exec(reported, rep_fields.as_slice(), w);
        let got_edge = match gi {
            Some(k) => Some(&reported[k]),
            None => None,
        };
        let ghost before = tiers@;
        let tier = want_edge_exec(w, &declared[wi], got_edge, language, tally, findings, Ghost(cur), Ghost(room - 25 * i));
        match tier {
            Some(t) => {
                tiers.push(t);
            },
            None => {},
        }
        proof {
            assert(tiers@.map_values(|t: TierDisagreement| tier_view(t)) =~= wk.take(i + 1).fold_left(seq![], ft));
        }
        i = i + 1;
    }
    proof {
        assert(wk.take(want@.len() as int) == wk);
    }
    let ghost s1 = wk.fold_left(st, fw);
    let ghost room1 = room - 25 * want@.len();
    let ghost fu = unexpected_edge_step(language@, *expected, wk, reported@);
    let mut j: usize = 0;
    while j < got.len()
        invariant
            0 <= j <= got@.len(),
            gk == keys(got@),
            got@.len() <= reported@.len(),
            reported@ == items(*produced, "edges"@),
            first_fault(reported@, edge_fields(true), "edge"@) is None,
            strs(rep_fields@) == edge_fields(true),
            fu == unexpected_edge_step(language@, *expected, wk, reported@),
            wk == keys(want@),
            forall|k: int| 0 <= k < got@.len() ==> (#[trigger] got@[k])@.len() == 3,
            forall|k: int| 0 <= k < gk.len() ==> last_with(reported@, edge_fields(true), #[trigger] gk[k]) is Some,
            tally.wf(),
            room1 >= 5 * got@.len(),
            has_room(tally@, room1 - 5 * j),
            in_step(gk.take(j as int).fold_left(s1, fu), tally@, texts(findings@)),
        decreases got@.len() - j,
    {
        let ghost cur = gk.take(j as int).fold_left(s1, fu);
        proof {
            let t = gk.take(j + 1);
            assert(t.drop_last() == gk.take(j as int));
            assert(t.last() == words(got@[j as int]@));
            assert(gk[j as int] == words(got@[j as int]@));
        }
        let w = &got[j];
        if crate::order::contains_key(&want, w) || !scoped_exec(expected, &w[1]) {
            proof {
                lemma_room_mono(tally@, room1 - 5 * j, room1 - 5 * (j + 1));
            }
        } else {
            let gi = match last_with_exec(reported, rep_fields.as_slice(), w) {
                Some(k) => k,
                None => {
                    return Ok(tiers);
                },
            };
            let g = &reported[gi];
            let tier = tier_exec(g);
            let slices = edge_slices_exec(language, w[1].as_str(), tier.as_str());
            let mut finding = edge_label_exec("unexpected edge ", w);
            push_text(&mut finding, " (tier ");
            let rep = value_repr_exec(g.get("reason"));
            push_text(&mut finding, rep.as_str());
            push_text(&mut finding, ")");
            emit_exec(tally, findings, Outcome::Fp, &slices, Some(finding), Ghost(cur), Ghost(room1 - 5 * j));
        }
        j = j + 1;
    }
    proof {
        assert(gk.take(got@.len() as int) == gk);
    }
    let ghost s2 = gk.fold_left(s1, fu);
    let ghost room2 = room1 - 5 * got@.len();
    let forbidden = expected.items("forbidden_edges");
    let ghost ff = forbidden_edge_step(language@, reported@);
    proof {
        assert(edges_section(st, *expected, *produced, language@).0 == forbidden@.fold_left(s2, ff));
    }
    let mut k: usize = 0;
    while k < forbidden.len()
        invariant
            0 <= k <= forbidden@.len(),
            forbidden@ == items(*expected, "forbidden_edges"@),
            reported@ == items(*produced, "edges"@),
            first_fault(reported@, edge_fields(true), "edge"@) is None,
            strs(decl_fields@) == edge_fields(false),
            strs(rep_fields@) == edge_fields(true),
            ff == forbidden_edge_step(language@, reported@),
            edges_section(st, *expected, *produced, language@).0 == forbidden@.fold_left(s2, ff),
            tally.wf(),
            room2 >= 5 * forbidden@.len(),
            room2 - 5 * k >= room - 5 * bound + 5 * (forbidden@.len() - k),
            room >= 5 * bound,
            bound == edges_bound(*expected, *produced),
            has_room(tally@, room2 - 5 * k),
            in_step(forbidden@.take(k as int).fold_left(s2, ff), tally@, texts(findings@)),
        decreases forbidden@.len() - k,
    {
        let ghost cur = forbidden@.take(k as int).fold_left(s2, ff);
        proof {
            let t = forbidden@.take(k + 1);
            assert(t.drop_last() == forbidden@.take(k as int));
            assert(t.last() == forbidden@[k as int]);
        }
        let w = match record_exec(&forbidden[k], decl_fields.as_slice(), "edge") {
            Ok(w) => w,
            Err(e) => {
                proof {
                    let failed = ff(cur, forbidden@[k as int]);
                    assert(failed.error is Some);
                    assert(forbidden@.take(k + 1).fold_left(s2, ff) == failed);
                    assert forall|s: ScoreState, x: JsonValue| s.error is Some implies #[trigger] ff(s, x) == s by {}
                    let rest = forbidden@.subrange(k + 1, forbidden@.len() as int);
                    lemma_fold_failed(rest, failed, ff);
                    assert(forbidden@.subrange(0, k + 1) == forbidden@.take(k + 1));
                    forbidden@.lemma_fold_left_split(s2, ff, k + 1);
                    assert(forbidden@.fold_left(s2, ff) == failed);
                    lemma_room_mono(tally@, room2 - 5 * k, room - 5 * bound);
                }
                return Err(e);
            },
        };
        proof {
            assert(words(w@).len() == 3);
        }
        match last_with_exec(reported, rep_fields.as_slice(), &w) {
            Some(gi) => {
                let g = &reported[gi];
                let tier = tier_exec(g);
                let slices = edge_slices_exec(language, w[1].as_str(), tier.as_str());
                let finding = edge_label_exec("forbidden edge emitted: ", &w);
                emit_exec(tally, findings, Outcome::Fp, &slices, Some(finding), Ghost(cur), Ghost(room2 - 5 * k));
            },
            None => {
                let mut slices: Vec<(String, String)> = Vec::new();
                slices.push(slice("language", language));
                slices.push(slice("relation", w[1].as_str()));
                slices.push(slice("axis_kind", "edge"));
                proof {
                    assert(pairs(slices@) =~= seq![("language"@, language@), ("relation"@, words(w@)[1]), ("axis_kind"@, "edge"@)]);
                }
                emit_exec(tally, findings, Outcome::Tp, &slices, None, Ghost(cur), Ghost(room2 - 5 * k));
            },
        }
        k = k + 1;
    }
    proof {
        assert(forbidden@.take(forbidden@.len() as int) == forbidden@);
        lemma_room_mono(tally@, room2 - 5 * forbidden@.len(), room - 5 * bound);
    }
    Ok(tiers)
}

} // verus!
