//! Metamorphic comparison: a declared relation between two producer observations.
use vstd::prelude::*;
use crate::case::{first_fault, records_of, identity_fields, edge_fields, is_text, records_exec, strs, texts};
use crate::error::CorpusError;
use crate::json::{JsonValue, get_str, get_string, items};
use crate::order::{keys, words, sorted_set, sorted_list, absent_in, present_in, minus, meet, to_sorted_set, sort_list, lists_equal, lemma_sorted_set_arity};
use crate::report::{last_named, last_named_exec};
use crate::text::{push_text, debug_str, str_debug, decimal, count_string};
use crate::verdict::joined;

verus! {

/// The field that names a node.
pub open spec fn name_field() -> Seq<Seq<char>> {
    seq!["name"@]
}

/// The `(object_type, name)` records of the nodes, sorted, repeats kept.
pub open spec fn node_records(payload: JsonValue) -> Seq<Seq<Seq<char>>> {
    sorted_list(records_of(items(payload, "nodes"@), identity_fields()))
}

/// The `(source_ref, edge_type, target_ref)` records of the edges, sorted, repeats kept.
pub open spec fn edge_records(payload: JsonValue) -> Seq<Seq<Seq<char>>> {
    sorted_list(records_of(items(payload, "edges"@), edge_fields(true)))
}

/// The first node lacking `object_type` or `name`.
pub open spec fn node_fault(payload: JsonValue) -> Option<Seq<char>> {
    first_fault(items(payload, "nodes"@), identity_fields(), "node"@)
}

/// The first edge lacking one of its three fields.
pub open spec fn edge_fault(payload: JsonValue) -> Option<Seq<char>> {
    first_fault(items(payload, "edges"@), edge_fields(true), "edge"@)
}

/// The first node lacking a `name`.
pub open spec fn name_fault(payload: JsonValue) -> Option<Seq<char>> {
    first_fault(items(payload, "nodes"@), name_field(), "node"@)
}

/// Whether the specification exempts `name` from comparison.
pub open spec fn exempt(specification: JsonValue, name: Seq<char>) -> bool {
    exists|i: int|
        0 <= i < items(specification, "except_names"@).len()
            && is_text(#[trigger] items(specification, "except_names"@)[i], name)
}

/// A node record outside the changed names.
pub open spec fn keep_node(specification: JsonValue) -> spec_fn(Seq<Seq<char>>) -> bool {
    |w: Seq<Seq<char>>| !exempt(specification, w[1])
}

/// An edge record with neither end among the changed names.
pub open spec fn keep_edge(specification: JsonValue) -> spec_fn(Seq<Seq<char>>) -> bool {
    |w: Seq<Seq<char>>| !exempt(specification, w[0]) && !exempt(specification, w[2])
}

/// The members of either set but not both, ascending.
pub open spec fn sym_diff(a: Seq<Seq<Seq<char>>>, b: Seq<Seq<Seq<char>>>) -> Seq<Seq<Seq<char>>> {
    sorted_set(a.filter(absent_in(b)) + b.filter(absent_in(a)))
}

/// The first `n` members, or all when there are fewer.
pub open spec fn first_n<T>(s: Seq<T>, n: nat) -> Seq<T> {
    if s.len() <= n {
        s
    } else {
        s.take(n as int)
    }
}

/// How `{:?}` prints a pair of strings.
pub open spec fn pair_debug(w: Seq<Seq<char>>) -> Seq<char> {
    "("@ + str_debug(w[0]) + ", "@ + str_debug(w[1]) + ")"@
}

/// How `{:?}` prints a list of pairs of strings.
pub open spec fn pairs_debug(ws: Seq<Seq<Seq<char>>>) -> Seq<char> {
    "["@ + joined(ws.map_values(|w: Seq<Seq<char>>| pair_debug(w))) + "]"@
}

/// How `{:?}` prints a list of strings held as one-field records.
pub open spec fn names_debug(ws: Seq<Seq<Seq<char>>>) -> Seq<char> {
    "["@ + joined(ws.map_values(|w: Seq<Seq<char>>| str_debug(w[0]))) + "]"@
}

/// The finding when two extractions that must agree do not.
pub open spec fn identical_finding() -> Seq<char> {
    "the two extractions disagree, and the input difference between them is not one the records may depend on"@
}

/// The finding when records outside the changed names differ.
pub open spec fn records_differ_finding(a: Seq<Seq<Seq<char>>>, b: Seq<Seq<Seq<char>>>) -> Seq<char> {
    "records outside the changed file differ between the two runs: "@ + pairs_debug(
        first_n(sym_diff(sorted_set(a), sorted_set(b)), 4),
    )
}

/// The finding when edges outside the changed names differ.
pub open spec fn edges_differ_finding() -> Seq<char> {
    "edges outside the changed file differ between the two runs"@
}

/// One name of the first run against the second: absent, or with another identifier.
pub open spec fn id_step(first: Seq<JsonValue>, second: Seq<JsonValue>) -> spec_fn(Seq<Seq<char>>, Seq<Seq<char>>) -> Seq<Seq<char>> {
    |acc: Seq<Seq<char>>, w: Seq<Seq<char>>| match last_named(second, w[0]) {
        None => acc.push(w[0] + " is absent from the second run"@),
        Some(after) => if get_str(last_named(first, w[0]).unwrap(), "id"@) != get_str(after, "id"@) {
            acc.push(w[0] + " changed identifier between the two runs; a node that moves is a modification, never a delete plus an add"@)
        } else {
            acc
        },
    }
}

/// The names of a run's nodes, ascending, each once.
pub open spec fn name_set(payload: JsonValue) -> Seq<Seq<Seq<char>>> {
    sorted_set(records_of(items(payload, "nodes"@), name_field()))
}

/// Every name of the first run, in order, checked against the second.
pub open spec fn ids_findings(first: JsonValue, second: JsonValue) -> Seq<Seq<char>> {
    name_set(first).fold_left(seq![], id_step(items(first, "nodes"@), items(second, "nodes"@)))
}

/// The names both runs hold, when there are any.
pub open spec fn disjoint_findings(first: JsonValue, second: JsonValue) -> Seq<Seq<char>> {
    let shared = name_set(first).filter(present_in(name_set(second)));
    if shared.len() == 0 {
        seq![]
    } else {
        seq![
            decimal(shared.len()) + " name(s) appear under both orgs, so two repositories collide in one graph: "@
                + names_debug(first_n(shared, 3)),
        ]
    }
}

/// What `compare_runs` gives: the findings, or the error of the first malformed record.
pub open spec fn relation_outcome(relation: Seq<char>, first: JsonValue, second: JsonValue, specification: JsonValue) -> Result<
    Seq<Seq<char>>,
    Seq<char>,
> {
    if relation == "identical"@ {
        match node_fault(first) {
            Some(e) => Err(e),
            None => match edge_fault(first) {
                Some(e) => Err(e),
                None => match node_fault(second) {
                    Some(e) => Err(e),
                    None => match edge_fault(second) {
                        Some(e) => Err(e),
                        None => Ok(
                            if node_records(first) == node_records(second) && edge_records(first) == edge_records(second) {
                                seq![]
                            } else {
                                seq![identical_finding()]
                            },
                        ),
                    },
                },
            },
        }
    } else if relation == "identical_except"@ {
        match node_fault(first) {
            Some(e) => Err(e),
            None => match node_fault(second) {
                Some(e) => Err(e),
                None => {
                    let a = node_records(first).filter(keep_node(specification));
                    let b = node_records(second).filter(keep_node(specification));
                    let part = if a == b {
                        seq![]
                    } else {
                        seq![records_differ_finding(a, b)]
                    };
                    match edge_fault(first) {
                        Some(e) => Err(e),
                        None => match edge_fault(second) {
                            Some(e) => Err(e),
                            None => Ok(
                                if edge_records(first).filter(keep_edge(specification)) == edge_records(second).filter(
                                    keep_edge(specification),
                                ) {
                                    part
                                } else {
                                    part.push(edges_differ_finding())
                                },
                            ),
                        },
                    }
                },
            },
        }
    } else if relation == "ids_preserved"@ {
        match name_fault(first) {
            Some(e) => Err(e),
            None => match name_fault(second) {
                Some(e) => Err(e),
                None => Ok(ids_findings(first, second)),
            },
        }
    } else if relation == "disjoint_names"@ {
        match name_fault(first) {
            Some(e) => Err(e),
            None => match name_fault(second) {
                Some(e) => Err(e),
                None => Ok(disjoint_findings(first, second)),
            },
        }
    } else {
        Ok(seq!["unknown relation "@ + str_debug(relation)])
    }
}

// ---------------------------------------------------------------------------

fn exempt_exec(specification: &JsonValue, name: &String) -> (r: bool)
    ensures
        r == exempt(*specification, name@),
{
    let names = specification.items("except_names");
    let mut i: usize = 0;
    while i < names.len()
        invariant
            names@ == items(*specification, "except_names"@),
            0 <= i <= names@.len(),
            forall|k: int| 0 <= k < i ==> !is_text(#[trigger] names@[k], name@),
        decreases names@.len() - i,
    {
        match &names[i] {
            JsonValue::Str(s) => {
                if *s == *name {
                    return true;
                }
            },
            _ => {},
        }
        i = i + 1;
    }
    false
}

/// The records kept by `keep_node` (`edges` false) or `keep_edge` (`edges` true), in order.
fn keep_exec(list: &Vec<Vec<String>>, specification: &JsonValue, edges: bool) -> (r: Vec<Vec<String>>)
    requires
        forall|k: int| 0 <= k < list@.len() ==> (#[trigger] list@[k])@.len() == if edges { 3nat } else { 2nat },
    ensures
        keys(r@) == keys(list@).filter(if edges { keep_edge(*specification) } else { keep_node(*specification) }),
{
    let ghost f = if edges { keep_edge(*specification) } else { keep_node(*specification) };
    let mut out: Vec<Vec<String>> = Vec::new();
    let mut i: usize = 0;
    while i < list.len()
        invariant
            0 <= i <= list@.len(),
            f == if edges { keep_edge(*specification) } else { keep_node(*specification) },
            forall|k: int| 0 <= k < list@.len() ==> (#[trigger] list@[k])@.len() == if edges { 3nat } else { 2nat },
            keys(out@) == keys(list@).take(i as int).filter(f),
        decreases list@.len() - i,
    {
        proof {
            let t = keys(list@).take(i + 1);
            assert(t.drop_last() == keys(list@).take(i as int));
            assert(t.last() == words(list@[i as int]@));
            reveal_with_fuel(Seq::filter, 1);
        }
        let w = &list[i];
        let keep = if edges {
            !exempt_exec(specification, &w[0]) && !exempt_exec(specification, &w[2])
        } else {
            !exempt_exec(specification, &w[1])
        };
        if keep {
            let ghost before = out@;
            out.push(crate::order::copy_words(w));
            proof {
                assert(keys(out@) =~= keys(before).push(words(w@)));
            }
        }
        i = i + 1;
    }
    proof {
        assert(keys(list@).take(list@.len() as int) == keys(list@));
    }
    out
}

fn pairs_debug_exec(ws: &Vec<Vec<String>>, n: usize) -> (r: String)
    requires
        forall|k: int| 0 <= k < ws@.len() ==> (#[trigger] ws@[k])@.len() == 2,
    ensures
        r@ == pairs_debug(first_n(keys(ws@), n as nat)),
{
    let ghost shown = first_n(keys(ws@), n as nat);
    let ghost parts = shown.map_values(|w: Seq<Seq<char>>| pair_debug(w));
    let mut out = "[".to_owned();
    let mut i: usize = 0;
    while i < ws.len() && i < n
        invariant
            0 <= i <= ws@.len(),
            i <= n,
            shown == first_n(keys(ws@), n as nat),
            parts == shown.map_values(|w: Seq<Seq<char>>| pair_debug(w)),
            forall|k: int| 0 <= k < ws@.len() ==> (#[trigger] ws@[k])@.len() == 2,
            out@ == "["@ + joined(parts.take(i as int)),
        decreases ws@.len() - i,
    {
        proof {
            let t = parts.take(i + 1);
            assert(t.drop_last() == parts.take(i as int));
            assert(t.last() == parts[i as int]);
            if i == 0 {
                assert(t.len() == 1 && t[0] == parts[0]);
            }
            assert(shown[i as int] == words(ws@[i as int]@));
        }
        if i > 0 {
            push_text(&mut out, ", ");
        }
        let w = &ws[i];
        push_text(&mut out, "(");
        let a = debug_str(w[0].as_str());
        push_text(&mut out, a.as_str());
        push_text(&mut out, ", ");
        let b = debug_str(w[1].as_str());
        push_text(&mut out, b.as_str());
        push_text(&mut out, ")");
        proof {
            assert(out@ =~= "["@ + joined(parts.take(i + 1)));
        }
        i = i + 1;
    }
    push_text(&mut out, "]");
    proof {
        assert(parts.take(i as int) == parts);
    }
    out
}

fn names_debug_exec(ws: &Vec<Vec<String>>, n: usize) -> (r: String)
    requires
        forall|k: int| 0 <= k < ws@.len() ==> (#[trigger] ws@[k])@.len() == 1,
    ensures
        r@ == names_debug(first_n(keys(ws@), n as nat)),
{
    let ghost shown = first_n(keys(ws@), n as nat);
    let ghost parts = shown.map_values(|w: Seq<Seq<char>>| str_debug(w[0]));
    let mut out = "[".to_owned();
    let mut i: usize = 0;
    while i < ws.len() && i < n
        invariant
            0 <= i <= ws@.len(),
            i <= n,
            shown == first_n(keys(ws@), n as nat),
            parts == shown.map_values(|w: Seq<Seq<char>>| str_debug(w[0])),
            forall|k: int| 0 <= k < ws@.len() ==> (#[trigger] ws@[k])@.len() == 1,
            out@ == "["@ + joined(parts.take(i as int)),
        decreases ws@.len() - i,
    {
        proof {
            let t = parts.take(i + 1);
            assert(t.drop_last() == parts.take(i as int));
            assert(t.last() == parts[i as int]);
            if i == 0 {
                assert(t.len() == 1 && t[0] == parts[0]);
            }
            assert(shown[i as int] == words(ws@[i as int]@));
        }
        if i > 0 {
            push_text(&mut out, ", ");
        }
        let w = &ws[i];
        let a = debug_str(w[0].as_str());
        push_text(&mut out, a.as_str());
        proof {
            assert(out@ =~= "["@ + joined(parts.take(i + 1)));
        }
        i = i + 1;
    }
    push_text(&mut out, "]");
    proof {
        assert(parts.take(i as int) == parts);
    }
    out
}

/// Every member of a filtered sequence keeps the arity the sequence's members have.
proof fn lemma_filter_keeps_arity(s: Seq<Seq<Seq<char>>>, f: spec_fn(Seq<Seq<char>>) -> bool, n: nat)
    requires
        forall|k: int| 0 <= k < s.len() ==> (#[trigger] s[k]).len() == n,
    ensures
        forall|k: int| 0 <= k < s.filter(f).len() ==> (#[trigger] s.filter(f)[k]).len() == n,
{
    assert forall|k: int| 0 <= k < s.filter(f).len() implies (#[trigger] s.filter(f)[k]).len() == n by {
        s.lemma_filter_contains_rev(f, s.filter(f)[k]);
        assert(s.filter(f).contains(s.filter(f)[k]));
    }
}

/// Every member of a sorted list built from records of `n` fields has `n` fields.
proof fn lemma_sorted_list_arity(list: Seq<Seq<Seq<char>>>, n: nat)
    requires
        forall|k: int| 0 <= k < list.len() ==> (#[trigger] list[k]).len() == n,
    ensures
        forall|k: int| 0 <= k < sorted_list(list).len() ==> (#[trigger] sorted_list(list)[k]).len() == n,
    decreases list.len(),
{
    if list.len() > 0 {
        lemma_sorted_list_arity(list.drop_last(), n);
        lemma_ins_sorted_arity(sorted_list(list.drop_last()), list.last(), n);
    }
}

proof fn lemma_ins_sorted_arity(s: Seq<Seq<Seq<char>>>, x: Seq<Seq<char>>, n: nat)
    requires
        forall|k: int| 0 <= k < s.len() ==> (#[trigger] s[k]).len() == n,
        x.len() == n,
    ensures
        forall|k: int| 0 <= k < crate::order::ins_sorted(s, x).len() ==> (#[trigger] crate::order::ins_sorted(s, x)[k]).len() == n,
    decreases s.len(),
{
    if s.len() > 0 && crate::order::words_lt(s[0], x) {
        let t = s.drop_first();
        assert forall|k: int| 0 <= k < t.len() implies (#[trigger] t[k]).len() == n by {
            assert(t[k] == s[k + 1]);
        }
        lemma_ins_sorted_arity(t, x, n);
        let r = seq![s[0]] + crate::order::ins_sorted(t, x);
        assert forall|k: int| 0 <= k < r.len() implies (#[trigger] r[k]).len() == n by {
            if k > 0 {
                assert(r[k] == crate::order::ins_sorted(t, x)[k - 1]);
            }
        }
    } else if s.len() > 0 {
        let r = seq![x] + s;
        assert forall|k: int| 0 <= k < r.len() implies (#[trigger] r[k]).len() == n by {
            if k > 0 {
                assert(r[k] == s[k - 1]);
            }
        }
    }
}

proof fn lemma_records_len(values: Seq<JsonValue>, fields: Seq<Seq<char>>)
    ensures
        forall|k: int| 0 <= k < records_of(values, fields).len() ==> (#[trigger] records_of(values, fields)[k]).len() == fields.len(),
{
}

/// Every key view of `n` fields comes from a vector of `n` strings.
proof fn lemma_keys_arity(v: Seq<Vec<String>>, n: nat)
    requires
        forall|k: int| 0 <= k < keys(v).len() ==> (#[trigger] keys(v)[k]).len() == n,
    ensures
        forall|k: int| 0 <= k < v.len() ==> (#[trigger] v[k])@.len() == n,
{
    assert forall|k: int| 0 <= k < v.len() implies (#[trigger] v[k])@.len() == n by {
        assert(keys(v)[k] == words(v[k]@));
    }
}


/// A name some node carries has a last holder.
proof fn lemma_last_named_found(nodes: Seq<JsonValue>, name: Seq<char>, m: int)
    requires
        0 <= m < nodes.len(),
        get_str(nodes[m], "name"@) == Some(name),
    ensures
        last_named(nodes, name) is Some,
    decreases nodes.len(),
{
    if get_str(nodes.last(), "name"@) != Some(name) {
        assert(m < nodes.len() - 1);
        assert(nodes.drop_last()[m] == nodes[m]);
        lemma_last_named_found(nodes.drop_last(), name, m);
    }
}

/// Every name in the name set of fault-free nodes belongs to some node.
pub(crate) proof fn lemma_name_set_found(nodes: Seq<JsonValue>, k: int)
    requires
        first_fault(nodes, name_field(), "node"@) is None,
        0 <= k < sorted_set(records_of(nodes, name_field())).len(),
    ensures
        sorted_set(records_of(nodes, name_field()))[k].len() == 1,
        last_named(nodes, sorted_set(records_of(nodes, name_field()))[k][0]) is Some,
{
    let list = records_of(nodes, name_field());
    crate::order::lemma_sorted_set(list);
    let w = sorted_set(list)[k];
    assert(sorted_set(list).to_set().contains(w));
    assert(list.to_set().contains(w));
    let m = choose|m: int| 0 <= m < list.len() && list[m] == w;
    crate::case::lemma_fault_free_member(nodes, name_field(), "node"@, m);
    crate::case::lemma_field_fault_none(nodes[m], name_field(), "node"@);
    assert(name_field()[0] == "name"@);
    assert(get_str(nodes[m], "name"@) is Some);
    assert(w[0] == get_str(nodes[m], "name"@).unwrap());
    lemma_last_named_found(nodes, w[0], m);
}

fn concat_records(a: &Vec<Vec<String>>, b: &Vec<Vec<String>>) -> (r: Vec<Vec<String>>)
    ensures
        keys(r@) == keys(a@) + keys(b@),
{
    let mut out: Vec<Vec<String>> = Vec::new();
    let mut i: usize = 0;
    while i < a.len()
        invariant
            0 <= i <= a@.len(),
            keys(out@) == keys(a@).take(i as int),
        decreases a@.len() - i,
    {
        let ghost before = out@;
        out.push(crate::order::copy_words(&a[i]));
        proof {
            assert(keys(out@) =~= keys(before).push(words(a@[i as int]@)));
            assert(keys(a@).take(i + 1) =~= keys(a@).take(i as int).push(words(a@[i as int]@)));
        }
        i = i + 1;
    }
    let mut j: usize = 0;
    while j < b.len()
        invariant
            0 <= j <= b@.len(),
            keys(out@) == keys(a@) + keys(b@).take(j as int),
        decreases b@.len() - j,
    {
        proof {
            assert(keys(a@).take(a@.len() as int) == keys(a@));
        }
        let ghost before = out@;
        out.push(crate::order::copy_words(&b[j]));
        proof {
            assert(keys(out@) =~= keys(before).push(words(b@[j as int]@)));
            assert(keys(b@).take(j + 1) =~= keys(b@).take(j as int).push(words(b@[j as int]@)));
            assert(keys(out@) =~= keys(a@) + keys(b@).take(j + 1));
        }
        j = j + 1;
    }
    proof {
        assert(keys(b@).take(b@.len() as int) == keys(b@));
        assert(keys(a@).take(a@.len() as int) == keys(a@));
    }
    out
}

fn identical_exec(first: &JsonValue, second: &JsonValue) -> (r: Result<Vec<String>, CorpusError>)
    ensures
        match relation_outcome("identical"@, *first, *second, JsonValue::Null) {
            Ok(fs) => r matches Ok(v) && texts(v@) == fs,
            Err(e) => r matches Err(CorpusError::Invariant(m)) && m@ == e,
        },
{
    let nf: [&str; 2] = ["object_type", "name"];
    let ef: [&str; 3] = ["source_ref", "edge_type", "target_ref"];
    proof {
        assert(strs(nf@) =~= identity_fields());
        assert(strs(ef@) =~= edge_fields(true));
    }
    let n1 = records_exec(first.items("nodes"), nf.as_slice(), "node")?;
    let e1 = records_exec(first.items("edges"), ef.as_slice(), "edge")?;
    let n2 = records_exec(second.items("nodes"), nf.as_slice(), "node")?;
    let e2 = records_exec(second.items("edges"), ef.as_slice(), "edge")?;
    let same = lists_equal(&sort_list(&n1), &sort_list(&n2)) && lists_equal(&sort_list(&e1), &sort_list(&e2));
    let mut out: Vec<String> = Vec::new();
    if !same {
        out.push("the two extractions disagree, and the input difference between them is not one the records may depend on".to_owned());
    }
    proof {
        assert(relation_outcome("identical"@, *first, *second, JsonValue::Null) matches Ok(fs) && fs =~= texts(out@));
    }
    Ok(out)
}

fn ids_exec(first: &JsonValue, second: &JsonValue) -> (r: Result<Vec<String>, CorpusError>)
    ensures
        match relation_outcome("ids_preserved"@, *first, *second, JsonValue::Null) {
            Ok(fs) => r matches Ok(v) && texts(v@) == fs,
            Err(e) => r matches Err(CorpusError::Invariant(m)) && m@ == e,
        },
{
    proof {
        reveal_strlit("identical");
        reveal_strlit("identical_except");
        reveal_strlit("ids_preserved");
        reveal_strlit("disjoint_names");
        assert("identical"@.len() == 9);
        assert("identical_except"@.len() == 16);
        assert("ids_preserved"@.len() == 13);
        assert("disjoint_names"@.len() == 14);
    }
    let nf: [&str; 1] = ["name"];
    proof {
        assert(strs(nf@) =~= name_field());
    }
    let first_nodes = first.items("nodes");
    let second_nodes = second.items("nodes");
    let names1 = records_exec(first_nodes, nf.as_slice(), "node")?;
    let _names2 = records_exec(second_nodes, nf.as_slice(), "node")?;
    let set1 = to_sorted_set(&names1);
    let ghost sk = keys(set1@);
    let ghost f = id_step(first_nodes@, second_nodes@);
    proof {
        assert(sk == name_set(*first));
    }
    let mut out: Vec<String> = Vec::new();
    let mut i: usize = 0;
    while i < set1.len()
        invariant
            0 <= i <= set1@.len(),
            sk == keys(set1@),
            sk == name_set(*first),
            first_nodes@ == items(*first, "nodes"@),
            second_nodes@ == items(*second, "nodes"@),
            first_fault(first_nodes@, name_field(), "node"@) is None,
            f == id_step(first_nodes@, second_nodes@),
            texts(out@) == sk.take(i as int).fold_left(seq![], f),
        decreases set1@.len() - i,
    {
        proof {
            let t = sk.take(i + 1);
            assert(t.drop_last() == sk.take(i as int));
            assert(t.last() == sk[i as int]);
            lemma_name_set_found(first_nodes@, i as int);
            assert(sk[i as int] == words(set1@[i as int]@));
        }
        let w = &set1[i];
        let name = &w[0];
        let ghost before = texts(out@);
        match last_named_exec(second_nodes, name) {
            None => {
                let mut finding = name.clone();
                push_text(&mut finding, " is absent from the second run");
                out.push(finding);
                proof {
                    assert(texts(out@) =~= before.push(finding@));
                }
            },
            Some(j) => {
                match last_named_exec(first_nodes, name) {
                    Some(k) => {
                        let a = get_string(&first_nodes[k], "id");
                        let b = get_string(&second_nodes[j], "id");
                        let same = match (&a, &b) {
                            (Some(x), Some(y)) => *x == *y,
                            (None, None) => true,
                            _ => false,
                        };
                        if !same {
                            let mut finding = name.clone();
                            push_text(&mut finding, " changed identifier between the two runs; a node that moves is a modification, never a delete plus an add");
                            out.push(finding);
                            proof {
                                assert(texts(out@) =~= before.push(finding@));
                            }
                        }
                    },
                    None => {},
                }
            },
        }
        i = i + 1;
    }
    proof {
        assert(sk.take(set1@.len() as int) == sk);
    }
    Ok(out)
}

fn disjoint_exec(first: &JsonValue, second: &JsonValue) -> (r: Result<Vec<String>, CorpusError>)
    ensures
        match relation_outcome("disjoint_names"@, *first, *second, JsonValue::Null) {
            Ok(fs) => r matches Ok(v) && texts(v@) == fs,
            Err(e) => r matches Err(CorpusError::Invariant(m)) && m@ == e,
        },
{
    proof {
        reveal_strlit("identical");
        reveal_strlit("identical_except");
        reveal_strlit("ids_preserved");
        reveal_strlit("disjoint_names");
        assert("identical"@.len() == 9);
        assert("identical_except"@.len() == 16);
        assert("ids_preserved"@.len() == 13);
        assert("disjoint_names"@.len() == 14);
    }
    let nf: [&str; 1] = ["name"];
    proof {
        assert(strs(nf@) =~= name_field());
    }
    let names1 = records_exec(first.items("nodes"), nf.as_slice(), "node")?;
    let names2 = records_exec(second.items("nodes"), nf.as_slice(), "node")?;
    let set1 = to_sorted_set(&names1);
    let set2 = to_sorted_set(&names2);
    let shared = meet(&set1, &set2);
    proof {
        lemma_records_len(items(*first, "nodes"@), name_field());
        lemma_sorted_set_arity(keys(names1@), 1);
        lemma_filter_keeps_arity(keys(set1@), present_in(keys(set2@)), 1);
        lemma_keys_arity(shared@, 1);
    }
    let mut out: Vec<String> = Vec::new();
    if shared.len() > 0 {
        let mut finding = count_string(shared.len());
        push_text(&mut finding, " name(s) appear under both orgs, so two repositories collide in one graph: ");
        let shown = names_debug_exec(&shared, 3);
        push_text(&mut finding, shown.as_str());
        out.push(finding);
    }
    proof {
        assert(relation_outcome("disjoint_names"@, *first, *second, JsonValue::Null) matches Ok(fs) && fs =~= texts(out@));
    }
    Ok(out)
}

fn except_exec(first: &JsonValue, second: &JsonValue, specification: &JsonValue) -> (r: Result<Vec<String>, CorpusError>)
    ensures
        match relation_outcome("identical_except"@, *first, *second, *specification) {
            Ok(fs) => r matches Ok(v) && texts(v@) == fs,
            Err(e) => r matches Err(CorpusError::Invariant(m)) && m@ == e,
        },
{
    proof {
        reveal_strlit("identical");
        reveal_strlit("identical_except");
        reveal_strlit("ids_preserved");
        reveal_strlit("disjoint_names");
        assert("identical"@.len() == 9);
        assert("identical_except"@.len() == 16);
        assert("ids_preserved"@.len() == 13);
        assert("disjoint_names"@.len() == 14);
    }
    let nf: [&str; 2] = ["object_type", "name"];
    let ef: [&str; 3] = ["source_ref", "edge_type", "target_ref"];
    proof {
        assert(strs(nf@) =~= identity_fields());
        assert(strs(ef@) =~= edge_fields(true));
    }
    let n1 = records_exec(first.items("nodes"), nf.as_slice(), "node")?;
    let n2 = records_exec(second.items("nodes"), nf.as_slice(), "node")?;
    let s1 = sort_list(&n1);
    let s2 = sort_list(&n2);
    proof {
        lemma_records_len(items(*first, "nodes"@), identity_fields());
        lemma_records_len(items(*second, "nodes"@), identity_fields());
        lemma_sorted_list_arity(keys(n1@), 2);
        lemma_sorted_list_arity(keys(n2@), 2);
        lemma_keys_arity(s1@, 2);
        lemma_keys_arity(s2@, 2);
    }
    let a = keep_exec(&s1, specification, false);
    let b = keep_exec(&s2, specification, false);
    let mut out: Vec<String> = Vec::new();
    if !lists_equal(&a, &b) {
        let sa = to_sorted_set(&a);
        let sb = to_sorted_set(&b);
        let only_a = minus(&sa, &sb);
        let only_b = minus(&sb, &sa);
        let both = concat_records(&only_a, &only_b);
        let sym = to_sorted_set(&both);
        proof {
            lemma_filter_keeps_arity(keys(s1@), keep_node(*specification), 2);
            lemma_filter_keeps_arity(keys(s2@), keep_node(*specification), 2);
            lemma_sorted_set_arity(keys(a@), 2);
            lemma_sorted_set_arity(keys(b@), 2);
            lemma_filter_keeps_arity(keys(sa@), absent_in(keys(sb@)), 2);
            lemma_filter_keeps_arity(keys(sb@), absent_in(keys(sa@)), 2);
            assert forall|k: int| 0 <= k < keys(both@).len() implies (#[trigger] keys(both@)[k]).len() == 2 by {
                if k < keys(only_a@).len() {
                    assert(keys(both@)[k] == keys(only_a@)[k]);
                } else {
                    assert(keys(both@)[k] == keys(only_b@)[k - keys(only_a@).len()]);
                }
            }
            lemma_sorted_set_arity(keys(both@), 2);
            lemma_keys_arity(sym@, 2);
        }
        let mut finding = "records outside the changed file differ between the two runs: ".to_owned();
        let shown = pairs_debug_exec(&sym, 4);
        push_text(&mut finding, shown.as_str());
        out.push(finding);
    }
    let ghost part = texts(out@);
    let e1 = records_exec(first.items("edges"), ef.as_slice(), "edge")?;
    let e2 = records_exec(second.items("edges"), ef.as_slice(), "edge")?;
    let t1 = sort_list(&e1);
    let t2 = sort_list(&e2);
    proof {
        lemma_records_len(items(*first, "edges"@), edge_fields(true));
        lemma_records_len(items(*second, "edges"@), edge_fields(true));
        lemma_sorted_list_arity(keys(e1@), 3);
        lemma_sorted_list_arity(keys(e2@), 3);
        lemma_keys_arity(t1@, 3);
        lemma_keys_arity(t2@, 3);
    }
    let ka = keep_exec(&t1, specification, true);
    let kb = keep_exec(&t2, specification, true);
    if !lists_equal(&ka, &kb) {
        let ghost before = texts(out@);
        out.push("edges outside the changed file differ between the two runs".to_owned());
        proof {
            assert(texts(out@) =~= before.push(edges_differ_finding()));
        }
    }
    proof {
        assert(relation_outcome("identical_except"@, *first, *second, *specification) matches Ok(fs) && fs =~= texts(out@)) by {
            if keys(a@) == keys(b@) {
                assert(part =~= seq![]);
            } else {
                assert(part =~= seq![records_differ_finding(keys(a@), keys(b@))]);
            }
        }
    }
    Ok(out)
}

/// Evaluate a declared relation between two producer observations.
///
/// `identical`: the sorted node and edge records agree. `identical_except`:
/// they agree outside the names the specification lists under `except_names`.
/// `ids_preserved`: every node name of the first run keeps its `id` in the
/// second. `disjoint_names`: no name is shared. Any other relation is a
/// finding of its own.
pub fn compare_runs(relation: &str, first: &JsonValue, second: &JsonValue, specification: &JsonValue) -> (r: Result<
    Vec<String>,
    CorpusError,
>)
    ensures
        match relation_outcome(relation@, *first, *second, *specification) {
            Ok(fs) => r matches Ok(v) && texts(v@) == fs,
            Err(e) => r matches Err(CorpusError::Invariant(m)) && m@ == e,
        },
{
    let rel = relation.to_owned();
    if rel == "identical".to_owned() {
        identical_exec(first, second)
    } else if rel == "identical_except".to_owned() {
        except_exec(first, second, specification)
    } else if rel == "ids_preserved".to_owned() {
        ids_exec(first, second)
    } else if rel == "disjoint_names".to_owned() {
        disjoint_exec(first, second)
    } else {
        let mut finding = "unknown relation ".to_owned();
        let shown = debug_str(relation);
        push_text(&mut finding, shown.as_str());
        let mut out: Vec<String> = Vec::new();
        out.push(finding);
        proof {
            assert(texts(out@) =~= seq!["unknown relation "@ + str_debug(relation@)]);
        }
        Ok(out)
    }
}

} // verus!
