//! What the library promises across its functions, stated and proved.
use vstd::prelude::*;
use crate::case::{
    ScoreState, nodes_section, repeats_section, records_of, record_of, node_fields, identity_fields, want_edge_effect,
    edge_label, same_member, value_repr,
};
use crate::audit::{
    CaseFacts, PinState, report_matches, declared_keys, inventory_cells, disk_keys, case_keys_view, all_claims,
    unreachable_keys, producer_problems, coverage_problems, singles, unreached_of, labelled, case_problems,
    all_case_problems,
};
use crate::bounds::{ProducerDeclaration, blank};
use crate::bounds::{BoundsReport, Manifest};
use crate::coverage::{CoverageReport, report_problems};
use crate::digest::{FileEntry, entry_view, file_digest, frame};
use crate::json::{JsonValue, get, get_str, items};
use crate::order::{sorted_set, absent_in, lemma_sorted_set, ins_sorted, sorted_list};
use crate::producer::rendered;
use crate::relation::{
    relation_outcome, node_fault, edge_fault, name_fault, name_set, id_step, ids_findings, lemma_name_set_found, exempt,
    node_records, edge_records, keep_node, keep_edge, edges_differ_finding,
};
use crate::report::last_named;
use crate::score::{Counts, Outcome, bump, bump_named, bump_slice, slice_of, tally_add, total_key};
use crate::scoring::{relation_tally, relation_slices};
use crate::verdict::derived_entry;

verus! {

/// A query the case declares and the producer does not answer is not
/// computed: it is never counted as a wrong answer.
pub proof fn law_unanswered_query_is_not_computed(
    expected: JsonValue,
    produced: JsonValue,
    key: Seq<char>,
    payload_key: Seq<char>,
)
    requires
        get(expected, key) is Some,
        get(produced, payload_key) is None,
    ensures
        derived_entry(expected, produced, key, payload_key) == seq![(key, None::<bool>)],
{
}

proof fn lemma_named_keeps_other(
    m: Map<Seq<Seq<char>>, Counts>,
    slices: Seq<(Seq<char>, Seq<char>)>,
    o: Outcome,
    k: Seq<Seq<char>>,
)
    requires
        forall|i: int| 0 <= i < slices.len() ==> seq![(#[trigger] slices[i]).0, slices[i].1] != k,
    ensures
        slice_of(bump_named(m, slices, o), k) == slice_of(m, k),
    decreases slices.len(),
{
    if slices.len() > 0 {
        let init = slices.drop_last();
        assert forall|i: int| 0 <= i < init.len() implies seq![(#[trigger] init[i]).0, init[i].1] != k by {
            assert(init[i] == slices[i]);
        }
        lemma_named_keeps_other(m, init, o, k);
        let last = slices.last();
        assert(seq![last.0, last.1] != k);
    }
}

/// Every outcome a tally adds is counted once in the total, whatever named
/// slices it is also counted in (none of which is the total itself).
pub proof fn law_total_counts_every_outcome(m: Map<Seq<Seq<char>>, Counts>, o: Outcome, slices: Seq<(Seq<char>, Seq<char>)>)
    requires
        forall|i: int| 0 <= i < slices.len() ==> seq![(#[trigger] slices[i]).0, slices[i].1] != total_key(),
    ensures
        slice_of(tally_add(m, o, slices), total_key()) == bump(slice_of(m, total_key()), o),
{
    lemma_named_keeps_other(bump_slice(m, total_key(), o), slices, o, total_key());
}

/// Two identical observations of well-formed records are `identical`: the relation holds.
pub proof fn law_identical_is_reflexive(observation: JsonValue, specification: JsonValue)
    requires
        node_fault(observation) is None,
        edge_fault(observation) is None,
    ensures
        relation_outcome("identical"@, observation, observation, specification) == Ok::<Seq<Seq<char>>, Seq<char>>(seq![]),
{
}

/// Every node keeps its identifier between an observation and itself: `ids_preserved` holds.
pub proof fn law_ids_preserved_is_reflexive(observation: JsonValue)
    requires
        name_fault(observation) is None,
    ensures
        relation_outcome("ids_preserved"@, observation, observation, JsonValue::Null) == Ok::<Seq<Seq<char>>, Seq<char>>(seq![]),
{
    reveal_strlit("identical");
    reveal_strlit("identical_except");
    reveal_strlit("ids_preserved");
    assert("identical"@.len() == 9);
    assert("identical_except"@.len() == 16);
    assert("ids_preserved"@.len() == 13);
    let nodes = crate::json::items(observation, "nodes"@);
    let names = name_set(observation);
    let f = id_step(nodes, nodes);
    assert forall|i: int| 0 <= i <= names.len() implies #[trigger] names.take(i).fold_left(seq![], f) == Seq::<Seq<char>>::empty() by {
        lemma_ids_prefix(observation, i);
    }
    assert(names.take(names.len() as int) =~= names);
}

proof fn lemma_ids_prefix(observation: JsonValue, i: int)
    requires
        name_fault(observation) is None,
        0 <= i <= name_set(observation).len(),
    ensures
        name_set(observation).take(i).fold_left(
            seq![],
            id_step(crate::json::items(observation, "nodes"@), crate::json::items(observation, "nodes"@)),
        ) == Seq::<Seq<char>>::empty(),
    decreases i,
{
    let nodes = crate::json::items(observation, "nodes"@);
    let names = name_set(observation);
    let f = id_step(nodes, nodes);
    if i > 0 {
        lemma_ids_prefix(observation, i - 1);
        let t = names.take(i);
        assert(t.drop_last() =~= names.take(i - 1));
        assert(t.last() == names[i - 1]);
        lemma_name_set_found(nodes, i - 1);
    } else {
        assert(names.take(0) =~= Seq::<Seq<Seq<char>>>::empty());
    }
}

/// An argument template with no opening brace is passed on exactly as written.
pub proof fn law_literal_arguments_stay_literal(t: Seq<char>, org: Seq<char>, repo: Seq<char>, input: Seq<char>)
    requires
        forall|i: int| 0 <= i < t.len() ==> t[i] != '{',
    ensures
        rendered(t, org, repo, input) == t,
    decreases t.len(),
{
    reveal_strlit("{org}");
    reveal_strlit("{repo}");
    reveal_strlit("{input}");
    if t.len() > 0 {
        let rest = t.skip(1);
        assert forall|i: int| 0 <= i < rest.len() implies rest[i] != '{' by {
            assert(rest[i] == t[i + 1]);
        }
        law_literal_arguments_stay_literal(rest, org, repo, input);
        if t.len() >= 5 {
            assert(t.take(5)[0] != "{org}"@[0]);
        }
        if t.len() >= 6 {
            assert(t.take(6)[0] != "{repo}"@[0]);
        }
        if t.len() >= 7 {
            assert(t.take(7)[0] != "{input}"@[0]);
        }
        assert(seq![t[0]] + rest =~= t);
    }
}

/// Two lists of files with the same paths and bytes, in the same order, have the same digest.
pub proof fn law_digest_depends_only_on_content(a: Seq<FileEntry>, b: Seq<FileEntry>)
    requires
        a.map_values(|e: FileEntry| entry_view(e)) == b.map_values(|e: FileEntry| entry_view(e)),
    ensures
        file_digest(a) == file_digest(b),
{
}

/// A coverage report that reconciled nothing always fails.
pub proof fn law_unreconciled_coverage_fails(report: CoverageReport)
    requires
        report.totals.total == 0,
    ensures
        report_problems(report).len() > 0,
{
}

/// A declared case without a fixture is a gap, so the bounds report fails.
pub proof fn law_missing_fixture_is_gap(
    rep: BoundsReport,
    manifest: Manifest,
    cases: Seq<CaseFacts>,
    pins: Seq<PinState>,
    key: Seq<Seq<char>>,
)
    requires
        report_matches(rep, manifest, cases, pins),
        declared_keys(inventory_cells(manifest.inventory@)).contains(key),
        !disk_keys(cases).contains(key),
    ensures
        rep.gap_count > 0,
{
    let missing = declared_keys(inventory_cells(manifest.inventory@)).filter(absent_in(disk_keys(cases)));
    let i = choose|i: int| 0 <= i < declared_keys(inventory_cells(manifest.inventory@)).len()
        && declared_keys(inventory_cells(manifest.inventory@))[i] == key;
    declared_keys(inventory_cells(manifest.inventory@)).lemma_filter_contains(absent_in(disk_keys(cases)), i);
    lemma_sorted_set(missing);
    assert(missing.to_set().contains(key));
    assert(sorted_set(missing).to_set().contains(key));
    assert(case_keys_view(rep.gaps@).len() > 0);
}

/// A fixture on disk that no inventory cell declares is reported as undeclared.
pub proof fn law_undeclared_fixture_is_reported(
    rep: BoundsReport,
    manifest: Manifest,
    cases: Seq<CaseFacts>,
    pins: Seq<PinState>,
    key: Seq<Seq<char>>,
)
    requires
        report_matches(rep, manifest, cases, pins),
        disk_keys(cases).contains(key),
        !declared_keys(inventory_cells(manifest.inventory@)).contains(key),
    ensures
        rep.undeclared@.len() > 0,
{
    let extra = disk_keys(cases).filter(absent_in(declared_keys(inventory_cells(manifest.inventory@))));
    let i = choose|i: int| 0 <= i < disk_keys(cases).len() && disk_keys(cases)[i] == key;
    disk_keys(cases).lemma_filter_contains(absent_in(declared_keys(inventory_cells(manifest.inventory@))), i);
    lemma_sorted_set(extra);
    assert(extra.to_set().contains(key));
    assert(sorted_set(extra).to_set().contains(key));
    assert(case_keys_view(rep.undeclared@).len() > 0);
}

/// `kind` is not graded: two productions whose nodes agree, one by one, on
/// name and object type get the same node comparison and the same
/// shared-name findings, whatever kinds or other data their nodes carry.
pub proof fn law_kind_is_not_graded(
    st: ScoreState,
    expected: JsonValue,
    first: JsonValue,
    second: JsonValue,
    language: Seq<char>,
)
    requires
        items(first, "nodes"@).len() == items(second, "nodes"@).len(),
        forall|i: int| 0 <= i < items(first, "nodes"@).len() ==> get_str(#[trigger] items(first, "nodes"@)[i], "name"@)
            == get_str(items(second, "nodes"@)[i], "name"@),
        forall|i: int| 0 <= i < items(first, "nodes"@).len() ==> get_str(#[trigger] items(first, "nodes"@)[i], "object_type"@)
            == get_str(items(second, "nodes"@)[i], "object_type"@),
    ensures
        nodes_section(st, expected, first, language) == nodes_section(st, expected, second, language),
        repeats_section(st, expected, first, language) == repeats_section(st, expected, second, language),
{
    reveal(nodes_section);
    reveal(repeats_section);
    let a = items(first, "nodes"@);
    let b = items(second, "nodes"@);
    assert forall|i: int| 0 <= i < a.len() implies record_of(#[trigger] a[i], node_fields()) =~= record_of(b[i], node_fields())
        && record_of(a[i], identity_fields()) =~= record_of(b[i], identity_fields()) by {
        assert(get_str(a[i], "name"@) == get_str(b[i], "name"@));
        assert(get_str(a[i], "object_type"@) == get_str(b[i], "object_type"@));
    }
    assert(records_of(a, node_fields()) =~= records_of(b, node_fields()));
    assert(records_of(a, identity_fields()) =~= records_of(b, identity_fields()));
}

proof fn lemma_producer_problems_grow(
    producers: Seq<(String, ProducerDeclaration)>,
    pins: Seq<PinState>,
    claimed: Seq<Seq<Seq<char>>>,
    k: nat,
    n: nat,
)
    requires
        k < n,
    ensures
        producer_problems(producers, pins, claimed, n).len() >= coverage_problems(
            producers[k as int].0@,
            producers[k as int].1,
            pins[k as int],
            claimed,
        ).len(),
    decreases n,
{
    if n > k + 1 {
        lemma_producer_problems_grow(producers, pins, claimed, k, (n - 1) as nat);
    }
}

/// A criterion a producer's pin states, that no case claims and that the
/// producer's declaration does not excuse as unreachable, makes the bounds
/// report fail: the report has a problem.
pub proof fn law_unreached_criterion_fails(
    rep: BoundsReport,
    manifest: Manifest,
    cases: Seq<CaseFacts>,
    pins: Seq<PinState>,
    k: int,
    list: Vec<String>,
    j: int,
)
    requires
        report_matches(rep, manifest, cases, pins),
        0 <= k < manifest.producers@.len(),
        pins[k] == PinState::Criteria(list),
        0 <= j < list@.len(),
        !all_claims(cases).contains(seq![list@[j]@]),
        !unreachable_keys(manifest.producers@[k].1).contains(seq![list@[j]@]),
    ensures
        rep.problems@.len() > 0,
{
    let producers = manifest.producers@;
    let claimed = sorted_set(all_claims(cases));
    let x = seq![list@[j]@];
    let p = sorted_set(singles(list@));
    let uk = unreachable_keys(producers[k].1);
    assert(singles(list@)[j] == x);
    lemma_sorted_set(singles(list@));
    assert(singles(list@).to_set().contains(x));
    assert(p.contains(x));
    lemma_sorted_set(all_claims(cases));
    assert(!claimed.contains(x)) by {
        if claimed.contains(x) {
            assert(claimed.to_set().contains(x));
        }
    }
    let i1 = choose|i: int| 0 <= i < p.len() && p[i] == x;
    p.lemma_filter_contains(absent_in(claimed), i1);
    let q = p.filter(absent_in(claimed));
    let i2 = choose|i: int| 0 <= i < q.len() && q[i] == x;
    q.lemma_filter_contains(absent_in(uk), i2);
    assert(unreached_of(p, claimed, uk).contains(x));
    let own = coverage_problems(producers[k].0@, producers[k].1, pins[k], claimed);
    assert(labelled(producers[k].0@, unreached_of(p, claimed, uk), " is reached by no case and declared unreachable by nothing"@).len() > 0);
    assert(own.len() > 0);
    lemma_producer_problems_grow(producers, pins, claimed, k as nat, producers.len());
    let cells = inventory_cells(manifest.inventory@);
    let disk = disk_keys(cases);
    let problems = crate::audit::scoped_problems(crate::audit::exclusion_records(cells), disk)
        + crate::audit::all_case_problems(cases, disk) + producer_problems(producers, pins, claimed, producers.len());
    assert(problems.len() > 0);
    let mapped = problems.map_values(|m: Seq<char>| seq![m]);
    assert(mapped.len() > 0);
    lemma_sorted_set(mapped);
    assert(mapped.to_set().contains(mapped[0]));
    assert(sorted_set(mapped).to_set().contains(mapped[0]));
    assert(singles(rep.problems@).len() > 0);
}

proof fn lemma_single_filter(x: Seq<Seq<char>>, p: spec_fn(Seq<Seq<char>>) -> bool)
    ensures
        seq![x].filter(p) == if p(x) { seq![x] } else { Seq::<Seq<Seq<char>>>::empty() },
{
    reveal_with_fuel(Seq::filter, 2);
    assert(seq![x].drop_last() =~= Seq::<Seq<Seq<char>>>::empty());
}

proof fn lemma_ins_sorted_drops(s: Seq<Seq<Seq<char>>>, x: Seq<Seq<char>>, p: spec_fn(Seq<Seq<char>>) -> bool)
    requires
        !p(x),
    ensures
        ins_sorted(s, x).filter(p) == s.filter(p),
    decreases s.len(),
{
    reveal_with_fuel(Seq::filter, 1);
    if s.len() == 0 {
        lemma_single_filter(x, p);
        assert(s =~= Seq::<Seq<Seq<char>>>::empty());
    } else if crate::order::words_lt(s[0], x) {
        lemma_ins_sorted_drops(s.drop_first(), x, p);
        Seq::filter_distributes_over_add(seq![s[0]], ins_sorted(s.drop_first(), x), p);
        Seq::filter_distributes_over_add(seq![s[0]], s.drop_first(), p);
        assert(seq![s[0]] + s.drop_first() =~= s);
    } else {
        Seq::filter_distributes_over_add(seq![x], s, p);
        lemma_single_filter(x, p);
    }
}

proof fn lemma_ins_sorted_keeps(s: Seq<Seq<Seq<char>>>, x: Seq<Seq<char>>, p: spec_fn(Seq<Seq<char>>) -> bool)
    requires
        p(x),
    ensures
        ins_sorted(s, x).filter(p).len() == s.filter(p).len() + 1,
    decreases s.len(),
{
    reveal_with_fuel(Seq::filter, 1);
    if s.len() == 0 {
        lemma_single_filter(x, p);
        assert(s =~= Seq::<Seq<Seq<char>>>::empty());
    } else if crate::order::words_lt(s[0], x) {
        lemma_ins_sorted_keeps(s.drop_first(), x, p);
        Seq::filter_distributes_over_add(seq![s[0]], ins_sorted(s.drop_first(), x), p);
        Seq::filter_distributes_over_add(seq![s[0]], s.drop_first(), p);
        assert(seq![s[0]] + s.drop_first() =~= s);
    } else {
        Seq::filter_distributes_over_add(seq![x], s, p);
        lemma_single_filter(x, p);
    }
}

proof fn lemma_sorted_list_drops(s: Seq<Seq<Seq<char>>>, extra: Seq<Seq<Seq<char>>>, p: spec_fn(Seq<Seq<char>>) -> bool)
    requires
        forall|i: int| 0 <= i < extra.len() ==> !p(#[trigger] extra[i]),
    ensures
        sorted_list(s + extra).filter(p) == sorted_list(s).filter(p),
    decreases extra.len(),
{
    if extra.len() == 0 {
        assert(s + extra =~= s);
    } else {
        let init = extra.drop_last();
        lemma_sorted_list_drops(s, init, p);
        assert((s + extra).drop_last() =~= s + init);
        assert((s + extra).last() == extra.last());
        lemma_ins_sorted_drops(sorted_list(s + init), extra.last(), p);
    }
}

/// Whether a produced edge has an end among the names the specification exempts.
pub open spec fn touches_exempt(specification: JsonValue, edge: JsonValue) -> bool {
    ||| (get_str(edge, "source_ref"@) matches Some(s) && exempt(specification, s))
    ||| (get_str(edge, "target_ref"@) matches Some(t) && exempt(specification, t))
}

/// Under `identical_except`, changes confined to the exempt names never count:
/// when the second run has the first run's nodes and edges plus only nodes
/// named in `except_names` and edges with either end so named, the relation
/// holds with no finding.
pub proof fn law_exempt_changes_are_ignored(
    first: JsonValue,
    second: JsonValue,
    specification: JsonValue,
    extra_nodes: Seq<JsonValue>,
    extra_edges: Seq<JsonValue>,
)
    requires
        node_fault(first) is None,
        node_fault(second) is None,
        edge_fault(first) is None,
        edge_fault(second) is None,
        items(second, "nodes"@) == items(first, "nodes"@) + extra_nodes,
        items(second, "edges"@) == items(first, "edges"@) + extra_edges,
        forall|i: int| 0 <= i < extra_nodes.len() ==> (get_str(#[trigger] extra_nodes[i], "name"@) matches Some(n) && exempt(specification, n)),
        forall|i: int| 0 <= i < extra_edges.len() ==> touches_exempt(specification, #[trigger] extra_edges[i]),
    ensures
        relation_outcome("identical_except"@, first, second, specification) == Ok::<Seq<Seq<char>>, Seq<char>>(seq![]),
{
    reveal_strlit("identical");
    reveal_strlit("identical_except");
    assert("identical"@.len() == 9);
    assert("identical_except"@.len() == 16);
    let nf = identity_fields();
    let ef = crate::case::edge_fields(true);
    let a_n = items(first, "nodes"@);
    let a_e = items(first, "edges"@);
    assert(records_of(a_n + extra_nodes, nf) =~= records_of(a_n, nf) + records_of(extra_nodes, nf));
    assert(records_of(a_e + extra_edges, ef) =~= records_of(a_e, ef) + records_of(extra_edges, ef));
    assert forall|i: int| 0 <= i < records_of(extra_nodes, nf).len() implies !keep_node(specification)(
        #[trigger] records_of(extra_nodes, nf)[i],
    ) by {
        assert(records_of(extra_nodes, nf)[i] == record_of(extra_nodes[i], nf));
        assert(record_of(extra_nodes[i], nf)[1] == get_str(extra_nodes[i], "name"@).unwrap());
    }
    assert forall|i: int| 0 <= i < records_of(extra_edges, ef).len() implies !keep_edge(specification)(
        #[trigger] records_of(extra_edges, ef)[i],
    ) by {
        assert(records_of(extra_edges, ef)[i] == record_of(extra_edges[i], ef));
        assert(record_of(extra_edges[i], ef)[0] == get_str(extra_edges[i], "source_ref"@).unwrap());
        assert(record_of(extra_edges[i], ef)[2] == get_str(extra_edges[i], "target_ref"@).unwrap());
    }
    lemma_sorted_list_drops(records_of(a_n, nf), records_of(extra_nodes, nf), keep_node(specification));
    lemma_sorted_list_drops(records_of(a_e, ef), records_of(extra_edges, ef), keep_edge(specification));
    assert(node_records(second).filter(keep_node(specification)) == node_records(first).filter(keep_node(specification)));
    assert(edge_records(second).filter(keep_edge(specification)) == edge_records(first).filter(keep_edge(specification)));
}

/// Under `identical_except`, an added edge with neither end among the exempt
/// names is a difference: the relation reports that the edges differ.
pub proof fn law_unexempt_edge_is_a_difference(first: JsonValue, second: JsonValue, specification: JsonValue, edge: JsonValue)
    requires
        node_fault(first) is None,
        node_fault(second) is None,
        edge_fault(first) is None,
        edge_fault(second) is None,
        items(second, "nodes"@) == items(first, "nodes"@),
        items(second, "edges"@) == items(first, "edges"@).push(edge),
        get_str(edge, "source_ref"@) matches Some(s) && !exempt(specification, s),
        get_str(edge, "target_ref"@) matches Some(t) && !exempt(specification, t),
    ensures
        relation_outcome("identical_except"@, first, second, specification) matches Ok(fs) && fs.contains(edges_differ_finding()),
{
    reveal_strlit("identical");
    reveal_strlit("identical_except");
    assert("identical"@.len() == 9);
    assert("identical_except"@.len() == 16);
    let ef = crate::case::edge_fields(true);
    let a_e = items(first, "edges"@);
    let r = records_of(a_e.push(edge), ef);
    assert(r =~= records_of(a_e, ef).push(record_of(edge, ef)));
    assert(r.drop_last() =~= records_of(a_e, ef));
    assert(record_of(edge, ef)[0] == get_str(edge, "source_ref"@).unwrap());
    assert(record_of(edge, ef)[2] == get_str(edge, "target_ref"@).unwrap());
    lemma_ins_sorted_keeps(sorted_list(records_of(a_e, ef)), record_of(edge, ef), keep_edge(specification));
    assert(edge_records(second).filter(keep_edge(specification)).len() == edge_records(first).filter(keep_edge(specification)).len() + 1);
    let out = relation_outcome("identical_except"@, first, second, specification);
    assert(out matches Ok(fs) && fs.last() == edges_differ_finding());
}

/// Under `identical_except`, an added node whose name is not exempt is a
/// difference: the relation is reported violated.
pub proof fn law_unexempt_node_is_a_difference(first: JsonValue, second: JsonValue, specification: JsonValue, node: JsonValue)
    requires
        node_fault(first) is None,
        node_fault(second) is None,
        edge_fault(first) is None,
        edge_fault(second) is None,
        items(second, "nodes"@) == items(first, "nodes"@).push(node),
        items(second, "edges"@) == items(first, "edges"@),
        get_str(node, "name"@) matches Some(n) && !exempt(specification, n),
    ensures
        relation_outcome("identical_except"@, first, second, specification) matches Ok(fs) && fs.len() > 0,
{
    reveal_strlit("identical");
    reveal_strlit("identical_except");
    assert("identical"@.len() == 9);
    assert("identical_except"@.len() == 16);
    let nf = identity_fields();
    let a_n = items(first, "nodes"@);
    let r = records_of(a_n.push(node), nf);
    assert(r =~= records_of(a_n, nf).push(record_of(node, nf)));
    assert(r.drop_last() =~= records_of(a_n, nf));
    assert(record_of(node, nf)[1] == get_str(node, "name"@).unwrap());
    lemma_ins_sorted_keeps(sorted_list(records_of(a_n, nf)), record_of(node, nf), keep_node(specification));
    assert(node_records(second).filter(keep_node(specification)).len() == node_records(first).filter(keep_node(specification)).len() + 1);
}

/// Whether `key` names one of the populations a relation outcome counts in.
pub open spec fn relation_population(language: Seq<char>, key: Seq<Seq<char>>) -> bool {
    ||| key == total_key()
    ||| key == seq!["language"@, language]
    ||| key == seq!["axis_kind"@, "relation"@]
}

proof fn lemma_relation_add_once(m: Map<Seq<Seq<char>>, Counts>, language: Seq<char>, o: Outcome, key: Seq<Seq<char>>)
    requires
        language.len() > 0,
        relation_population(language, key),
    ensures
        slice_of(tally_add(m, o, relation_slices(language)), key) == bump(slice_of(m, key), o),
{
    reveal_strlit("language");
    reveal_strlit("axis_kind");
    reveal_strlit("relation");
    reveal_strlit("total");
    assert("language"@.len() == 8);
    assert("axis_kind"@.len() == 9);
    assert("total"@.len() == 5);
    assert("relation"@.len() == 8);
    let lk = seq!["language"@, language];
    let ak = seq!["axis_kind"@, "relation"@];
    assert(lk != total_key()) by {
        assert(lk[0] != total_key()[0]);
    }
    assert(ak != total_key()) by {
        assert(ak[0] != total_key()[0]);
    }
    assert(lk != ak) by {
        assert(lk[0] != ak[0]);
    }
    let sl = relation_slices(language);
    let m1 = bump_slice(m, total_key(), o);
    reveal_with_fuel(bump_named, 3);
    assert(sl.drop_last().drop_last() =~= Seq::<(Seq<char>, Seq<char>)>::empty());
    assert(sl.drop_last() =~= seq![("language"@, language)]);
    assert(bump_named(m1, sl.drop_last(), o) == bump_slice(m1, lk, o));
    assert(bump_named(m1, sl, o) == bump_slice(bump_slice(m1, lk, o), ak, o));
}

/// A declared relation that held counts one true positive; one with `k`
/// violations counts exactly `k` false positives and no true positive. Each
/// lands in the total, the language's slice and the relation slice.
pub proof fn law_relation_counts_each_violation(
    m: Map<Seq<Seq<char>>, Counts>,
    language: Seq<char>,
    violations: nat,
    key: Seq<Seq<char>>,
)
    requires
        language.len() > 0,
        relation_population(language, key),
        slice_of(m, key).tp + 1 <= u64::MAX,
        slice_of(m, key).fp + violations <= u64::MAX,
    ensures
        slice_of(relation_tally(m, language, violations), key) == if violations == 0 {
            Counts { tp: (slice_of(m, key).tp + 1) as u64, ..slice_of(m, key) }
        } else {
            Counts { fp: (slice_of(m, key).fp + violations) as u64, ..slice_of(m, key) }
        },
    decreases violations,
{
    if violations == 0 {
        lemma_relation_add_once(m, language, Outcome::Tp, key);
    } else if violations == 1 {
        lemma_relation_add_once(m, language, Outcome::Fp, key);
    } else {
        law_relation_counts_each_violation(m, language, (violations - 1) as nat, key);
        lemma_relation_add_once(relation_tally(m, language, (violations - 1) as nat), language, Outcome::Fp, key);
    }
}

/// The finding for a declared edge whose produced `field` is not the declared one.
pub open spec fn provenance_finding(w: Seq<Seq<char>>, got: JsonValue, field: Seq<char>, wanted_value: JsonValue) -> Seq<char> {
    edge_label("edge "@, w) + " has "@ + field + " "@ + value_repr(get(got, field)) + ", expected "@ + value_repr(
        Some(wanted_value),
    )
}

/// A declared edge that was produced and declares a `confidence` or a
/// `count` has that field's finding among the findings it adds exactly when
/// the produced edge's value of the field is not the declared one.
#[verifier::rlimit(100)]
pub proof fn law_declared_provenance_is_compared(
    st: ScoreState,
    language: Seq<char>,
    w: Seq<Seq<char>>,
    wanted: JsonValue,
    got: JsonValue,
    field: Seq<char>,
    wanted_value: JsonValue,
)
    requires
        st.error is None,
        field == "confidence"@ || field == "count"@,
        get(wanted, field) == Some(wanted_value),
    ensures
        ({
            let r = want_edge_effect(st, language, w, wanted, Some(got));
            &&& r.findings.len() >= st.findings.len()
            &&& r.findings.subrange(0, st.findings.len() as int) == st.findings
            &&& r.findings.skip(st.findings.len() as int).contains(provenance_finding(w, got, field, wanted_value))
                <==> !same_member(got, field, wanted_value)
        }),
{
    reveal_strlit(" has ");
    reveal_strlit("count");
    reveal_strlit("confidence");
    reveal_strlit(" evidence is ");
    reveal_strlit(" carries ");
    let label = edge_label("edge "@, w);
    let n: int = label.len() as int;
    let msg = provenance_finding(w, got, field, wanted_value);
    assert(msg[n + 1] == 'h');
    assert(msg[n + 7] == field[2]);
    let s1 = crate::case::emit(st, Outcome::Tp, crate::case::edge_slices(language, w[1], crate::case::tier_of(got)), None);
    let s2 = crate::case::field_check(s1, language, w, wanted, got, "confidence"@);
    let s3 = crate::case::field_check(s2, language, w, wanted, got, "count"@);
    let s4 = crate::case::evidence_check(s3, language, w, wanted, got);
    let r = crate::case::evidence_len_check(s4, language, w, wanted, got);
    assert(r == want_edge_effect(st, language, w, wanted, Some(got)));
    assert(s1.findings == st.findings && s1.error is None);
    let k = st.findings.len() as int;
    let a2 = s2.findings.skip(k);
    assert(s2.error is None);
    assert(a2.len() <= 1 && (a2.len() == 1 ==> a2[0][n + 7] == 'n')) by {
        if s2.findings.len() > s1.findings.len() {
            assert(s2.findings == s1.findings.push(a2[0]));
        } else {
            assert(a2 =~= Seq::<Seq<char>>::empty());
        }
    }
    let a3 = s3.findings.skip(s2.findings.len() as int);
    assert(s3.error is None);
    assert(a3.len() <= 1 && (a3.len() == 1 ==> a3[0][n + 7] == 'u')) by {
        if s3.findings.len() > s2.findings.len() {
            assert(s3.findings == s2.findings.push(a3[0]));
        } else {
            assert(a3 =~= Seq::<Seq<char>>::empty());
        }
    }
    let a4 = s4.findings.skip(s3.findings.len() as int);
    assert(s4.error is None);
    assert(a4.len() <= 1 && (a4.len() == 1 ==> a4[0][n + 1] == 'e')) by {
        if s4.findings.len() > s3.findings.len() {
            assert(s4.findings == s3.findings.push(a4[0]));
        } else {
            assert(a4 =~= Seq::<Seq<char>>::empty());
        }
    }
    let a5 = r.findings.skip(s4.findings.len() as int);
    assert(a5.len() <= 1 && (a5.len() == 1 ==> a5[0][n + 1] == 'c')) by {
        if r.findings.len() > s4.findings.len() {
            assert(r.findings == s4.findings.push(a5[0]));
        } else {
            assert(a5 =~= Seq::<Seq<char>>::empty());
        }
    }
    assert(s2.findings =~= st.findings + a2);
    assert(s3.findings =~= s2.findings + a3);
    assert(s4.findings =~= s3.findings + a4);
    assert(r.findings =~= s4.findings + a5);
    let added = r.findings.skip(k);
    assert(added =~= a2 + a3 + a4 + a5);
    assert(r.findings.subrange(0, k) =~= st.findings);
    // The check of `field` adds the finding exactly on a mismatch; the others add only other texts.
    let own = if field == "confidence"@ { a2 } else { a3 };
    let other = if field == "confidence"@ { a3 } else { a2 };
    assert(own == if same_member(got, field, wanted_value) { Seq::<Seq<char>>::empty() } else { seq![msg] }) by {
        if field == "confidence"@ {
            assert(s2.findings == if same_member(got, field, wanted_value) { s1.findings } else { s1.findings.push(msg) });
        } else {
            assert(s3.findings == if same_member(got, field, wanted_value) { s2.findings } else { s2.findings.push(msg) });
        }
    }
    assert(other.len() == 1 ==> other[0][n + 7] != msg[n + 7]);
    if same_member(got, field, wanted_value) {
        assert forall|i: int| 0 <= i < added.len() implies added[i] != msg by {
            if i < a2.len() {
                assert(added[i] == a2[i]);
            } else if i < a2.len() + a3.len() {
                assert(added[i] == a3[i - a2.len()]);
            } else if i < a2.len() + a3.len() + a4.len() {
                assert(added[i] == a4[i - a2.len() - a3.len()]);
                assert(a4[i - a2.len() - a3.len()][n + 1] != msg[n + 1]);
            } else {
                assert(added[i] == a5[i - a2.len() - a3.len() - a4.len()]);
                assert(a5[i - a2.len() - a3.len() - a4.len()][n + 1] != msg[n + 1]);
            }
        }
    } else {
        if field == "confidence"@ {
            assert(added[0] == msg);
        } else {
            assert(added[a2.len() as int] == msg);
        }
    }
}

proof fn lemma_case_problems_in_all(cases: Seq<CaseFacts>, disk: Seq<Seq<Seq<char>>>, i: int, m: Seq<char>)
    requires
        0 <= i < cases.len(),
        case_problems(cases[i], disk).contains(m),
    ensures
        all_case_problems(cases, disk).contains(m),
    decreases cases.len(),
{
    let init = cases.drop_last();
    let own = case_problems(cases.last(), disk);
    if i == cases.len() - 1 {
        let j = choose|j: int| 0 <= j < own.len() && own[j] == m;
        assert((all_case_problems(init, disk) + own)[all_case_problems(init, disk).len() + j] == m);
    } else {
        assert(init[i] == cases[i]);
        lemma_case_problems_in_all(init, disk, i, m);
        let j = choose|j: int| 0 <= j < all_case_problems(init, disk).len() && all_case_problems(init, disk)[j] == m;
        assert((all_case_problems(init, disk) + own)[j] == m);
    }
}

/// Whether the bounds report lists `message` among its problems.
pub open spec fn problem_listed(rep: BoundsReport, message: Seq<char>) -> bool {
    exists|j: int| 0 <= j < rep.problems@.len() && (#[trigger] rep.problems@[j])@ == message
}

proof fn lemma_case_problem_listed(
    rep: BoundsReport,
    manifest: Manifest,
    cases: Seq<CaseFacts>,
    pins: Seq<PinState>,
    i: int,
    msg: Seq<char>,
)
    requires
        report_matches(rep, manifest, cases, pins),
        0 <= i < cases.len(),
        case_problems(cases[i], disk_keys(cases)).contains(msg),
    ensures
        problem_listed(rep, msg),
        rep.problems@.len() > 0,
{
    let disk = disk_keys(cases);
    lemma_case_problems_in_all(cases, disk, i, msg);
    let cells = inventory_cells(manifest.inventory@);
    let producers = manifest.producers@;
    let claimed = sorted_set(all_claims(cases));
    let front = crate::audit::scoped_problems(crate::audit::exclusion_records(cells), disk);
    let problems = front + all_case_problems(cases, disk) + producer_problems(producers, pins, claimed, producers.len());
    let j0 = choose|j: int| 0 <= j < all_case_problems(cases, disk).len() && all_case_problems(cases, disk)[j] == msg;
    assert(problems[front.len() + j0] == msg);
    let mapped = problems.map_values(|t: Seq<char>| seq![t]);
    assert(mapped[front.len() + j0] == seq![msg]);
    lemma_sorted_set(mapped);
    assert(mapped.to_set().contains(seq![msg]));
    assert(sorted_set(mapped).to_set().contains(seq![msg]));
    let sp = singles(rep.problems@);
    assert(sp.contains(seq![msg]));
    let j = choose|j: int| 0 <= j < sp.len() && sp[j] == seq![msg];
    assert(sp[j] == seq![rep.problems@[j]@]);
    assert(seq![rep.problems@[j]@][0] == seq![msg][0]);
}

/// A fixture that names no issue (or only a blank one), that is pending on a
/// blank marker, that has no `expected.yaml`, or that has no input tree makes
/// the bounds report fail with a problem naming that case and the defect.
pub proof fn law_case_hygiene_fails(
    rep: BoundsReport,
    manifest: Manifest,
    cases: Seq<CaseFacts>,
    pins: Seq<PinState>,
    i: int,
)
    requires
        report_matches(rep, manifest, cases, pins),
        0 <= i < cases.len(),
        cases[i].metadata is Ok,
    ensures
        ({
            let f = cases[i];
            let m = f.metadata->Ok_0;
            let slash = f.key.slash_view();
            &&& (m.issue_ref is None || (m.issue_ref matches Some(t) && blank(t@))) ==> problem_listed(
                rep,
                slash + " has no issue_ref"@,
            )
            &&& (m.pending matches Some(p) && blank(p@)) ==> problem_listed(
                rep,
                slash + " is pending on nothing; a marker with no issue is a case nobody comes back to"@,
            )
            &&& !f.has_expected ==> problem_listed(rep, slash + " has no expected.yaml"@)
            &&& !f.has_input ==> problem_listed(rep, slash + " has no input tree"@)
            &&& (m.issue_ref is None || (m.issue_ref matches Some(t) && blank(t@)) || (m.pending matches Some(p) && blank(p@))
                || !f.has_expected || !f.has_input) ==> rep.problems@.len() > 0
        }),
{
    let f = cases[i];
    let m = f.metadata->Ok_0;
    let slash = f.key.slash_view();
    let disk = disk_keys(cases);
    let cp = case_problems(f, disk);
    let p1 = if m.issue_ref matches Some(t) && !blank(t@) { Seq::<Seq<char>>::empty() } else { seq![slash + " has no issue_ref"@] };
    let p2 = if m.pending matches Some(p) && blank(p@) {
        seq![slash + " is pending on nothing; a marker with no issue is a case nobody comes back to"@]
    } else {
        Seq::<Seq<char>>::empty()
    };
    let p3 = if f.has_expected { Seq::<Seq<char>>::empty() } else { seq![slash + " has no expected.yaml"@] };
    let p4 = if f.has_input { Seq::<Seq<char>>::empty() } else { seq![slash + " has no input tree"@] };
    let p5 = cp.skip((p1.len() + p2.len() + p3.len() + p4.len()) as int);
    assert(cp =~= p1 + p2 + p3 + p4 + p5);
    if p1.len() > 0 {
        assert(cp[0] == p1[0]);
        lemma_case_problem_listed(rep, manifest, cases, pins, i, p1[0]);
    }
    if p2.len() > 0 {
        assert(cp[p1.len() as int] == p2[0]);
        lemma_case_problem_listed(rep, manifest, cases, pins, i, p2[0]);
    }
    if p3.len() > 0 {
        assert(cp[(p1.len() + p2.len()) as int] == p3[0]);
        lemma_case_problem_listed(rep, manifest, cases, pins, i, p3[0]);
    }
    if p4.len() > 0 {
        assert(cp[(p1.len() + p2.len() + p3.len()) as int] == p4[0]);
        lemma_case_problem_listed(rep, manifest, cases, pins, i, p4[0]);
    }
}

proof fn lemma_frame_concat(a: Seq<(Seq<u8>, Seq<u8>)>, b: Seq<(Seq<u8>, Seq<u8>)>)
    ensures
        frame(a + b) == frame(a) + frame(b),
    decreases b.len(),
{
    if b.len() == 0 {
        assert(a + b =~= a);
        assert(frame(a) + frame(b) =~= frame(a));
    } else {
        lemma_frame_concat(a, b.drop_last());
        assert((a + b).drop_last() =~= a + b.drop_last());
        assert((a + b).last() == b.last());
        let x = b.last();
        assert(frame(a + b) =~= frame(a) + frame(b));
    }
}

proof fn lemma_frame_single(x: (Seq<u8>, Seq<u8>))
    ensures
        frame(seq![x]) == x.0 + seq![0u8] + x.1 + seq![0u8],
{
    assert(seq![x].drop_last() =~= Seq::<(Seq<u8>, Seq<u8>)>::empty());
    assert(seq![x].last() == x);
    let e = frame(Seq::<(Seq<u8>, Seq<u8>)>::empty());
    assert(e == Seq::<u8>::empty());
    assert(e + x.0 + seq![0u8] + x.1 + seq![0u8] =~= x.0 + seq![0u8] + x.1 + seq![0u8]);
}

proof fn lemma_frame_split(a: Seq<(Seq<u8>, Seq<u8>)>, k: int)
    requires
        0 <= k < a.len(),
    ensures
        frame(a) == frame(a.take(k)) + (a[k].0 + seq![0u8] + a[k].1 + seq![0u8]) + frame(a.skip(k + 1)),
{
    assert(a =~= a.take(k) + seq![a[k]] + a.skip(k + 1));
    lemma_frame_concat(a.take(k) + seq![a[k]], a.skip(k + 1));
    lemma_frame_concat(a.take(k), seq![a[k]]);
    lemma_frame_single(a[k]);
}

/// The framed message covers every file: two lists of files that differ only
/// in one file, at any position, in its bytes or in its path, frame to
/// different messages, so the digest is taken over different input.
pub proof fn law_every_file_is_framed(a: Seq<(Seq<u8>, Seq<u8>)>, b: Seq<(Seq<u8>, Seq<u8>)>, k: int)
    requires
        a.len() == b.len(),
        0 <= k < a.len(),
        forall|j: int| 0 <= j < a.len() && j != k ==> a[j] == b[j],
        (a[k].0 == b[k].0 && a[k].1 != b[k].1) || (a[k].0 != b[k].0 && a[k].1 == b[k].1),
    ensures
        frame(a) != frame(b),
{
    if a[k].0 == b[k].0 {
        lemma_content_is_framed(a, b, k);
    } else {
        lemma_path_is_framed(a, b, k);
    }
}

proof fn lemma_path_is_framed(a: Seq<(Seq<u8>, Seq<u8>)>, b: Seq<(Seq<u8>, Seq<u8>)>, k: int)
    requires
        a.len() == b.len(),
        0 <= k < a.len(),
        forall|j: int| 0 <= j < a.len() && j != k ==> a[j] == b[j],
        a[k].0 != b[k].0,
        a[k].1 == b[k].1,
    ensures
        frame(a) != frame(b),
{
    let pre = a.take(k);
    let post = a.skip(k + 1);
    assert(b.take(k) =~= pre);
    assert(b.skip(k + 1) =~= post);
    lemma_frame_split(a, k);
    lemma_frame_split(b, k);
    let pa = a[k].0 + seq![0u8] + a[k].1 + seq![0u8];
    let pb = b[k].0 + seq![0u8] + b[k].1 + seq![0u8];
    let fa = frame(pre) + pa + frame(post);
    let fb = frame(pre) + pb + frame(post);
    if a[k].0.len() == b[k].0.len() {
        if !(exists|i: int| 0 <= i < a[k].0.len() && a[k].0[i] != b[k].0[i]) {
            assert(a[k].0 =~= b[k].0);
        }
        let i = choose|i: int| 0 <= i < a[k].0.len() && a[k].0[i] != b[k].0[i];
        assert(pa[i] == a[k].0[i]);
        assert(pb[i] == b[k].0[i]);
        assert(fa[frame(pre).len() + i] == pa[i]);
        assert(fb[frame(pre).len() + i] == pb[i]);
    } else {
        assert(pa.len() != pb.len());
        assert(fa.len() != fb.len());
    }
}

proof fn lemma_content_is_framed(a: Seq<(Seq<u8>, Seq<u8>)>, b: Seq<(Seq<u8>, Seq<u8>)>, k: int)
    requires
        a.len() == b.len(),
        0 <= k < a.len(),
        forall|j: int| 0 <= j < a.len() && j != k ==> a[j] == b[j],
        a[k].0 == b[k].0,
        a[k].1 != b[k].1,
    ensures
        frame(a) != frame(b),
{
    let pre = a.take(k);
    let post = a.skip(k + 1);
    assert(b.take(k) =~= pre);
    assert(b.skip(k + 1) =~= post);
    lemma_frame_split(a, k);
    lemma_frame_split(b, k);
    let pa = a[k].0 + seq![0u8] + a[k].1 + seq![0u8];
    let pb = b[k].0 + seq![0u8] + b[k].1 + seq![0u8];
    let fa = frame(pre) + pa + frame(post);
    let fb = frame(pre) + pb + frame(post);
    if a[k].1.len() == b[k].1.len() {
        if !(exists|i: int| 0 <= i < a[k].1.len() && a[k].1[i] != b[k].1[i]) {
            assert(a[k].1 =~= b[k].1);
        }
        let i = choose|i: int| 0 <= i < a[k].1.len() && a[k].1[i] != b[k].1[i];
        let at = a[k].0.len() + 1 + i;
        assert(pa[at] == a[k].1[i]);
        assert(pb[at] == b[k].1[i]);
        assert(fa[frame(pre).len() + at] == pa[at]);
        assert(fb[frame(pre).len() + at] == pb[at]);
    } else {
        assert(pa.len() != pb.len());
        assert(fa.len() != fb.len());
    }
}

} // verus!
