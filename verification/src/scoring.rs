//! The decisions of a scoring run around each case: selection, the declared
//! relation between two runs, determinism, pending markers, and the revision.
use vstd::prelude::*;
use crate::case::{texts, lemma_room_add, lemma_room_mono, nodes_bound, edges_bound, flag, flag_exec};
use crate::error::CorpusError;
use crate::json::{JsonValue, get_str, get_string, items};
use crate::report::{members_of, mentions_bound};
use crate::score::{Counts, Outcome, Tally, tally_add, has_room, pairs};
use crate::text::push_text;
use crate::verdict::case_bound;

verus! {

/// Whether a case is selected: every case when nothing is named, else the named ones.
pub fn is_selected(selected: &Vec<String>, key: &str) -> (r: bool)
    ensures
        r == (selected@.len() == 0 || exists|i: int| 0 <= i < selected@.len() && (#[trigger] selected@[i])@ == key@),
{
    if selected.len() == 0 {
        return true;
    }
    let owned = key.to_owned();
    let mut i: usize = 0;
    while i < selected.len()
        invariant
            0 <= i <= selected@.len(),
            owned@ == key@,
            forall|j: int| 0 <= j < i ==> (#[trigger] selected@[j])@ != key@,
        decreases selected@.len() - i,
    {
        if selected[i] == owned {
            return true;
        }
        i = i + 1;
    }
    false
}

/// The org a variant run is produced for: the case's `variant_org`, else its own.
pub fn variant_org(expected: &JsonValue, org: &str) -> (r: String)
    ensures
        r@ == match get_str(*expected, "variant_org"@) {
            Some(v) => v,
            None => org@,
        },
{
    match get_string(expected, "variant_org") {
        Some(v) => v,
        None => org.to_owned(),
    }
}

/// The outcome of a declared relation.
pub struct RelationVerdict {
    pub name: String,
    pub held: bool,
}

/// The slices a relation outcome counts in.
pub open spec fn relation_slices(language: Seq<char>) -> Seq<(Seq<char>, Seq<char>)> {
    seq![("language"@, language), ("axis_kind"@, "relation"@)]
}

/// A relation's effect on the tally: one true positive when it held, else one false positive per violation.
pub open spec fn relation_tally(m: Map<Seq<Seq<char>>, Counts>, language: Seq<char>, violations: nat) -> Map<Seq<Seq<char>>, Counts>
    decreases violations,
{
    if violations == 0 {
        tally_add(m, Outcome::Tp, relation_slices(language))
    } else if violations == 1 {
        tally_add(m, Outcome::Fp, relation_slices(language))
    } else {
        tally_add(relation_tally(m, language, (violations - 1) as nat), Outcome::Fp, relation_slices(language))
    }
}

/// Records a relation's outcome: a true positive when it held; else a false
/// positive and a finding for each violation.
pub fn record_relation(
    findings: &mut Vec<String>,
    tally: &mut Tally,
    language: &str,
    relation: &str,
    violations: Vec<String>,
) -> (r: RelationVerdict)
    requires
        old(tally).wf(),
        has_room(old(tally)@, 5 * (violations@.len() + 1) as int),
    ensures
        final(tally).wf(),
        r.name@ == relation@,
        r.held == (violations@.len() == 0),
        texts(final(findings)@) == texts(old(findings)@) + texts(violations@),
        final(tally)@ == relation_tally(old(tally)@, language@, violations@.len()),
{
    let mut slices: Vec<(String, String)> = Vec::new();
    slices.push(("language".to_owned(), language.to_owned()));
    slices.push(("axis_kind".to_owned(), "relation".to_owned()));
    proof {
        assert(pairs(slices@) =~= relation_slices(language@));
    }
    let ghost start = tally@;
    let ghost f0 = texts(findings@);
    let ghost n: int = violations@.len() as int;
    if violations.len() == 0 {
        proof {
            lemma_room_mono(tally@, 5 * (n + 1) as int, 3);
            assert(f0 + texts(violations@) =~= f0);
        }
        tally.record(Outcome::Tp, &slices);
        return RelationVerdict { name: relation.to_owned(), held: true };
    }
    let mut i: usize = 0;
    while i < violations.len()
        invariant
            0 <= i <= violations@.len(),
            n == violations@.len(),
            n > 0,
            pairs(slices@) == relation_slices(language@),
            slices@.len() == 2,
            tally.wf(),
            has_room(tally@, 5 * (n + 1) - 5 * i),
            i > 0 ==> tally@ == relation_tally(start, language@, i as nat),
            i == 0 ==> tally@ == start,
            texts(findings@) == f0 + texts(violations@).take(i as int),
        decreases violations@.len() - i,
    {
        proof {
            lemma_room_add(tally@, Outcome::Fp, relation_slices(language@), 5 * (n + 1) - 5 * i);
            lemma_room_mono(tally@, 5 * (n + 1) - 5 * i, 3);
        }
        tally.record(Outcome::Fp, &slices);
        let ghost before = findings@;
        findings.push(violations[i].clone());
        proof {
            assert(texts(findings@) =~= texts(before).push(violations@[i as int]@));
            assert(texts(violations@).take(i + 1) =~= texts(violations@).take(i as int).push(violations@[i as int]@));
        }
        i = i + 1;
    }
    proof {
        assert(texts(violations@).take(n as int) =~= texts(violations@));
    }
    RelationVerdict { name: relation.to_owned(), held: false }
}

/// The room a relation outcome needs in a tally, five units for each
/// violation and one more, when that fits in 64 bits.
pub fn relation_budget(violations: usize) -> (r: Option<u64>)
    ensures
        r matches Some(n) ==> n == 5 * (violations + 1),
        r is None ==> 5 * (violations + 1) > u64::MAX,
{
    let n = violations as u64;
    match n.checked_add(1) {
        Some(m) => m.checked_mul(5),
        None => None,
    }
}

/// Whether a case asks for its producer to be run twice and the bytes compared:
/// `deterministic: true`, and nothing else.
pub fn wants_determinism(expected: &JsonValue) -> (r: bool)
    ensures
        r == flag(*expected, "deterministic"@, false),
{
    flag_exec(expected, "deterministic", false)
}

/// The finding for two extractions of one tree that differ.
pub open spec fn nondeterminism_finding() -> Seq<char> {
    "two extractions of the same tree produced different bytes; the difference is in the producer, not the input"@
}

/// Whether two extractions of one tree gave the same bytes; a finding when not.
pub fn check_determinism(first_raw: &str, second_raw: &str, findings: &mut Vec<String>) -> (r: bool)
    ensures
        r == (first_raw@ == second_raw@),
        texts(final(findings)@) == texts(old(findings)@) + if r {
            seq![]
        } else {
            seq![nondeterminism_finding()]
        },
{
    let same = first_raw.to_owned() == second_raw.to_owned();
    let ghost before = findings@;
    if !same {
        findings.push(
            "two extractions of the same tree produced different bytes; the difference is in the producer, not the input".to_owned(),
        );
        proof {
            assert(texts(findings@) =~= texts(before) + seq![nondeterminism_finding()]);
        }
    } else {
        proof {
            assert(texts(findings@) =~= texts(before) + seq![]);
        }
    }
    same
}

/// What one scored case means for the run.
pub struct CaseVerdict {
    /// Whether the case fails the run.
    pub failed: bool,
    /// The notice for a pending case that now passes.
    pub stale: Option<String>,
}

/// A case fails when it has findings, unless it is pending; a pending case
/// that passes is stale, and a stale case fails too.
pub fn case_verdict(pending: &Option<String>, has_findings: bool, slash_key: &str) -> (r: CaseVerdict)
    ensures
        match *pending {
            Some(p) => if has_findings {
                !r.failed && r.stale is None
            } else {
                r.failed && (r.stale matches Some(s) && s@ == "STALE "@ + slash_key@ + ": pending on "@ + p@
                    + " and passing; remove the marker"@)
            },
            None => r.failed == has_findings && r.stale is None,
        },
{
    match pending {
        Some(p) => {
            if has_findings {
                CaseVerdict { failed: false, stale: None }
            } else {
                let mut notice = "STALE ".to_owned();
                push_text(&mut notice, slash_key);
                push_text(&mut notice, ": pending on ");
                push_text(&mut notice, p.as_str());
                push_text(&mut notice, " and passing; remove the marker");
                CaseVerdict { failed: true, stale: Some(notice) }
            }
        },
        None => CaseVerdict { failed: has_findings, stale: None },
    }
}

/// A run is only valid when the corpus revision it started at is the one it ended at.
pub fn revision_unchanged(before: &str, after: &str) -> (r: Result<(), CorpusError>)
    ensures
        before@ == after@ ==> r is Ok,
        before@ != after@ ==> (r matches Err(CorpusError::Invariant(m))
            && m@ == "the corpus changed while scoring; no observation can identify two revisions"@),
{
    if before.to_owned() == after.to_owned() {
        Ok(())
    } else {
        Err(CorpusError::Invariant("the corpus changed while scoring; no observation can identify two revisions".to_owned()))
    }
}

/// The room a case needs in a tally, five units per event it can count, when that fits in 64 bits.
pub fn case_budget(expected: &JsonValue, produced: &JsonValue) -> (r: Option<u64>)
    ensures
        r matches Some(n) ==> n == 5 * case_bound(*expected, *produced),
        r is None ==> 5 * case_bound(*expected, *produced) > u64::MAX,
{
    let en = expected.items("nodes").len() as u64;
    let pn = produced.items("nodes").len() as u64;
    let ee = expected.items("edges").len() as u64;
    let pe = produced.items("edges").len() as u64;
    let fe = expected.items("forbidden_edges").len() as u64;
    let fnames = expected.items("forbidden_node_names").len() as u64;
    let fkinds = expected.items("forbidden_node_kinds").len() as u64;
    let vis = match expected.get("visibility") {
        Some(JsonValue::Object(ms)) => ms.len() as u64,
        _ => 0,
    };
    let sig = match expected.get("signatures") {
        Some(JsonValue::Object(ms)) => ms.len() as u64,
        _ => 0,
    };
    let em = expected.items("mentions").len() as u64;
    let pm = produced.items("mentions").len() as u64;
    proof {
        assert(members_of(*expected, "visibility"@).len() == vis);
        assert(members_of(*expected, "signatures"@).len() == sig);
    }
    let kinds_by_nodes = fkinds.checked_mul(pn)?;
    let edge_part = ee.checked_mul(5)?;
    let node_part = en.checked_mul(2)?;
    let mut total: u64 = node_part;
    total = total.checked_add(pn)?;
    total = total.checked_add(pn)?;
    total = total.checked_add(fnames)?;
    total = total.checked_add(kinds_by_nodes)?;
    total = total.checked_add(edge_part)?;
    total = total.checked_add(pe)?;
    total = total.checked_add(fe)?;
    total = total.checked_add(vis)?;
    total = total.checked_add(sig)?;
    total = total.checked_add(em)?;
    total = total.checked_add(pm)?;
    proof {
        assert(total == case_bound(*expected, *produced));
    }
    total.checked_mul(5)
}

} // verus!
