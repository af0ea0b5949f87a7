//! The bounds audit: the declared inventory against the fixtures on disk,
//! the controls and case hygiene, and each producer's criterion coverage.
use vstd::prelude::*;
use crate::bounds::{
    CaseKey, CaseMetadata, DeclaredCell, Manifest, ProducerDeclaration, cell_fault, cell_languages,
    cell_exclusions, blank, parse_unreachable, unreachable_view, pair_views, CriterionCoverage, BoundsReport, key_ordered,
};
use crate::error::{CorpusError, same_error};
use crate::order::{keys, words, sorted_set, to_sorted_set, minus, meet, absent_in, present_in, copy_words, lemma_sorted_set_arity, contains_key};
use crate::text::{push_text, is_blank, debug_str, str_debug};

verus! {

/// Every `(family, case, cell)` of the inventory, in order.
pub open spec fn inventory_cells(inv: Seq<(String, Vec<(String, DeclaredCell)>)>) -> Seq<(Seq<char>, Seq<char>, DeclaredCell)>
    decreases inv.len(),
{
    if inv.len() == 0 {
        seq![]
    } else {
        inventory_cells(inv.drop_last()) + family_cells(inv.last())
    }
}

/// The cells of one family, in order.
pub open spec fn family_cells(family: (String, Vec<(String, DeclaredCell)>)) -> Seq<(Seq<char>, Seq<char>, DeclaredCell)> {
    family.1@.map_values(|c: (String, DeclaredCell)| (family.0@, c.0@, c.1))
}

/// The first cell with an exclusion lacking a reason, as the error it raises.
pub open spec fn inventory_fault(cells: Seq<(Seq<char>, Seq<char>, DeclaredCell)>) -> Option<Seq<char>>
    decreases cells.len(),
{
    if cells.len() == 0 {
        None
    } else {
        match inventory_fault(cells.drop_last()) {
            Some(e) => Some(e),
            None => cell_fault(cells.last().2),
        }
    }
}

/// Each declared `(family, case, language)`, in order.
pub open spec fn declared_keys(cells: Seq<(Seq<char>, Seq<char>, DeclaredCell)>) -> Seq<Seq<Seq<char>>>
    decreases cells.len(),
{
    if cells.len() == 0 {
        seq![]
    } else {
        let c = cells.last();
        declared_keys(cells.drop_last()) + cell_languages(c.2).map_values(|l: String| seq![c.0, c.1, l@])
    }
}

/// Each declared exclusion `(family, case, language, reason)`, in order.
pub open spec fn exclusion_records(cells: Seq<(Seq<char>, Seq<char>, DeclaredCell)>) -> Seq<Seq<Seq<char>>>
    decreases cells.len(),
{
    if cells.len() == 0 {
        seq![]
    } else {
        let c = cells.last();
        exclusion_records(cells.drop_last()) + cell_exclusions(c.2).map_values(
            |x: (String, String)| seq![c.0, c.1, x.0@, x.1@],
        )
    }
}

/// A case key as a record.
pub open spec fn key_words(k: CaseKey) -> Seq<Seq<char>> {
    seq![k.0@, k.1@, k.2@]
}

/// What the bounds audit learns of one fixture on disk.
pub struct CaseFacts {
    /// Where it stands.
    pub key: CaseKey,
    /// Its `case.yaml`, or the error of reading it.
    pub metadata: Result<CaseMetadata, CorpusError>,
    /// Whether it has an `expected.yaml` file.
    pub has_expected: bool,
    /// Whether it has an `input` directory.
    pub has_input: bool,
}

/// What the bounds audit learns of one producer's criteria pin.
pub enum PinState {
    /// The pin could not be read; the text says why.
    Unreadable(String),
    /// The pin was read and is malformed.
    Invalid(CorpusError),
    /// The criteria the pin states.
    Criteria(Vec<String>),
}

/// The keys of the fixtures on disk, in order.
pub open spec fn disk_keys(cases: Seq<CaseFacts>) -> Seq<Seq<Seq<char>>> {
    cases.map_values(|f: CaseFacts| key_words(f.key))
}

/// The problems of exclusions that also have a fixture.
pub open spec fn scoped_problems(xs: Seq<Seq<Seq<char>>>, disk: Seq<Seq<Seq<char>>>) -> Seq<Seq<char>>
    decreases xs.len(),
{
    if xs.len() == 0 {
        seq![]
    } else {
        let prev = scoped_problems(xs.drop_last(), disk);
        let x = xs.last();
        if disk.contains(seq![x[0], x[1], x[2]]) {
            prev.push(x[0] + "/"@ + x[1] + "/"@ + x[2] + " is scoped out and also has a fixture; one of the two is wrong"@)
        } else {
            prev
        }
    }
}

/// The part of the audit that reads only the manifest and the keys on disk.
pub struct InventoryAudit {
    /// Each declared key, in order.
    pub declared: Vec<Vec<String>>,
    /// Each exclusion record, in order.
    pub exclusions: Vec<Vec<String>>,
    /// The problems of exclusions that also have a fixture.
    pub problems: Vec<String>,
}

/// The views of a list of texts.
pub open spec fn texts_of(v: Seq<String>) -> Seq<Seq<char>> {
    v.map_values(|s: String| s@)
}

fn key_record(k: &CaseKey) -> (r: Vec<String>)
    ensures
        words(r@) == key_words(*k),
{
    let mut r: Vec<String> = Vec::new();
    r.push(k.0.clone());
    r.push(k.1.clone());
    r.push(k.2.clone());
    proof {
        assert(words(r@) =~= key_words(*k));
    }
    r
}

fn record3(a: &String, b: &String, c: &String) -> (r: Vec<String>)
    ensures
        words(r@) == seq![a@, b@, c@],
{
    let mut r: Vec<String> = Vec::new();
    r.push(a.clone());
    r.push(b.clone());
    r.push(c.clone());
    proof {
        assert(words(r@) =~= seq![a@, b@, c@]);
    }
    r
}

fn push_record(list: &mut Vec<Vec<String>>, rec: Vec<String>)
    ensures
        keys(final(list)@) == keys(old(list)@).push(words(rec@)),
{
    let ghost before = list@;
    list.push(rec);
    proof {
        assert(keys(list@) =~= keys(before).push(words(rec@)));
    }
}

fn push_text_item(list: &mut Vec<String>, item: String)
    ensures
        texts_of(final(list)@) == texts_of(old(list)@).push(item@),
{
    let ghost before = list@;
    list.push(item);
    proof {
        assert(texts_of(list@) =~= texts_of(before).push(item@));
    }
}

/// The keys of the fixtures on disk as records.
fn disk_records(cases: &Vec<CaseFacts>) -> (r: Vec<Vec<String>>)
    ensures
        keys(r@) == disk_keys(cases@),
{
    let mut out: Vec<Vec<String>> = Vec::new();
    let mut i: usize = 0;
    while i < cases.len()
        invariant
            0 <= i <= cases@.len(),
            keys(out@) == disk_keys(cases@).take(i as int),
        decreases cases@.len() - i,
    {
        push_record(&mut out, key_record(&cases[i].key));
        proof {
            assert(disk_keys(cases@).take(i + 1) =~= disk_keys(cases@).take(i as int).push(key_words(cases@[i as int].key)));
        }
        i = i + 1;
    }
    proof {
        assert(disk_keys(cases@).take(cases@.len() as int) =~= disk_keys(cases@));
    }
    out
}

/// One cell: its declared keys and exclusions appended, and the problem of each exclusion that has a fixture.
fn audit_cell(
    family: &String,
    case: &String,
    cell: &DeclaredCell,
    disk: &Vec<Vec<String>>,
    acc: &mut InventoryAudit,
) -> (r: Result<(), CorpusError>)
    ensures
        match cell_fault(*cell) {
            Some(e) => r matches Err(CorpusError::Invariant(m)) && m@ == e,
            None => {
                &&& r is Ok
                &&& keys(final(acc).declared@) == keys(old(acc).declared@) + cell_languages(*cell).map_values(
                    |l: String| seq![family@, case@, l@],
                )
                &&& keys(final(acc).exclusions@) == keys(old(acc).exclusions@) + cell_exclusions(*cell).map_values(
                    |x: (String, String)| seq![family@, case@, x.0@, x.1@],
                )
                &&& texts_of(final(acc).problems@) == texts_of(old(acc).problems@) + scoped_problems(
                    cell_exclusions(*cell).map_values(|x: (String, String)| seq![family@, case@, x.0@, x.1@]),
                    keys(disk@),
                )
            },
        },
{
    let (languages, exclusions) = cell.parts()?;
    let ghost d0 = keys(acc.declared@);
    let ghost ls = cell_languages(*cell).map_values(|l: String| seq![family@, case@, l@]);
    let mut i: usize = 0;
    while i < languages.len()
        invariant
            0 <= i <= languages@.len(),
            languages@ == cell_languages(*cell),
            ls == cell_languages(*cell).map_values(|l: String| seq![family@, case@, l@]),
            keys(acc.declared@) == d0 + ls.take(i as int),
            d0 == keys(old(acc).declared@),
            acc.exclusions@ == old(acc).exclusions@,
            acc.problems@ == old(acc).problems@,
        decreases languages@.len() - i,
    {
        push_record(&mut acc.declared, record3(family, case, &languages[i]));
        proof {
            assert(ls.take(i + 1) =~= ls.take(i as int).push(ls[i as int]));
        }
        i = i + 1;
    }
    proof {
        assert(ls.take(languages@.len() as int) =~= ls);
    }
    let ghost x0 = keys(acc.exclusions@);
    let ghost p0 = texts_of(acc.problems@);
    let ghost xs = cell_exclusions(*cell).map_values(|x: (String, String)| seq![family@, case@, x.0@, x.1@]);
    let mut k: usize = 0;
    while k < exclusions.len()
        invariant
            0 <= k <= exclusions@.len(),
            exclusions@ == cell_exclusions(*cell),
            xs == cell_exclusions(*cell).map_values(|x: (String, String)| seq![family@, case@, x.0@, x.1@]),
            keys(acc.exclusions@) == x0 + xs.take(k as int),
            texts_of(acc.problems@) == p0 + scoped_problems(xs.take(k as int), keys(disk@)),
            keys(acc.declared@) == keys(old(acc).declared@) + ls,
            x0 == keys(old(acc).exclusions@),
            p0 == texts_of(old(acc).problems@),
        decreases exclusions@.len() - k,
    {
        let (language, reason) = &exclusions[k];
        let mut rec = record3(family, case, language);
        let key = record3(family, case, language);
        let ghost r0 = rec@;
        rec.push(reason.clone());
        proof {
            assert(words(rec@) =~= words(r0).push(reason@));
            assert(words(rec@) =~= xs[k as int]);
            let t = xs.take(k + 1);
            assert(t.drop_last() =~= xs.take(k as int));
            assert(t.last() == xs[k as int]);
            assert(seq![xs[k as int][0], xs[k as int][1], xs[k as int][2]] =~= words(key@));
        }
        push_record(&mut acc.exclusions, rec);
        if contains_key(disk, &key) {
            let mut message = family.clone();
            push_text(&mut message, "/");
            push_text(&mut message, case.as_str());
            push_text(&mut message, "/");
            push_text(&mut message, language.as_str());
            push_text(&mut message, " is scoped out and also has a fixture; one of the two is wrong");
            push_text_item(&mut acc.problems, message);
        }
        proof {
            assert(xs.take(k + 1) =~= xs.take(k as int).push(xs[k as int]));
            assert(texts_of(acc.problems@) =~= p0 + scoped_problems(xs.take(k + 1), keys(disk@)));
        }
        k = k + 1;
    }
    proof {
        assert(xs.take(exclusions@.len() as int) =~= xs);
    }
    Ok(())
}


proof fn lemma_scoped_concat(a: Seq<Seq<Seq<char>>>, b: Seq<Seq<Seq<char>>>, disk: Seq<Seq<Seq<char>>>)
    ensures
        scoped_problems(a + b, disk) == scoped_problems(a, disk) + scoped_problems(b, disk),
    decreases b.len(),
{
    if b.len() == 0 {
        assert(a + b =~= a);
        assert(scoped_problems(a, disk) + seq![] =~= scoped_problems(a, disk));
    } else {
        lemma_scoped_concat(a, b.drop_last(), disk);
        assert((a + b).drop_last() =~= a + b.drop_last());
        assert((a + b).last() == b.last());
    }
}

/// The inventory part of the audit, or the error of its first exclusion without a reason.
pub fn audit_inventory(manifest: &Manifest, disk: &Vec<Vec<String>>) -> (r: Result<InventoryAudit, CorpusError>)
    requires
        manifest.wf(),
    ensures
        ({
            let cells = inventory_cells(manifest.inventory@);
            match inventory_fault(cells) {
                Some(e) => r matches Err(CorpusError::Invariant(m)) && m@ == e,
                None => r matches Ok(a) && keys(a.declared@) == declared_keys(cells) && keys(a.exclusions@)
                    == exclusion_records(cells) && texts_of(a.problems@) == scoped_problems(
                    exclusion_records(cells),
                    keys(disk@),
                ),
            }
        }),
{
    let inv = &manifest.inventory;
    let mut acc = InventoryAudit { declared: Vec::new(), exclusions: Vec::new(), problems: Vec::new() };
    proof {
        assert(keys(acc.declared@) =~= seq![]);
        assert(keys(acc.exclusions@) =~= seq![]);
        assert(texts_of(acc.problems@) =~= seq![]);
        assert(inv@.take(0) =~= seq![]);
    }
    let mut i: usize = 0;
    while i < inv.len()
        invariant
            0 <= i <= inv@.len(),
            inv@ == manifest.inventory@,
            inventory_fault(inventory_cells(inv@.take(i as int))) is None,
            keys(acc.declared@) == declared_keys(inventory_cells(inv@.take(i as int))),
            keys(acc.exclusions@) == exclusion_records(inventory_cells(inv@.take(i as int))),
            texts_of(acc.problems@) == scoped_problems(exclusion_records(inventory_cells(inv@.take(i as int))), keys(disk@)),
        decreases inv@.len() - i,
    {
        let (family, cases) = &inv[i];
        let ghost base = inventory_cells(inv@.take(i as int));
        let ghost fam = family_cells(inv@[i as int]);
        proof {
            assert(base + fam.take(0) =~= base);
        }
        let mut j: usize = 0;
        while j < cases.len()
            invariant
                0 <= j <= cases@.len(),
                inv@ == manifest.inventory@,
                i < inv@.len(),
                base == inventory_cells(inv@.take(i as int)),
                fam == family_cells(inv@[i as int]),
                inv@[i as int].0 == *family,
                inv@[i as int].1 == *cases,
                inventory_fault(base + fam.take(j as int)) is None,
                keys(acc.declared@) == declared_keys(base + fam.take(j as int)),
                keys(acc.exclusions@) == exclusion_records(base + fam.take(j as int)),
                texts_of(acc.problems@) == scoped_problems(exclusion_records(base + fam.take(j as int)), keys(disk@)),
            decreases cases@.len() - j,
        {
            let ghost flat = base + fam.take(j as int);
            let ghost next = base + fam.take(j + 1);
            proof {
                assert(next.drop_last() =~= flat);
                assert(next.last() == fam[j as int]);
                assert(fam[j as int] == (family@, cases@[j as int].0@, cases@[j as int].1));
            }
            let (case, cell) = &cases[j];
            let ghost xs = cell_exclusions(*cell).map_values(|x: (String, String)| seq![family@, case@, x.0@, x.1@]);
            let ghost p_before = exclusion_records(flat);
            match audit_cell(family, case, cell, disk, &mut acc) {
                Ok(()) => {},
                Err(e) => {
                    proof {
                        let all = inv@;
                        lemma_cells_concat(all.take(i + 1), all.skip(i + 1));
                        assert(all.take(i + 1) + all.skip(i + 1) =~= all);
                        assert(all.take(i + 1).drop_last() =~= all.take(i as int));
                        assert(all.take(i + 1).last() == all[i as int]);
                        assert(fam.take(j + 1) + fam.skip(j + 1) =~= fam);
                        assert(base + fam =~= next + (fam.skip(j + 1)));
                        lemma_fault_concat(next, fam.skip(j + 1) + inventory_cells(all.skip(i + 1)));
                        assert(inventory_cells(all) =~= next + (fam.skip(j + 1) + inventory_cells(all.skip(i + 1))));
                    }
                    return Err(e);
                },
            }
            proof {
                lemma_scoped_concat(p_before, xs, keys(disk@));
            }
            j = j + 1;
        }
        proof {
            assert(fam.take(cases@.len() as int) =~= fam);
            assert(inv@.take(i + 1).drop_last() =~= inv@.take(i as int));
            assert(inv@.take(i + 1).last() == inv@[i as int]);
        }
        i = i + 1;
    }
    proof {
        assert(inv@.take(inv@.len() as int) =~= inv@);
    }
    Ok(acc)
}


proof fn lemma_cells_concat(a: Seq<(String, Vec<(String, DeclaredCell)>)>, b: Seq<(String, Vec<(String, DeclaredCell)>)>)
    ensures
        inventory_cells(a + b) == inventory_cells(a) + inventory_cells(b),
    decreases b.len(),
{
    if b.len() == 0 {
        assert(a + b =~= a);
        assert(inventory_cells(a) + seq![] =~= inventory_cells(a));
    } else {
        lemma_cells_concat(a, b.drop_last());
        assert((a + b).drop_last() =~= a + b.drop_last());
        assert((a + b).last() == b.last());
    }
}

proof fn lemma_fault_concat(a: Seq<(Seq<char>, Seq<char>, DeclaredCell)>, b: Seq<(Seq<char>, Seq<char>, DeclaredCell)>)
    ensures
        inventory_fault(a + b) == match inventory_fault(a) {
            Some(e) => Some(e),
            None => inventory_fault(b),
        },
    decreases b.len(),
{
    if b.len() == 0 {
        assert(a + b =~= a);
    } else {
        lemma_fault_concat(a, b.drop_last());
        assert((a + b).drop_last() =~= a + b.drop_last());
        assert((a + b).last() == b.last());
    }
}


/// The first fixture whose metadata could not be read, as its error.
pub open spec fn metadata_fault(cases: Seq<CaseFacts>) -> Option<CorpusError>
    decreases cases.len(),
{
    if cases.len() == 0 {
        None
    } else {
        match metadata_fault(cases.drop_last()) {
            Some(e) => Some(e),
            None => match cases.last().metadata {
                Err(e) => Some(e),
                Ok(_) => None,
            },
        }
    }
}

/// The language a positive case's control is declared in: its own unless it names another.
pub open spec fn control_language(m: CaseMetadata, key: CaseKey) -> Seq<char> {
    match m.control_language {
        Some(l) => l@,
        None => key.2@,
    }
}

/// The hygiene problems of one fixture, in order: no issue, a pending marker
/// on nothing, no expected truth, no input tree, a named control that does not exist.
pub open spec fn case_problems(f: CaseFacts, disk: Seq<Seq<Seq<char>>>) -> Seq<Seq<char>> {
    match f.metadata {
        Err(_) => seq![],
        Ok(m) => {
            let slash = f.key.slash_view();
            (if m.issue_ref matches Some(i) && !blank(i@) {
                seq![]
            } else {
                seq![slash + " has no issue_ref"@]
            }) + (if m.pending matches Some(p) && blank(p@) {
                seq![slash + " is pending on nothing; a marker with no issue is a case nobody comes back to"@]
            } else {
                seq![]
            }) + (if f.has_expected {
                seq![]
            } else {
                seq![slash + " has no expected.yaml"@]
            }) + (if f.has_input {
                seq![]
            } else {
                seq![slash + " has no input tree"@]
            }) + (match (m.kind, m.control_for_pair) {
                (Some(k), Some(pair)) => if k@ == "positive"@ && !disk.contains(
                    seq![f.key.0@, pair@, control_language(m, f.key)],
                ) {
                    seq![
                        slash + " names control "@ + str_debug(pair@) + " in "@ + control_language(m, f.key)
                            + ", which does not exist"@,
                    ]
                } else {
                    seq![]
                },
                _ => seq![],
            })
        },
    }
}

/// The positive case a control fixture names, when it names one.
pub open spec fn case_control(f: CaseFacts) -> Seq<Seq<Seq<char>>> {
    match f.metadata {
        Ok(m) => match (m.kind, m.control_for) {
            (Some(k), Some(c)) => if k@ == "control"@ && c@.len() > 0 {
                seq![seq![f.key.0@, c@, f.key.2@]]
            } else {
                seq![]
            },
            _ => seq![],
        },
        Err(_) => seq![],
    }
}

/// The criteria a fixture claims to reach, as one-field records.
pub open spec fn case_claims(f: CaseFacts) -> Seq<Seq<Seq<char>>> {
    match f.metadata {
        Ok(m) => m.criteria@.map_values(|c: String| seq![c@]),
        Err(_) => seq![],
    }
}

/// The problems of every fixture, in order.
pub open spec fn all_case_problems(cases: Seq<CaseFacts>, disk: Seq<Seq<Seq<char>>>) -> Seq<Seq<char>>
    decreases cases.len(),
{
    if cases.len() == 0 {
        seq![]
    } else {
        all_case_problems(cases.drop_last(), disk) + case_problems(cases.last(), disk)
    }
}

/// The controls every fixture names, in order.
pub open spec fn all_controls(cases: Seq<CaseFacts>) -> Seq<Seq<Seq<char>>>
    decreases cases.len(),
{
    if cases.len() == 0 {
        seq![]
    } else {
        all_controls(cases.drop_last()) + case_control(cases.last())
    }
}

/// The criteria every fixture claims, in order.
pub open spec fn all_claims(cases: Seq<CaseFacts>) -> Seq<Seq<Seq<char>>>
    decreases cases.len(),
{
    if cases.len() == 0 {
        seq![]
    } else {
        all_claims(cases.drop_last()) + case_claims(cases.last())
    }
}

/// The part of the audit that reads the fixtures' metadata.
pub struct CaseAudit {
    pub problems: Vec<String>,
    pub controls: Vec<Vec<String>>,
    pub claimed: Vec<Vec<String>>,
}

fn push_problem(list: &mut Vec<String>, slash: &String, tail: &str)
    ensures
        texts_of(final(list)@) == texts_of(old(list)@).push(slash@ + tail@),
{
    let mut m = slash.clone();
    push_text(&mut m, tail);
    push_text_item(list, m);
}

fn text_is(s: &String, t: &str) -> (r: bool)
    ensures
        r == (s@ == t@),
{
    *s == t.to_owned()
}

/// One fixture's problems, control and claims appended.
fn audit_case(f: &CaseFacts, disk: &Vec<Vec<String>>, acc: &mut CaseAudit) -> (r: Result<(), CorpusError>)
    ensures
        match f.metadata {
            Err(e) => r matches Err(x) && same_error(x, e),
            Ok(_) => {
                &&& r is Ok
                &&& texts_of(final(acc).problems@) == texts_of(old(acc).problems@) + case_problems(*f, keys(disk@))
                &&& keys(final(acc).controls@) == keys(old(acc).controls@) + case_control(*f)
                &&& keys(final(acc).claimed@) == keys(old(acc).claimed@) + case_claims(*f)
            },
        },
{
    let m = match &f.metadata {
        Ok(m) => m,
        Err(e) => {
            return Err(e.duplicate());
        },
    };
    let slash = f.key.slash_name();
    let ghost p0 = texts_of(acc.problems@);
    let no_issue = match &m.issue_ref {
        Some(i) => is_blank(i.as_str()),
        None => true,
    };
    if no_issue {
        push_problem(&mut acc.problems, &slash, " has no issue_ref");
    }
    let pending_on_nothing = match &m.pending {
        Some(p) => is_blank(p.as_str()),
        None => false,
    };
    if pending_on_nothing {
        push_problem(&mut acc.problems, &slash, " is pending on nothing; a marker with no issue is a case nobody comes back to");
    }
    if !f.has_expected {
        push_problem(&mut acc.problems, &slash, " has no expected.yaml");
    }
    if !f.has_input {
        push_problem(&mut acc.problems, &slash, " has no input tree");
    }
    match (&m.kind, &m.control_for_pair) {
        (Some(k), Some(pair)) => {
            if text_is(k, "positive") {
                let language = match &m.control_language {
                    Some(l) => l.clone(),
                    None => f.key.2.clone(),
                };
                let target = record3(&f.key.0, pair, &language);
                if !contains_key(disk, &target) {
                    let mut message = slash.clone();
                    push_text(&mut message, " names control ");
                    let shown = debug_str(pair.as_str());
                    push_text(&mut message, shown.as_str());
                    push_text(&mut message, " in ");
                    push_text(&mut message, language.as_str());
                    push_text(&mut message, ", which does not exist");
                    push_text_item(&mut acc.problems, message);
                }
            }
        },
        _ => {},
    }
    proof {
        assert(texts_of(acc.problems@) =~= p0 + case_problems(*f, keys(disk@)));
    }
    let ghost c0 = keys(acc.controls@);
    proof {
        reveal_strlit("");
        assert(""@ =~= Seq::<char>::empty());
    }
    match (&m.kind, &m.control_for) {
        (Some(k), Some(c)) => {
            let named = text_is(k, "control") && !text_is(c, "");
            proof {
                assert(f.metadata == Ok::<CaseMetadata, CorpusError>(*m));
                assert(m.kind == Some(*k));
                assert(m.control_for == Some(*c));
                if c@.len() == 0 {
                    assert(c@ =~= ""@);
                }
                assert(named == (k@ == "control"@ && c@.len() > 0));
            }
            if named {
                push_record(&mut acc.controls, record3(&f.key.0, c, &f.key.2));
                proof {
                    assert(case_control(*f) == seq![seq![f.key.0@, c@, f.key.2@]]);
                }
            } else {
                proof {
                    assert(case_control(*f) == Seq::<Seq<Seq<char>>>::empty());
                }
            }
        },
        _ => {
            proof {
                assert(case_control(*f) == Seq::<Seq<Seq<char>>>::empty());
            }
        },
    }
    proof {
        assert(keys(acc.controls@) =~= c0 + case_control(*f));
    }
    let ghost k0 = keys(acc.claimed@);
    let ghost claims = case_claims(*f);
    let mut i: usize = 0;
    while i < m.criteria.len()
        invariant
            0 <= i <= m.criteria@.len(),
            f.metadata == Ok::<CaseMetadata, CorpusError>(*m),
            claims == case_claims(*f),
            claims == m.criteria@.map_values(|c: String| seq![c@]),
            keys(acc.claimed@) == k0 + claims.take(i as int),
            texts_of(acc.problems@) == p0 + case_problems(*f, keys(disk@)),
            keys(acc.controls@) == c0 + case_control(*f),
            k0 == keys(old(acc).claimed@),
            c0 == keys(old(acc).controls@),
            p0 == texts_of(old(acc).problems@),
        decreases m.criteria@.len() - i,
    {
        let mut one: Vec<String> = Vec::new();
        one.push(m.criteria[i].clone());
        proof {
            assert(words(one@) =~= claims[i as int]);
        }
        push_record(&mut acc.claimed, one);
        proof {
            assert(claims.take(i + 1) =~= claims.take(i as int).push(claims[i as int]));
        }
        i = i + 1;
    }
    proof {
        assert(claims.take(m.criteria@.len() as int) =~= claims);
        assert(f.metadata is Ok);
    }
    Ok(())
}


proof fn lemma_meta_concat(a: Seq<CaseFacts>, b: Seq<CaseFacts>)
    ensures
        metadata_fault(a + b) == match metadata_fault(a) {
            Some(e) => Some(e),
            None => metadata_fault(b),
        },
    decreases b.len(),
{
    if b.len() == 0 {
        assert(a + b =~= a);
    } else {
        lemma_meta_concat(a, b.drop_last());
        assert((a + b).drop_last() =~= a + b.drop_last());
        assert((a + b).last() == b.last());
    }
}

/// The metadata part of the audit, or the error of the first fixture whose metadata could not be read.
pub fn audit_cases(cases: &Vec<CaseFacts>, disk: &Vec<Vec<String>>) -> (r: Result<CaseAudit, CorpusError>)
    ensures
        match metadata_fault(cases@) {
            Some(e) => r matches Err(x) && same_error(x, e),
            None => r matches Ok(a) && texts_of(a.problems@) == all_case_problems(cases@, keys(disk@))
                && keys(a.controls@) == all_controls(cases@) && keys(a.claimed@) == all_claims(cases@),
        },
{
    let mut acc = CaseAudit { problems: Vec::new(), controls: Vec::new(), claimed: Vec::new() };
    proof {
        assert(texts_of(acc.problems@) =~= seq![]);
        assert(keys(acc.controls@) =~= seq![]);
        assert(keys(acc.claimed@) =~= seq![]);
        assert(cases@.take(0) =~= seq![]);
    }
    let mut i: usize = 0;
    while i < cases.len()
        invariant
            0 <= i <= cases@.len(),
            metadata_fault(cases@.take(i as int)) is None,
            texts_of(acc.problems@) == all_case_problems(cases@.take(i as int), keys(disk@)),
            keys(acc.controls@) == all_controls(cases@.take(i as int)),
            keys(acc.claimed@) == all_claims(cases@.take(i as int)),
        decreases cases@.len() - i,
    {
        let ghost t = cases@.take(i + 1);
        proof {
            assert(t.drop_last() =~= cases@.take(i as int));
            assert(t.last() == cases@[i as int]);
        }
        match audit_case(&cases[i], disk, &mut acc) {
            Ok(()) => {},
            Err(e) => {
                proof {
                    lemma_meta_concat(t, cases@.skip(i + 1));
                    assert(t + cases@.skip(i + 1) =~= cases@);
                }
                return Err(e);
            },
        }
        i = i + 1;
    }
    proof {
        assert(cases@.take(cases@.len() as int) =~= cases@);
    }
    Ok(acc)
}

/// A list of texts as one-field records.
pub open spec fn singles(v: Seq<String>) -> Seq<Seq<Seq<char>>> {
    v.map_values(|s: String| seq![s@])
}

/// The criteria a declaration calls unreachable, as one-field records, in order.
pub open spec fn unreachable_keys(decl: ProducerDeclaration) -> Seq<Seq<Seq<char>>> {
    unreachable_view(decl.unreachable@).map_values(|p: (Seq<char>, Seq<char>)| seq![p.0])
}

/// One message per record: the producer, the criterion, and what is wrong with it.
pub open spec fn labelled(name: Seq<char>, xs: Seq<Seq<Seq<char>>>, suffix: Seq<char>) -> Seq<Seq<char>> {
    xs.map_values(|x: Seq<Seq<char>>| name + " "@ + x[0] + suffix)
}

/// The criteria a pin states and no fixture claims, less those declared unreachable.
pub open spec fn unreached_of(pin: Seq<Seq<Seq<char>>>, claimed: Seq<Seq<Seq<char>>>, uk: Seq<Seq<Seq<char>>>) -> Seq<Seq<Seq<char>>> {
    pin.filter(absent_in(claimed)).filter(absent_in(uk))
}

/// The coverage problems of one producer whose pin was read.
pub open spec fn coverage_problems(name: Seq<char>, decl: ProducerDeclaration, pin: PinState, claimed: Seq<Seq<Seq<char>>>) -> Seq<Seq<char>> {
    match pin {
        PinState::Criteria(list) => {
            let p = sorted_set(singles(list@));
            let uk = unreachable_keys(decl);
            labelled(name, unreached_of(p, claimed, uk), " is reached by no case and declared unreachable by nothing"@)
                + labelled(name, uk.filter(absent_in(p)), " is declared unreachable and the producer no longer states it"@)
                + labelled(name, claimed.filter(absent_in(p)), " is claimed by a case and stated by no requirement"@)
        },
        _ => seq![],
    }
}

/// Whether `c` is the coverage of a producer with this declaration and pin, against the claimed criteria.
pub open spec fn coverage_matches(c: CriterionCoverage, decl: ProducerDeclaration, pin: PinState, claimed: Seq<Seq<Seq<char>>>) -> bool {
    match pin {
        PinState::Unreadable(w) => c matches CriterionCoverage::Unavailable { why } && why@ == w@ + " is not readable from here"@,
        PinState::Criteria(list) => {
            let p = sorted_set(singles(list@));
            let uk = unreachable_keys(decl);
            c matches CriterionCoverage::Measured {
                total,
                reached,
                unreachable,
                unreached,
                stale_unreachable,
                claimed_but_undeclared,
            } && total == p.len() && singles(reached@) == claimed.filter(present_in(p)) && pair_views(unreachable@)
                == unreachable_view(decl.unreachable@) && singles(unreached@) == unreached_of(p, claimed, uk)
                && singles(stale_unreachable@) == uk.filter(absent_in(p)) && singles(claimed_but_undeclared@)
                == claimed.filter(absent_in(p))
        },
        PinState::Invalid(_) => false,
    }
}

fn to_singles(v: &Vec<Vec<String>>) -> (r: Vec<String>)
    requires
        forall|k: int| 0 <= k < v@.len() ==> (#[trigger] v@[k])@.len() == 1,
    ensures
        singles(r@) == keys(v@),
{
    let mut out: Vec<String> = Vec::new();
    let mut i: usize = 0;
    while i < v.len()
        invariant
            0 <= i <= v@.len(),
            forall|k: int| 0 <= k < v@.len() ==> (#[trigger] v@[k])@.len() == 1,
            singles(out@) == keys(v@).take(i as int),
        decreases v@.len() - i,
    {
        let s = v[i][0].clone();
        let ghost before = out@;
        out.push(s);
        proof {
            assert(words(v@[i as int]@) =~= seq![s@]);
            assert(singles(out@) =~= singles(before).push(seq![s@]));
            assert(keys(v@).take(i + 1) =~= keys(v@).take(i as int).push(keys(v@)[i as int]));
        }
        i = i + 1;
    }
    proof {
        assert(keys(v@).take(v@.len() as int) =~= keys(v@));
    }
    out
}

fn from_singles(v: &Vec<String>) -> (r: Vec<Vec<String>>)
    ensures
        keys(r@) == singles(v@),
{
    let mut out: Vec<Vec<String>> = Vec::new();
    let mut i: usize = 0;
    while i < v.len()
        invariant
            0 <= i <= v@.len(),
            keys(out@) == singles(v@).take(i as int),
        decreases v@.len() - i,
    {
        let mut one: Vec<String> = Vec::new();
        one.push(v[i].clone());
        proof {
            assert(words(one@) =~= seq![v@[i as int]@]);
        }
        push_record(&mut out, one);
        proof {
            assert(singles(v@).take(i + 1) =~= singles(v@).take(i as int).push(seq![v@[i as int]@]));
        }
        i = i + 1;
    }
    proof {
        assert(singles(v@).take(v@.len() as int) =~= singles(v@));
    }
    out
}

fn push_labelled(problems: &mut Vec<String>, name: &String, xs: &Vec<Vec<String>>, suffix: &str)
    requires
        forall|k: int| 0 <= k < xs@.len() ==> (#[trigger] xs@[k])@.len() == 1,
    ensures
        texts_of(final(problems)@) == texts_of(old(problems)@) + labelled(name@, keys(xs@), suffix@),
{
    let ghost p0 = texts_of(problems@);
    let ghost ls = labelled(name@, keys(xs@), suffix@);
    let mut i: usize = 0;
    while i < xs.len()
        invariant
            0 <= i <= xs@.len(),
            forall|k: int| 0 <= k < xs@.len() ==> (#[trigger] xs@[k])@.len() == 1,
            ls == labelled(name@, keys(xs@), suffix@),
            texts_of(problems@) == p0 + ls.take(i as int),
        decreases xs@.len() - i,
    {
        let mut m = name.clone();
        push_text(&mut m, " ");
        push_text(&mut m, xs[i][0].as_str());
        push_text(&mut m, suffix);
        proof {
            assert(keys(xs@)[i as int] == words(xs@[i as int]@));
            assert(m@ == ls[i as int]);
        }
        push_text_item(problems, m);
        proof {
            assert(ls.take(i + 1) =~= ls.take(i as int).push(ls[i as int]));
        }
        i = i + 1;
    }
    proof {
        assert(ls.take(xs@.len() as int) =~= ls);
    }
}

/// Every member of a filtered sequence keeps the arity the sequence's members have.
proof fn lemma_filter_one(s: Seq<Seq<Seq<char>>>, f: spec_fn(Seq<Seq<char>>) -> bool)
    requires
        forall|k: int| 0 <= k < s.len() ==> (#[trigger] s[k]).len() == 1,
    ensures
        forall|k: int| 0 <= k < s.filter(f).len() ==> (#[trigger] s.filter(f)[k]).len() == 1,
{
    assert forall|k: int| 0 <= k < s.filter(f).len() implies (#[trigger] s.filter(f)[k]).len() == 1 by {
        s.lemma_filter_contains_rev(f, s.filter(f)[k]);
        assert(s.filter(f).contains(s.filter(f)[k]));
    }
}

proof fn lemma_keys_one(v: Seq<Vec<String>>)
    requires
        forall|k: int| 0 <= k < keys(v).len() ==> (#[trigger] keys(v)[k]).len() == 1,
    ensures
        forall|k: int| 0 <= k < v.len() ==> (#[trigger] v[k])@.len() == 1,
{
    assert forall|k: int| 0 <= k < v.len() implies (#[trigger] v[k])@.len() == 1 by {
        assert(keys(v)[k] == words(v[k]@));
    }
}

/// One producer's coverage, with its problems appended.
fn producer_coverage(
    name: &String,
    decl: &ProducerDeclaration,
    pin: &PinState,
    claimed: &Vec<Vec<String>>,
    problems: &mut Vec<String>,
) -> (r: Result<CriterionCoverage, CorpusError>)
    requires
        forall|k: int| 0 <= k < keys(claimed@).len() ==> (#[trigger] keys(claimed@)[k]).len() == 1,
        key_ordered(decl.unreachable@),
    ensures
        match *pin {
            PinState::Invalid(e) => r matches Err(x) && same_error(x, e),
            PinState::Unreadable(_) => r matches Ok(c) && coverage_matches(c, *decl, *pin, keys(claimed@))
                && final(problems)@ == old(problems)@,
            PinState::Criteria(_) => r matches Ok(c) && coverage_matches(c, *decl, *pin, keys(claimed@)) && texts_of(
                final(problems)@,
            ) == texts_of(old(problems)@) + coverage_problems(name@, *decl, *pin, keys(claimed@)),
        },
{
    match pin {
        PinState::Invalid(e) => Err(e.duplicate()),
        PinState::Unreadable(w) => {
            let mut why = w.clone();
            push_text(&mut why, " is not readable from here");
            Ok(CriterionCoverage::Unavailable { why })
        },
        PinState::Criteria(list) => {
            let records = from_singles(list);
            let set = to_sorted_set(&records);
            let unreachable = parse_unreachable(decl)?;
            let mut uk_list: Vec<Vec<String>> = Vec::new();
            let mut i: usize = 0;
            let ghost uv = unreachable_view(decl.unreachable@);
            while i < unreachable.len()
                invariant
                    0 <= i <= unreachable@.len(),
                    pair_views(unreachable@) == uv,
                    keys(uk_list@) == uv.map_values(|p: (Seq<char>, Seq<char>)| seq![p.0]).take(i as int),
                decreases unreachable@.len() - i,
            {
                let mut one: Vec<String> = Vec::new();
                one.push(unreachable[i].0.clone());
                proof {
                    assert(words(one@) =~= seq![uv[i as int].0]);
                }
                push_record(&mut uk_list, one);
                proof {
                    let m = uv.map_values(|p: (Seq<char>, Seq<char>)| seq![p.0]);
                    assert(m.take(i + 1) =~= m.take(i as int).push(m[i as int]));
                }
                i = i + 1;
            }
            let ghost p = keys(set@);
            let ghost c = keys(claimed@);
            let ghost uk = unreachable_keys(*decl);
            proof {
                let m = uv.map_values(|p: (Seq<char>, Seq<char>)| seq![p.0]);
                assert(m.take(unreachable@.len() as int) =~= m);
                assert(keys(uk_list@) == uk);
                assert forall|k: int| 0 <= k < singles(list@).len() implies (#[trigger] singles(list@)[k]).len() == 1 by {}
                lemma_sorted_set_arity(singles(list@), 1);
                assert forall|k: int| 0 <= k < uk.len() implies (#[trigger] uk[k]).len() == 1 by {}
                lemma_filter_one(c, present_in(p));
                lemma_filter_one(c, absent_in(p));
                lemma_filter_one(p, absent_in(c));
                lemma_filter_one(p.filter(absent_in(c)), absent_in(uk));
                lemma_filter_one(uk, absent_in(p));
            }
            let reached = meet(claimed, &set);
            let not_claimed = minus(&set, claimed);
            let unreached = minus(&not_claimed, &uk_list);
            let stale = minus(&uk_list, &set);
            let phantom = minus(claimed, &set);
            proof {
                lemma_keys_one(reached@);
                lemma_keys_one(not_claimed@);
                lemma_keys_one(unreached@);
                lemma_keys_one(stale@);
                lemma_keys_one(phantom@);
            }
            let ghost p0 = texts_of(problems@);
            push_labelled(problems, name, &unreached, " is reached by no case and declared unreachable by nothing");
            push_labelled(problems, name, &stale, " is declared unreachable and the producer no longer states it");
            push_labelled(problems, name, &phantom, " is claimed by a case and stated by no requirement");
            proof {
                assert(texts_of(problems@) =~= p0 + coverage_problems(name@, *decl, *pin, keys(claimed@)));
            }
            Ok(CriterionCoverage::Measured {
                total: set.len(),
                reached: to_singles(&reached),
                unreachable,
                unreached: to_singles(&unreached),
                stale_unreachable: to_singles(&stale),
                claimed_but_undeclared: to_singles(&phantom),
            })
        },
    }
}


/// Case keys as records.
pub open spec fn case_keys_view(v: Seq<CaseKey>) -> Seq<Seq<Seq<char>>> {
    v.map_values(|k: CaseKey| key_words(k))
}

/// Scoped-out tuples as records.
pub open spec fn quads_view(v: Seq<(String, String, String, String)>) -> Seq<Seq<Seq<char>>> {
    v.map_values(|q: (String, String, String, String)| seq![q.0@, q.1@, q.2@, q.3@])
}

/// The coverage problems of the first `n` producers, in order.
pub open spec fn producer_problems(
    producers: Seq<(String, ProducerDeclaration)>,
    pins: Seq<PinState>,
    claimed: Seq<Seq<Seq<char>>>,
    n: nat,
) -> Seq<Seq<char>>
    decreases n,
{
    if n == 0 {
        seq![]
    } else {
        producer_problems(producers, pins, claimed, (n - 1) as nat) + coverage_problems(
            producers[n - 1].0@,
            producers[n - 1].1,
            pins[n - 1],
            claimed,
        )
    }
}

/// Whether `rep` is the bounds report of the manifest, the fixtures on disk and the producers' pins.
pub open spec fn report_matches(rep: BoundsReport, manifest: Manifest, cases: Seq<CaseFacts>, pins: Seq<PinState>) -> bool {
    let cells = inventory_cells(manifest.inventory@);
    let declared = declared_keys(cells);
    let disk = disk_keys(cases);
    let claimed = sorted_set(all_claims(cases));
    let producers = manifest.producers@;
    let problems = scoped_problems(exclusion_records(cells), disk) + all_case_problems(cases, disk) + producer_problems(
        producers,
        pins,
        claimed,
        producers.len(),
    );
    &&& case_keys_view(rep.covered@) == sorted_set(declared.filter(present_in(disk)))
    &&& case_keys_view(rep.gaps@) == sorted_set(declared.filter(absent_in(disk)))
    &&& rep.gap_count == rep.gaps@.len()
    &&& quads_view(rep.scoped_out@) == sorted_set(exclusion_records(cells))
    &&& case_keys_view(rep.undeclared@) == sorted_set(disk.filter(absent_in(declared)))
    &&& case_keys_view(rep.controls@) == sorted_set(all_controls(cases))
    &&& singles(rep.problems@) == sorted_set(problems.map_values(|m: Seq<char>| seq![m]))
    &&& rep.criterion_coverage@.len() == producers.len()
    &&& forall|k: int|
        0 <= k < producers.len() ==> (#[trigger] rep.criterion_coverage@[k]).0@ == producers[k].0@
            && coverage_matches(rep.criterion_coverage@[k].1, producers[k].1, pins[k], claimed)
}

proof fn lemma_declared_arity(cells: Seq<(Seq<char>, Seq<char>, DeclaredCell)>)
    ensures
        forall|k: int| 0 <= k < declared_keys(cells).len() ==> (#[trigger] declared_keys(cells)[k]).len() == 3,
    decreases cells.len(),
{
    if cells.len() > 0 {
        lemma_declared_arity(cells.drop_last());
        let a = declared_keys(cells.drop_last());
        let c = cells.last();
        let b = cell_languages(c.2).map_values(|l: String| seq![c.0, c.1, l@]);
        assert forall|k: int| 0 <= k < (a + b).len() implies (#[trigger] (a + b)[k]).len() == 3 by {
            if k >= a.len() {
                assert((a + b)[k] == b[k - a.len()]);
            }
        }
    }
}

proof fn lemma_exclusion_arity(cells: Seq<(Seq<char>, Seq<char>, DeclaredCell)>)
    ensures
        forall|k: int| 0 <= k < exclusion_records(cells).len() ==> (#[trigger] exclusion_records(cells)[k]).len() == 4,
    decreases cells.len(),
{
    if cells.len() > 0 {
        lemma_exclusion_arity(cells.drop_last());
        let a = exclusion_records(cells.drop_last());
        let c = cells.last();
        let b = cell_exclusions(c.2).map_values(|x: (String, String)| seq![c.0, c.1, x.0@, x.1@]);
        assert forall|k: int| 0 <= k < (a + b).len() implies (#[trigger] (a + b)[k]).len() == 4 by {
            if k >= a.len() {
                assert((a + b)[k] == b[k - a.len()]);
            }
        }
    }
}

proof fn lemma_controls_arity(cases: Seq<CaseFacts>)
    ensures
        forall|k: int| 0 <= k < all_controls(cases).len() ==> (#[trigger] all_controls(cases)[k]).len() == 3,
    decreases cases.len(),
{
    if cases.len() > 0 {
        lemma_controls_arity(cases.drop_last());
        let a = all_controls(cases.drop_last());
        let b = case_control(cases.last());
        assert forall|k: int| 0 <= k < (a + b).len() implies (#[trigger] (a + b)[k]).len() == 3 by {
            if k >= a.len() {
                assert((a + b)[k] == b[k - a.len()]);
            }
        }
    }
}

proof fn lemma_claims_arity(cases: Seq<CaseFacts>)
    ensures
        forall|k: int| 0 <= k < all_claims(cases).len() ==> (#[trigger] all_claims(cases)[k]).len() == 1,
    decreases cases.len(),
{
    if cases.len() > 0 {
        lemma_claims_arity(cases.drop_last());
        let a = all_claims(cases.drop_last());
        let b = case_claims(cases.last());
        assert forall|k: int| 0 <= k < (a + b).len() implies (#[trigger] (a + b)[k]).len() == 1 by {
            if k >= a.len() {
                assert((a + b)[k] == b[k - a.len()]);
            }
        }
    }
}

proof fn lemma_filter_n(s: Seq<Seq<Seq<char>>>, f: spec_fn(Seq<Seq<char>>) -> bool, n: nat)
    requires
        forall|k: int| 0 <= k < s.len() ==> (#[trigger] s[k]).len() == n,
    ensures
        forall|k: int| 0 <= k < s.filter(f).len() ==> (#[trigger] s.filter(f)[k]).len() == n,
{
    assert forall|k: int| 0 <= k < s.filter(f).len() implies (#[trigger] s.filter(f)[k]).len() == n by {
        s.lemma_filter_contains_rev(f, s.filter(f)[k]);
        assert(s.filter(f).contains(s.filter(f)[k]));
    }
}

proof fn lemma_keys_n(v: Seq<Vec<String>>, n: nat)
    requires
        forall|k: int| 0 <= k < keys(v).len() ==> (#[trigger] keys(v)[k]).len() == n,
    ensures
        forall|k: int| 0 <= k < v.len() ==> (#[trigger] v[k])@.len() == n,
{
    assert forall|k: int| 0 <= k < v.len() implies (#[trigger] v[k])@.len() == n by {
        assert(keys(v)[k] == words(v[k]@));
    }
}

fn to_case_keys(v: &Vec<Vec<String>>) -> (r: Vec<CaseKey>)
    requires
        forall|k: int| 0 <= k < v@.len() ==> (#[trigger] v@[k])@.len() == 3,
    ensures
        case_keys_view(r@) == keys(v@),
{
    let mut out: Vec<CaseKey> = Vec::new();
    let mut i: usize = 0;
    while i < v.len()
        invariant
            0 <= i <= v@.len(),
            forall|k: int| 0 <= k < v@.len() ==> (#[trigger] v@[k])@.len() == 3,
            case_keys_view(out@) == keys(v@).take(i as int),
        decreases v@.len() - i,
    {
        let w = &v[i];
        let key = CaseKey(w[0].clone(), w[1].clone(), w[2].clone());
        let ghost before = out@;
        out.push(key);
        proof {
            assert(words(w@) =~= key_words(key));
            assert(case_keys_view(out@) =~= case_keys_view(before).push(key_words(key)));
            assert(keys(v@).take(i + 1) =~= keys(v@).take(i as int).push(keys(v@)[i as int]));
        }
        i = i + 1;
    }
    proof {
        assert(keys(v@).take(v@.len() as int) =~= keys(v@));
    }
    out
}

fn to_quads(v: &Vec<Vec<String>>) -> (r: Vec<(String, String, String, String)>)
    requires
        forall|k: int| 0 <= k < v@.len() ==> (#[trigger] v@[k])@.len() == 4,
    ensures
        quads_view(r@) == keys(v@),
{
    let mut out: Vec<(String, String, String, String)> = Vec::new();
    let mut i: usize = 0;
    while i < v.len()
        invariant
            0 <= i <= v@.len(),
            forall|k: int| 0 <= k < v@.len() ==> (#[trigger] v@[k])@.len() == 4,
            quads_view(out@) == keys(v@).take(i as int),
        decreases v@.len() - i,
    {
        let w = &v[i];
        let q = (w[0].clone(), w[1].clone(), w[2].clone(), w[3].clone());
        let ghost before = out@;
        out.push(q);
        proof {
            assert(words(w@) =~= seq![q.0@, q.1@, q.2@, q.3@]);
            assert(quads_view(out@) =~= quads_view(before).push(seq![q.0@, q.1@, q.2@, q.3@]));
            assert(keys(v@).take(i + 1) =~= keys(v@).take(i as int).push(keys(v@)[i as int]));
        }
        i = i + 1;
    }
    proof {
        assert(keys(v@).take(v@.len() as int) =~= keys(v@));
    }
    out
}

fn append_texts(out: &mut Vec<String>, more: &Vec<String>)
    ensures
        texts_of(final(out)@) == texts_of(old(out)@) + texts_of(more@),
{
    let ghost p0 = texts_of(out@);
    let mut i: usize = 0;
    while i < more.len()
        invariant
            0 <= i <= more@.len(),
            texts_of(out@) == p0 + texts_of(more@).take(i as int),
        decreases more@.len() - i,
    {
        push_text_item(out, more[i].clone());
        proof {
            assert(texts_of(more@).take(i + 1) =~= texts_of(more@).take(i as int).push(more@[i as int]@));
        }
        i = i + 1;
    }
    proof {
        assert(texts_of(more@).take(more@.len() as int) =~= texts_of(more@));
    }
}

/// The error of the first pin, in producer order, that could not be parsed.
pub open spec fn first_invalid_pin(pins: Seq<PinState>) -> Option<CorpusError>
    decreases pins.len(),
{
    if pins.len() == 0 {
        None
    } else {
        match first_invalid_pin(pins.drop_last()) {
            Some(e) => Some(e),
            None => match pins.last() {
                PinState::Invalid(e) => Some(e),
                _ => None,
            },
        }
    }
}

/// An invalid pin among the first `n` is the first invalid pin of them all.
proof fn lemma_first_invalid_prefix(pins: Seq<PinState>, n: int)
    requires
        0 <= n <= pins.len(),
        first_invalid_pin(pins.take(n)) is Some,
    ensures
        first_invalid_pin(pins) == first_invalid_pin(pins.take(n)),
    decreases pins.len() - n,
{
    if n < pins.len() {
        let t = pins.take(n + 1);
        assert(t.drop_last() =~= pins.take(n));
        lemma_first_invalid_prefix(pins, n + 1);
    } else {
        assert(pins.take(n) =~= pins);
    }
}

/// Derive the complete inventory, control, and criterion-coverage report.
///
/// The first error stands: an exclusion without a reason in the manifest,
/// then a fixture whose metadata could not be read, then (in producer order)
/// a pin that could not be parsed.
pub fn audit(manifest: &Manifest, cases: &Vec<CaseFacts>, pins: &Vec<PinState>) -> (r: Result<BoundsReport, CorpusError>)
    requires
        manifest.wf(),
        pins@.len() == manifest.producers@.len(),
    ensures
        match inventory_fault(inventory_cells(manifest.inventory@)) {
            Some(e) => r matches Err(CorpusError::Invariant(m)) && m@ == e,
            None => match metadata_fault(cases@) {
                Some(e) => r matches Err(x) && same_error(x, e),
                None => match first_invalid_pin(pins@) {
                    Some(e) => r matches Err(x) && same_error(x, e),
                    None => r matches Ok(rep) && report_matches(rep, *manifest, cases@, pins@),
                },
            },
        },
{
    let disk = disk_records(cases);
    let inventory = audit_inventory(manifest, &disk)?;
    let case_audit = audit_cases(cases, &disk)?;
    let ghost cells = inventory_cells(manifest.inventory@);
    proof {
        lemma_declared_arity(cells);
        lemma_exclusion_arity(cells);
        lemma_controls_arity(cases@);
        lemma_claims_arity(cases@);
        assert forall|k: int| 0 <= k < keys(disk@).len() implies (#[trigger] keys(disk@)[k]).len() == 3 by {
            assert(keys(disk@)[k] == key_words(cases@[k].key));
        }
        lemma_filter_n(keys(inventory.declared@), present_in(keys(disk@)), 3);
        lemma_filter_n(keys(inventory.declared@), absent_in(keys(disk@)), 3);
        lemma_filter_n(keys(disk@), absent_in(keys(inventory.declared@)), 3);
        lemma_sorted_set_arity(keys(inventory.declared@).filter(present_in(keys(disk@))), 3);
        lemma_sorted_set_arity(keys(inventory.declared@).filter(absent_in(keys(disk@))), 3);
        lemma_sorted_set_arity(keys(disk@).filter(absent_in(keys(inventory.declared@))), 3);
        lemma_sorted_set_arity(keys(inventory.exclusions@), 4);
        lemma_sorted_set_arity(keys(case_audit.controls@), 3);
        lemma_sorted_set_arity(keys(case_audit.claimed@), 1);
    }
    let covered = to_sorted_set(&meet(&inventory.declared, &disk));
    let gaps = to_sorted_set(&minus(&inventory.declared, &disk));
    let scoped = to_sorted_set(&inventory.exclusions);
    let undeclared = to_sorted_set(&minus(&disk, &inventory.declared));
    let controls = to_sorted_set(&case_audit.controls);
    let claimed = to_sorted_set(&case_audit.claimed);
    proof {
        lemma_keys_n(covered@, 3);
        lemma_keys_n(gaps@, 3);
        lemma_keys_n(scoped@, 4);
        lemma_keys_n(undeclared@, 3);
        lemma_keys_n(controls@, 3);
    }
    let mut problems: Vec<String> = Vec::new();
    proof {
        assert(texts_of(problems@) =~= seq![]);
        assert(seq![] + texts_of(inventory.problems@) =~= texts_of(inventory.problems@));
    }
    append_texts(&mut problems, &inventory.problems);
    append_texts(&mut problems, &case_audit.problems);
    let ghost p_cases = texts_of(problems@);
    let ghost producers = manifest.producers@;
    let ghost c = keys(claimed@);
    let mut coverage: Vec<(String, CriterionCoverage)> = Vec::new();
    let mut i: usize = 0;
    while i < manifest.producers.len()
        invariant
            0 <= i <= manifest.producers@.len(),
            producers == manifest.producers@,
            manifest.wf(),
            pins@.len() == producers.len(),
            inventory_fault(inventory_cells(manifest.inventory@)) is None,
            metadata_fault(cases@) is None,
            first_invalid_pin(pins@.take(i as int)) is None,
            c == keys(claimed@),
            forall|k: int| 0 <= k < c.len() ==> (#[trigger] c[k]).len() == 1,
            texts_of(problems@) == p_cases + producer_problems(producers, pins@, c, i as nat),
            coverage@.len() == i,
            forall|k: int|
                0 <= k < i ==> (#[trigger] coverage@[k]).0@ == producers[k].0@ && coverage_matches(
                    coverage@[k].1,
                    producers[k].1,
                    pins@[k],
                    c,
                ),
        decreases manifest.producers@.len() - i,
    {
        let (name, decl) = &manifest.producers[i];
        proof {
            let t = pins@.take(i + 1);
            assert(t.drop_last() =~= pins@.take(i as int));
            assert(t.last() == pins@[i as int]);
        }
        let entry = producer_coverage(name, decl, &pins[i], &claimed, &mut problems);
        match entry {
            Ok(cov) => {
                proof {
                    if pins@[i as int] is Unreadable {
                        assert(coverage_problems(name@, *decl, pins@[i as int], c) =~= seq![]);
                        assert(texts_of(problems@) =~= p_cases + producer_problems(producers, pins@, c, (i + 1) as nat));
                    }
                }
                coverage.push((name.clone(), cov));
            },
            Err(e) => {
                proof {
                    lemma_first_invalid_prefix(pins@, i + 1);
                }
                return Err(e);
            },
        }
        i = i + 1;
    }
    proof {
        assert(pins@.take(pins@.len() as int) =~= pins@);
    }
    let ghost all_problems = texts_of(problems@);
    let sorted_problems = to_singles_sorted(&problems);
    let rep = BoundsReport {
        criterion_coverage: coverage,
        gap_count: gaps.len(),
        covered: to_case_keys(&covered),
        gaps: to_case_keys(&gaps),
        scoped_out: to_quads(&scoped),
        undeclared: to_case_keys(&undeclared),
        problems: sorted_problems,
        controls: to_case_keys(&controls),
    };
    proof {
        let declared = declared_keys(cells);
        let dk = disk_keys(cases@);
        assert(case_keys_view(rep.covered@) == sorted_set(declared.filter(present_in(dk))));
        assert(case_keys_view(rep.gaps@) == sorted_set(declared.filter(absent_in(dk))));
        assert(quads_view(rep.scoped_out@) == sorted_set(exclusion_records(cells)));
        assert(case_keys_view(rep.undeclared@) == sorted_set(dk.filter(absent_in(declared))));
        assert(case_keys_view(rep.controls@) == sorted_set(all_controls(cases@)));
        assert(all_problems == scoped_problems(exclusion_records(cells), dk) + all_case_problems(cases@, dk)
            + producer_problems(producers, pins@, sorted_set(all_claims(cases@)), producers.len()));
    }
    Ok(rep)
}

/// Texts sorted, each once.
fn to_singles_sorted(v: &Vec<String>) -> (r: Vec<String>)
    ensures
        singles(r@) == sorted_set(texts_of(v@).map_values(|m: Seq<char>| seq![m])),
{
    let records = from_singles(v);
    proof {
        assert(singles(v@) =~= texts_of(v@).map_values(|m: Seq<char>| seq![m]));
        assert forall|k: int| 0 <= k < singles(v@).len() implies (#[trigger] singles(v@)[k]).len() == 1 by {}
        lemma_sorted_set_arity(singles(v@), 1);
    }
    let set = to_sorted_set(&records);
    proof {
        lemma_keys_n(set@, 1);
    }
    to_singles(&set)
}

} // verus!
