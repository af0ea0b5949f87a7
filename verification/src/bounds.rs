//! Corpus inventory: case identities, case metadata, and the fail-closed bounds report.
use vstd::prelude::*;
use crate::error::CorpusError;
use crate::order::{keys, words, sorted_set, to_sorted_set, lemma_sorted_set_arity, chars_lt};
use crate::text::{push_text, is_blank, is_white, debug_str, str_debug};

pub use crate::audit::audit;

verus! {

/// A stable `(family, case, language)` fixture identity.
pub struct CaseKey(pub String, pub String, pub String);

impl CaseKey {
    /// The slash-separated public case key.
    pub open spec fn slash_view(&self) -> Seq<char> {
        self.0@ + "/"@ + self.1@ + "/"@ + self.2@
    }

    /// Render the slash-separated public case key.
    pub fn slash_name(&self) -> (r: String)
        ensures
            r@ == self.slash_view(),
    {
        let mut out = self.0.clone();
        push_text(&mut out, "/");
        push_text(&mut out, self.1.as_str());
        push_text(&mut out, "/");
        push_text(&mut out, self.2.as_str());
        out
    }
}

/// The case metadata used by inventory and scoring.
pub struct CaseMetadata {
    /// Fixture source language.
    pub language: String,
    /// Positive/control classification.
    pub kind: Option<String>,
    /// Owning issue.
    pub issue_ref: Option<String>,
    /// An issue that intentionally holds a failing expectation open.
    pub pending: Option<String>,
    /// Positive case named by a control.
    pub control_for: Option<String>,
    /// Control case named by a positive.
    pub control_for_pair: Option<String>,
    /// Non-local control language.
    pub control_language: Option<String>,
    /// Producer criteria reached by this fixture.
    pub criteria: Vec<String>,
}


/// One inventory cell: the languages a case must cover, and the languages it
/// will never cover, each with the reason why (in language order).
pub enum DeclaredCell {
    /// Every listed language is required.
    Languages(Vec<String>),
    /// Required languages plus explicitly reasoned exclusions.
    Detailed { languages: Vec<String>, out_of_scope: Vec<(String, String)> },
}

/// Whether a text is empty once trimmed.
pub open spec fn blank(s: Seq<char>) -> bool {
    forall|i: int| 0 <= i < s.len() ==> is_white(#[trigger] s[i])
}

/// The first exclusion without a reason, as the error it raises.
pub open spec fn exclusion_fault(out_of_scope: Seq<(String, String)>) -> Option<Seq<char>>
    decreases out_of_scope.len(),
{
    if out_of_scope.len() == 0 {
        None
    } else if blank(out_of_scope[0].1@) {
        Some("out_of_scope["@ + out_of_scope[0].0@ + "] has no reason; an exclusion without one is a gap wearing a different word"@)
    } else {
        exclusion_fault(out_of_scope.drop_first())
    }
}

/// The languages a cell requires.
pub open spec fn cell_languages(cell: DeclaredCell) -> Seq<String> {
    match cell {
        DeclaredCell::Languages(l) => l@,
        DeclaredCell::Detailed { languages, .. } => languages@,
    }
}

/// The exclusions a cell declares.
pub open spec fn cell_exclusions(cell: DeclaredCell) -> Seq<(String, String)> {
    match cell {
        DeclaredCell::Languages(_) => seq![],
        DeclaredCell::Detailed { out_of_scope, .. } => out_of_scope@,
    }
}

/// The error a cell raises: an exclusion without a reason.
pub open spec fn cell_fault(cell: DeclaredCell) -> Option<Seq<char>> {
    exclusion_fault(cell_exclusions(cell))
}

impl DeclaredCell {
    /// The cell's required languages and exclusions, or the error of an exclusion without a reason.
    pub fn parts(&self) -> (r: Result<(&[String], &[(String, String)]), CorpusError>)
        ensures
            match cell_fault(*self) {
                Some(e) => r matches Err(CorpusError::Invariant(m)) && m@ == e,
                None => r matches Ok((l, x)) && l@ == cell_languages(*self) && x@ == cell_exclusions(*self),
            },
    {
        match self {
            DeclaredCell::Languages(languages) => Ok((languages.as_slice(), &[])),
            DeclaredCell::Detailed { languages, out_of_scope } => {
                let mut i: usize = 0;
                proof {
                    assert(out_of_scope@.skip(0) =~= out_of_scope@);
                }
                while i < out_of_scope.len()
                    invariant
                        0 <= i <= out_of_scope@.len(),
                        exclusion_fault(out_of_scope@) == exclusion_fault(out_of_scope@.skip(i as int)),
                        cell_fault(*self) == exclusion_fault(out_of_scope@),
                    decreases out_of_scope@.len() - i,
                {
                    proof {
                        assert(out_of_scope@.skip(i as int).drop_first() =~= out_of_scope@.skip(i + 1));
                        assert(out_of_scope@.skip(i as int)[0] == out_of_scope@[i as int]);
                    }
                    if is_blank(out_of_scope[i].1.as_str()) {
                        let mut message = "out_of_scope[".to_owned();
                        push_text(&mut message, out_of_scope[i].0.as_str());
                        push_text(&mut message, "] has no reason; an exclusion without one is a gap wearing a different word");
                        return Err(CorpusError::Invariant(message));
                    }
                    i = i + 1;
                }
                proof {
                    assert(out_of_scope@.skip(i as int) =~= seq![]);
                }
                Ok((languages.as_slice(), out_of_scope.as_slice()))
            },
        }
    }
}

/// A family name held for later work.
pub struct ReservedFamily {
    /// Owning issue.
    pub issue_ref: String,
    /// Why the family is not populated yet.
    pub reason: String,
}

/// One producer's pinned criterion coverage declaration.
pub struct ProducerDeclaration {
    /// Repository-relative pin file.
    pub criteria_pin: String,
    /// Reason name to prose containing criterion identifiers, in reason order.
    pub unreachable: Vec<(String, String)>,
}

/// Map entries in strictly ascending key order, as a `BTreeMap` holds them:
/// each key once, and `str` order between them.
pub open spec fn key_ordered<V>(entries: Seq<(String, V)>) -> bool {
    forall|i: int, j: int| 0 <= i < j < entries.len() ==> chars_lt(#[trigger] entries[i].0@, #[trigger] entries[j].0@)
}

/// The exclusions of a cell are a map in key order.
pub open spec fn cell_ordered(cell: DeclaredCell) -> bool {
    key_ordered(cell_exclusions(cell))
}

/// The parts of the corpus manifest the bounds engine interprets; each map is
/// held as its entries in key order.
pub struct Manifest {
    /// Declared case/language matrix, by family then case.
    pub inventory: Vec<(String, Vec<(String, DeclaredCell)>)>,
    /// Reserved but deliberately unpopulated families.
    pub reserved_families: Vec<(String, ReservedFamily)>,
    /// Producers whose criteria coverage is measured.
    pub producers: Vec<(String, ProducerDeclaration)>,
}

impl Manifest {
    /// Every map of the manifest, at every level, is in strictly ascending key order.
    pub open spec fn wf(&self) -> bool {
        &&& key_ordered(self.inventory@)
        &&& forall|f: int| 0 <= f < self.inventory@.len() ==> key_ordered(#[trigger] self.inventory@[f].1@)
        &&& forall|f: int, c: int|
            0 <= f < self.inventory@.len() && 0 <= c < self.inventory@[f].1@.len() ==> cell_ordered(
                #[trigger] self.inventory@[f].1@[c].1,
            )
        &&& key_ordered(self.reserved_families@)
        &&& key_ordered(self.producers@)
        &&& forall|p: int| 0 <= p < self.producers@.len() ==> key_ordered(#[trigger] self.producers@[p].1.unreachable@)
    }
}

/// The criterion identifiers that `(?:FR|NFR|StR)-\d+-(?:AC|CON|VC)-\d+`
/// finds in a text, in order.
pub uninterp spec fn criteria_in(text: Seq<char>) -> Seq<Seq<char>>;

/// `Regex::find_iter` with the criterion pattern above: each match's text,
/// in order. `Regex::new` fails only on a pattern that is not valid syntax or
/// that exceeds the size limit, and this fixed pattern is neither, so the
/// result is always `Ok`.
#[verifier::external_body]
fn find_criteria(text: &str) -> (r: Result<Vec<String>, String>)
    ensures
        r is Ok,
        r matches Ok(v) ==> words(v@) == criteria_in(text@),
{
    match regex::Regex::new(r"(?:FR|NFR|StR)-\d+-(?:AC|CON|VC)-\d+") {
        Ok(re) => Ok(re.find_iter(text).map(|found| found.as_str().to_owned()).collect()),
        Err(error) => Err(error.to_string()),
    }
}

/// Each criterion an unreachable declaration names, with the reason naming it, in order.
pub open spec fn found_pairs(entries: Seq<(String, String)>) -> Seq<(Seq<char>, Seq<char>)>
    decreases entries.len(),
{
    if entries.len() == 0 {
        seq![]
    } else {
        let e = entries.last();
        found_pairs(entries.drop_last()) + criteria_in(e.1@).map_values(|c: Seq<char>| (c, e.0@))
    }
}

/// The reason of the last pair naming `c`: later reasons replace earlier ones.
pub open spec fn last_reason(pairs: Seq<(Seq<char>, Seq<char>)>, c: Seq<char>) -> Seq<char>
    decreases pairs.len(),
{
    if pairs.len() == 0 {
        seq![]
    } else if pairs.last().0 == c {
        pairs.last().1
    } else {
        last_reason(pairs.drop_last(), c)
    }
}

/// The criteria declared unreachable, each once in order, with the reason that names it last.
pub open spec fn unreachable_view(entries: Seq<(String, String)>) -> Seq<(Seq<char>, Seq<char>)> {
    let pairs = found_pairs(entries);
    sorted_set(pairs.map_values(|p: (Seq<char>, Seq<char>)| seq![p.0])).map_values(
        |k: Seq<Seq<char>>| (k[0], last_reason(pairs, k[0])),
    )
}

/// The view of a list of string pairs.
pub open spec fn pair_views(v: Seq<(String, String)>) -> Seq<(Seq<char>, Seq<char>)> {
    v.map_values(|p: (String, String)| (p.0@, p.1@))
}

/// Every criterion a declaration calls unreachable, with the reason that names
/// it; where several reasons name one, the greatest (the last in key order).
pub fn parse_unreachable(declaration: &ProducerDeclaration) -> (r: Result<Vec<(String, String)>, CorpusError>)
    requires
        key_ordered(declaration.unreachable@),
    ensures
        r matches Ok(v) && pair_views(v@) == unreachable_view(declaration.unreachable@),
{
    let entries = &declaration.unreachable;
    let mut found: Vec<(String, String)> = Vec::new();
    let mut i: usize = 0;
    while i < entries.len()
        invariant
            0 <= i <= entries@.len(),
            pair_views(found@) == found_pairs(entries@.take(i as int)),
        decreases entries@.len() - i,
    {
        proof {
            let t = entries@.take(i + 1);
            assert(t.drop_last() =~= entries@.take(i as int));
            assert(t.last() == entries@[i as int]);
        }
        let matches = match find_criteria(entries[i].1.as_str()) {
            Ok(v) => v,
            Err(why) => {
                return Err(CorpusError::Invariant(why));
            },
        };
        let ghost start = pair_views(found@);
        let ghost reason = entries@[i as int].0@;
        let mut k: usize = 0;
        while k < matches.len()
            invariant
                0 <= k <= matches@.len(),
                reason == entries@[i as int].0@,
                i < entries@.len(),
                pair_views(found@) == start + words(matches@).take(k as int).map_values(|c: Seq<char>| (c, reason)),
            decreases matches@.len() - k,
        {
            let ghost before = found@;
            found.push((matches[k].clone(), entries[i].0.clone()));
            proof {
                assert(pair_views(found@) =~= pair_views(before).push((matches@[k as int]@, reason)));
                assert(words(matches@).take(k + 1).map_values(|c: Seq<char>| (c, reason)) =~= words(matches@).take(k as int).map_values(
                    |c: Seq<char>| (c, reason),
                ).push((matches@[k as int]@, reason)));
            }
            k = k + 1;
        }
        proof {
            assert(words(matches@).take(matches@.len() as int) =~= words(matches@));
        }
        i = i + 1;
    }
    proof {
        assert(entries@.take(entries@.len() as int) =~= entries@);
    }
    let ghost pairs = found_pairs(entries@);
    let ghost crit = pairs.map_values(|p: (Seq<char>, Seq<char>)| seq![p.0]);
    let mut list: Vec<Vec<String>> = Vec::new();
    let mut j: usize = 0;
    while j < found.len()
        invariant
            0 <= j <= found@.len(),
            pair_views(found@) == pairs,
            crit == pairs.map_values(|p: (Seq<char>, Seq<char>)| seq![p.0]),
            keys(list@) == crit.take(j as int),
        decreases found@.len() - j,
    {
        let mut one: Vec<String> = Vec::new();
        one.push(found[j].0.clone());
        let ghost before = list@;
        list.push(one);
        proof {
            assert(words(one@) =~= seq![pairs[j as int].0]);
            assert(keys(list@) =~= keys(before).push(words(one@)));
            assert(crit.take(j + 1) =~= crit.take(j as int).push(crit[j as int]));
        }
        j = j + 1;
    }
    proof {
        assert(crit.take(found@.len() as int) =~= crit);
        assert forall|k: int| 0 <= k < crit.len() implies (#[trigger] crit[k]).len() == 1 by {}
        lemma_sorted_set_arity(crit, 1);
    }
    let set = to_sorted_set(&list);
    let ghost sk = keys(set@);
    let mut out: Vec<(String, String)> = Vec::new();
    let mut m: usize = 0;
    while m < set.len()
        invariant
            0 <= m <= set@.len(),
            sk == keys(set@),
            sk == sorted_set(crit),
            forall|k: int| 0 <= k < sk.len() ==> (#[trigger] sk[k]).len() == 1,
            pair_views(found@) == pairs,
            pair_views(out@) == sk.take(m as int).map_values(|k: Seq<Seq<char>>| (k[0], last_reason(pairs, k[0]))),
        decreases set@.len() - m,
    {
        proof {
            assert(sk[m as int] == words(set@[m as int]@));
        }
        let c = &set[m][0];
        let reason = last_reason_exec(&found, c);
        let ghost before = out@;
        out.push((c.clone(), reason));
        proof {
            assert(sk[m as int][0] == c@);
            assert(pair_views(out@) =~= pair_views(before).push((c@, last_reason(pairs, c@))));
            assert(sk.take(m + 1).map_values(|k: Seq<Seq<char>>| (k[0], last_reason(pairs, k[0])))
                =~= sk.take(m as int).map_values(|k: Seq<Seq<char>>| (k[0], last_reason(pairs, k[0]))).push(
                (sk[m as int][0], last_reason(pairs, sk[m as int][0])),
            ));
        }
        m = m + 1;
    }
    proof {
        assert(sk.take(set@.len() as int) =~= sk);
    }
    Ok(out)
}

fn last_reason_exec(found: &Vec<(String, String)>, c: &String) -> (r: String)
    ensures
        r@ == last_reason(pair_views(found@), c@),
{
    let ghost pairs = pair_views(found@);
    let mut i: usize = found.len();
    proof {
        assert(pairs.take(i as int) =~= pairs);
    }
    while i > 0
        invariant
            0 <= i <= found@.len(),
            pairs == pair_views(found@),
            last_reason(pairs, c@) == last_reason(pairs.take(i as int), c@),
        decreases i,
    {
        proof {
            let t = pairs.take(i as int);
            assert(t.drop_last() =~= pairs.take(i - 1));
            assert(t.last() == pairs[i - 1]);
        }
        if found[i - 1].0 == *c {
            return found[i - 1].1.clone();
        }
        i = i - 1;
    }
    String::new()
}


impl Default for CaseMetadata {
    /// Metadata that states nothing: no language, no kind, no issue, no criteria.
    fn default() -> (r: CaseMetadata)
        ensures
            r.language@ == Seq::<char>::empty(),
            r.kind is None,
            r.issue_ref is None,
            r.pending is None,
            r.control_for is None,
            r.control_for_pair is None,
            r.control_language is None,
            r.criteria@.len() == 0,
    {
        CaseMetadata {
            language: String::new(),
            kind: None,
            issue_ref: None,
            pending: None,
            control_for: None,
            control_for_pair: None,
            control_language: None,
            criteria: Vec::new(),
        }
    }
}

/// Derived criterion coverage for one producer.
pub enum CriterionCoverage {
    /// The committed pin could not be read.
    Unavailable {
        /// Why the pin file could not be loaded.
        why: String,
    },
    /// Coverage was derived from the pin and the fixtures' claims.
    Measured {
        /// Total criteria the pin states.
        total: usize,
        /// Criteria claimed by at least one fixture.
        reached: Vec<String>,
        /// Criteria declared unreachable, each with why.
        unreachable: Vec<(String, String)>,
        /// Criteria reached by no fixture and declared unreachable by nothing.
        unreached: Vec<String>,
        /// Criteria declared unreachable that the pin no longer states.
        stale_unreachable: Vec<String>,
        /// Criteria claimed by a fixture but absent from the pin.
        claimed_but_undeclared: Vec<String>,
    },
}

/// Complete derived bounds report.
pub struct BoundsReport {
    /// Per-producer criterion coverage, in producer order.
    pub criterion_coverage: Vec<(String, CriterionCoverage)>,
    /// Declared cases that exist on disk.
    pub covered: Vec<CaseKey>,
    /// Declared cases missing from disk.
    pub gaps: Vec<CaseKey>,
    /// The number of entries in `gaps`.
    pub gap_count: usize,
    /// `(family, case, language, reason)` tuples excluded from scope.
    pub scoped_out: Vec<(String, String, String, String)>,
    /// Cases found on disk but not declared in the manifest.
    pub undeclared: Vec<CaseKey>,
    /// Every inventory or coverage defect found.
    pub problems: Vec<String>,
    /// Positive cases named as the target of a control case.
    pub controls: Vec<CaseKey>,
}

impl BoundsReport {
    /// Whether any fail-closed inventory condition is present.
    pub fn failed(&self) -> (r: bool)
        ensures
            r == (self.gap_count != 0 || self.undeclared@.len() > 0 || self.problems@.len() > 0),
    {
        self.gap_count != 0 || self.undeclared.len() > 0 || self.problems.len() > 0
    }
}


/// The case key of a `case.yaml` found at `parts` below the fixtures
/// directory: `<family>/<case>/<language>/case.yaml`, exactly four segments.
pub fn case_key_at(parts: &Vec<String>, shown: &str) -> (r: Result<CaseKey, CorpusError>)
    ensures
        parts@.len() == 4 ==> (r matches Ok(k) && k.0@ == parts@[0]@ && k.1@ == parts@[1]@ && k.2@ == parts@[2]@),
        parts@.len() != 4 ==> (r matches Err(CorpusError::Invariant(m)) && m@ == shown@
            + " is not at the four-segment path fixtures/<family>/<case>/<language>/case.yaml"@),
{
    if parts.len() != 4 {
        let mut message = shown.to_owned();
        push_text(&mut message, " is not at the four-segment path fixtures/<family>/<case>/<language>/case.yaml");
        return Err(CorpusError::Invariant(message));
    }
    Ok(CaseKey(parts[0].clone(), parts[1].clone(), parts[2].clone()))
}

} // verus!
