//! Validation of coverage observations: every false-green condition a
//! coverage report can hide.
use vstd::prelude::*;
use crate::order::{keys, words, sorted_set, to_sorted_set, contains_key, present_in};
use crate::text::{chars_of, push_char, push_text, is_white, is_whitespace, take_chars};

verus! {

/// Backed and total Test Matrix rows.
pub struct Totals {
    pub backed: u64,
    pub total: u64,
}

/// One Test Matrix row.
pub struct Row {
    pub document: String,
    pub row_id: String,
}

/// One diagnostic of the coverage tool.
pub struct Diagnostic {
    pub reason: String,
    pub message: String,
}

/// The parts of a coverage report that validation reads.
pub struct CoverageReport {
    pub totals: Totals,
    pub status_lies: Vec<Row>,
    pub unbacked_rows: Vec<Row>,
    pub no_symbol_rows: Vec<Row>,
    pub diagnostics: Vec<Diagnostic>,
}

/// Coverage gate outcome with human-readable evidence.
pub struct CoverageOutcome {
    /// Test Matrix rows backed by a real tracking tag.
    pub backed: u64,
    /// Total Test Matrix rows reconciled.
    pub total: u64,
    /// Count of rows with no backing tag.
    pub unbacked: usize,
    /// Count of unbacked rows whose verification method explains the gap,
    /// each distinct row once.
    pub explained: usize,
    /// Human-readable descriptions of every false-green condition found.
    pub problems: Vec<String>,
}

impl CoverageOutcome {
    /// Whether the report contains a false-green condition.
    pub fn failed(&self) -> (r: bool)
        ensures
            r == (self.problems@.len() > 0),
    {
        self.problems.len() > 0
    }
}

/// A row as a `(document, row_id)` record.
pub open spec fn row_key(r: Row) -> Seq<Seq<char>> {
    seq![r.document@, r.row_id@]
}

/// The rows whose verification method explains their missing tag, each once, in order.
pub open spec fn explained_rows(report: CoverageReport) -> Seq<Seq<Seq<char>>> {
    sorted_set(report.no_symbol_rows@.map_values(|r: Row| row_key(r)))
}

/// The distinct unbacked rows whose verification method explains the gap, in order.
pub open spec fn explained_unbacked(report: CoverageReport) -> Seq<Seq<Seq<char>>> {
    sorted_set(report.unbacked_rows@.map_values(|r: Row| row_key(r))).filter(present_in(explained_rows(report)))
}

/// The diagnostic reasons that mean the reconciliation was hollow.
pub open spec fn hollow(reason: Seq<char>) -> bool {
    ||| reason == "id-column-matches-nothing"@
    ||| reason == "archetype-matches-nothing"@
    ||| reason == "section-holds-no-table"@
    ||| reason == "marker-form-mismatch"@
    ||| reason == "hollow-denominator"@
}

/// The maximal runs of characters that are not white space (`split_whitespace`).
pub open spec fn tokens(s: Seq<char>) -> Seq<Seq<char>>
    decreases s.len(),
{
    if s.len() == 0 {
        seq![]
    } else {
        let t = tokens(s.drop_last());
        let c = s.last();
        if is_white(c) {
            t
        } else if s.len() >= 2 && !is_white(s[s.len() - 2]) {
            t.update(t.len() - 1, t.last().push(c))
        } else {
            t.push(seq![c])
        }
    }
}

/// Texts joined by single spaces.
pub open spec fn spaced(ts: Seq<Seq<char>>) -> Seq<char>
    decreases ts.len(),
{
    if ts.len() == 0 {
        seq![]
    } else if ts.len() == 1 {
        ts[0]
    } else {
        spaced(ts.drop_last()) + " "@ + ts.last()
    }
}

/// A message with its white space collapsed to single spaces and its ends trimmed.
pub open spec fn compact(s: Seq<char>) -> Seq<char> {
    spaced(tokens(s))
}

/// The first 160 characters of a compacted message.
pub open spec fn short_message(s: Seq<char>) -> Seq<char> {
    let c = compact(s);
    c.take(if c.len() <= 160 { c.len() as int } else { 160 })
}

/// One problem per status lie.
pub open spec fn lie_problems(rows: Seq<Row>) -> Seq<Seq<char>>
    decreases rows.len(),
{
    if rows.len() == 0 {
        seq![]
    } else {
        lie_problems(rows.drop_last()).push(
            rows.last().row_id@ + " claims a passing status and is unbacked ("@ + rows.last().document@ + ")"@,
        )
    }
}

/// One problem per unbacked row that no verification method explains.
pub open spec fn unbacked_problems(rows: Seq<Row>, explained: Seq<Seq<Seq<char>>>) -> Seq<Seq<char>>
    decreases rows.len(),
{
    if rows.len() == 0 {
        seq![]
    } else {
        let prev = unbacked_problems(rows.drop_last(), explained);
        if explained.contains(row_key(rows.last())) {
            prev
        } else {
            prev.push(
                rows.last().row_id@ + " is unbacked and its verification method does not explain why ("@
                    + rows.last().document@ + ")"@,
            )
        }
    }
}

/// One problem per hollow diagnostic, with its message compacted and shortened.
pub open spec fn hollow_problems(diagnostics: Seq<Diagnostic>) -> Seq<Seq<char>>
    decreases diagnostics.len(),
{
    if diagnostics.len() == 0 {
        seq![]
    } else {
        let prev = hollow_problems(diagnostics.drop_last());
        let d = diagnostics.last();
        if hollow(d.reason@) {
            prev.push(d.reason@ + ": "@ + short_message(d.message@))
        } else {
            prev
        }
    }
}

/// Every false-green condition of a report, in order: nothing reconciled,
/// each status lie, each unexplained unbacked row, each hollow diagnostic.
pub open spec fn report_problems(report: CoverageReport) -> Seq<Seq<char>> {
    (if report.totals.total == 0 {
        seq!["nothing was reconciled \u{2014} the matrix or module path is wrong"@]
    } else {
        seq![]
    }) + lie_problems(report.status_lies@) + unbacked_problems(report.unbacked_rows@, explained_rows(report))
        + hollow_problems(report.diagnostics@)
}

proof fn lemma_tokens_end(s: Seq<char>)
    requires
        s.len() > 0,
        !is_white(s.last()),
    ensures
        tokens(s).len() > 0,
    decreases s.len(),
{
    if s.len() >= 2 && !is_white(s[s.len() - 2]) {
        lemma_tokens_end(s.drop_last());
    }
}

fn push_piece(out: &mut Vec<String>, piece: String)
    ensures
        final(out)@.map_values(|s: String| s@) == old(out)@.map_values(|s: String| s@).push(piece@),
{
    let ghost before = out@;
    out.push(piece);
    proof {
        assert(out@.map_values(|s: String| s@) =~= before.map_values(|s: String| s@).push(piece@));
    }
}

/// A message with its white space collapsed and its ends trimmed.
pub fn compact_text(s: &str) -> (r: String)
    ensures
        r@ == compact(s@),
{
    let cs = chars_of(s);
    let mut out = String::new();
    let mut any = false;
    let mut i: usize = 0;
    proof {
        assert(s@.take(0) =~= seq![]);
    }
    while i < cs.len()
        invariant
            cs@ == s@,
            0 <= i <= cs@.len(),
            out@ == spaced(tokens(s@.take(i as int))),
            any == (tokens(s@.take(i as int)).len() > 0),
        decreases cs@.len() - i,
    {
        let ghost p = s@.take(i as int);
        let ghost q = s@.take(i + 1);
        let ghost t = tokens(p);
        proof {
            reveal_strlit(" ");
            assert(q.drop_last() =~= p);
            assert(q.last() == s@[i as int]);
        }
        let c = cs[i];
        if !is_whitespace(c) {
            if i > 0 && !is_whitespace(cs[i - 1]) {
                proof {
                    assert(q[q.len() - 2] == s@[i - 1]);
                    assert(p.last() == s@[i - 1]);
                    lemma_tokens_end(p);
                    let u = t.update(t.len() - 1, t.last().push(c));
                    assert(u.drop_last() =~= t.drop_last());
                    assert(u.last() == t.last().push(c));
                    if t.len() == 1 {
                        assert(spaced(u) == u[0]);
                        assert(spaced(t) == t[0]);
                    }
                    assert(spaced(u) =~= spaced(t).push(c));
                }
                push_char(&mut out, c);
            } else {
                proof {
                    if i > 0 {
                        assert(q[q.len() - 2] == s@[i - 1]);
                    }
                    let u = t.push(seq![c]);
                    assert(u.drop_last() =~= t);
                    assert(u.last() == seq![c]);
                    if t.len() == 0 {
                        assert(spaced(u) == u[0]);
                    }
                }
                if any {
                    push_char(&mut out, ' ');
                }
                push_char(&mut out, c);
                any = true;
            }
        }
        i = i + 1;
    }
    proof {
        assert(s@.take(cs@.len() as int) =~= s@);
    }
    out
}

fn is_hollow(reason: &String) -> (r: bool)
    ensures
        r == hollow(reason@),
{
    *reason == "id-column-matches-nothing".to_owned() || *reason == "archetype-matches-nothing".to_owned()
        || *reason == "section-holds-no-table".to_owned() || *reason == "marker-form-mismatch".to_owned()
        || *reason == "hollow-denominator".to_owned()
}

fn row_record(r: &Row) -> (v: Vec<String>)
    ensures
        words(v@) == row_key(*r),
{
    let mut v: Vec<String> = Vec::new();
    v.push(r.document.clone());
    v.push(r.row_id.clone());
    proof {
        assert(words(v@) =~= row_key(*r));
    }
    v
}

/// The views of a list of texts.
pub open spec fn text_views(v: Seq<String>) -> Seq<Seq<char>> {
    v.map_values(|s: String| s@)
}

/// Validate a coverage report: its totals and row counts, and every false-green condition it holds.
pub fn validate_report(report: &CoverageReport) -> (r: CoverageOutcome)
    ensures
        r.backed == report.totals.backed,
        r.total == report.totals.total,
        r.unbacked == report.unbacked_rows@.len(),
        r.explained == explained_unbacked(*report).len(),
        text_views(r.problems@) == report_problems(*report),
{
    let mut keys_list: Vec<Vec<String>> = Vec::new();
    let mut i: usize = 0;
    while i < report.no_symbol_rows.len()
        invariant
            0 <= i <= report.no_symbol_rows@.len(),
            keys(keys_list@) == report.no_symbol_rows@.take(i as int).map_values(|r: Row| row_key(r)),
        decreases report.no_symbol_rows@.len() - i,
    {
        let ghost before = keys_list@;
        keys_list.push(row_record(&report.no_symbol_rows[i]));
        proof {
            assert(keys(keys_list@) =~= keys(before).push(row_key(report.no_symbol_rows@[i as int])));
            assert(report.no_symbol_rows@.take(i + 1) =~= report.no_symbol_rows@.take(i as int).push(report.no_symbol_rows@[i as int]));
        }
        i = i + 1;
    }
    proof {
        assert(report.no_symbol_rows@.take(report.no_symbol_rows@.len() as int) =~= report.no_symbol_rows@);
    }
    let explained = to_sorted_set(&keys_list);
    let mut problems: Vec<String> = Vec::new();
    if report.totals.total == 0 {
        push_piece(&mut problems, "nothing was reconciled \u{2014} the matrix or module path is wrong".to_owned());
    }
    let ghost p0 = text_views(problems@);
    let lies = &report.status_lies;
    let mut j: usize = 0;
    while j < lies.len()
        invariant
            0 <= j <= lies@.len(),
            text_views(problems@) == p0 + lie_problems(lies@.take(j as int)),
        decreases lies@.len() - j,
    {
        proof {
            let t = lies@.take(j + 1);
            assert(t.drop_last() =~= lies@.take(j as int));
            assert(t.last() == lies@[j as int]);
        }
        let mut m = lies[j].row_id.clone();
        push_text(&mut m, " claims a passing status and is unbacked (");
        push_text(&mut m, lies[j].document.as_str());
        push_text(&mut m, ")");
        push_piece(&mut problems, m);
        proof {
            assert(text_views(problems@) =~= p0 + lie_problems(lies@.take(j + 1)));
        }
        j = j + 1;
    }
    proof {
        assert(lies@.take(lies@.len() as int) =~= lies@);
    }
    let ghost p1 = text_views(problems@);
    let rows = &report.unbacked_rows;
    let mut unbacked_keys: Vec<Vec<String>> = Vec::new();
    let mut k: usize = 0;
    while k < rows.len()
        invariant
            0 <= k <= rows@.len(),
            keys(explained@) == explained_rows(*report),
            text_views(problems@) == p1 + unbacked_problems(rows@.take(k as int), explained_rows(*report)),
            keys(unbacked_keys@) == rows@.take(k as int).map_values(|r: Row| row_key(r)),
        decreases rows@.len() - k,
    {
        proof {
            let t = rows@.take(k + 1);
            assert(t.drop_last() =~= rows@.take(k as int));
            assert(t.last() == rows@[k as int]);
        }
        let key = row_record(&rows[k]);
        let ghost before_keys = unbacked_keys@;
        unbacked_keys.push(row_record(&rows[k]));
        proof {
            assert(keys(unbacked_keys@) =~= keys(before_keys).push(row_key(rows@[k as int])));
            assert(rows@.take(k + 1).map_values(|r: Row| row_key(r)) =~= rows@.take(k as int).map_values(|r: Row| row_key(r)).push(
                row_key(rows@[k as int]),
            ));
        }
        if !contains_key(&explained, &key) {
            let mut m = rows[k].row_id.clone();
            push_text(&mut m, " is unbacked and its verification method does not explain why (");
            push_text(&mut m, rows[k].document.as_str());
            push_text(&mut m, ")");
            push_piece(&mut problems, m);
        }
        proof {
            assert(text_views(problems@) =~= p1 + unbacked_problems(rows@.take(k + 1), explained_rows(*report)));
        }
        k = k + 1;
    }
    proof {
        assert(rows@.take(rows@.len() as int) =~= rows@);
    }
    let distinct = to_sorted_set(&unbacked_keys);
    let mut explained_count: usize = 0;
    let mut e: usize = 0;
    while e < distinct.len()
        invariant
            0 <= e <= distinct@.len(),
            keys(explained@) == explained_rows(*report),
            explained_count == keys(distinct@).take(e as int).filter(present_in(explained_rows(*report))).len(),
            explained_count <= e,
        decreases distinct@.len() - e,
    {
        proof {
            let t = keys(distinct@).take(e + 1);
            assert(t.drop_last() =~= keys(distinct@).take(e as int));
            assert(t.last() == keys(distinct@)[e as int]);
            assert(keys(distinct@)[e as int] == words(distinct@[e as int]@));
        }
        let found = contains_key(&explained, &distinct[e]);
        proof {
            let t = keys(distinct@).take(e + 1);
            let f = present_in(explained_rows(*report));
            reveal_with_fuel(Seq::filter, 1);
            assert(found == f(t.last()));
            assert(t.filter(f) == if f(t.last()) { t.drop_last().filter(f).push(t.last()) } else { t.drop_last().filter(f) });
        }
        if found {
            explained_count = explained_count + 1;
        }
        e = e + 1;
    }
    proof {
        assert(keys(distinct@).take(distinct@.len() as int) =~= keys(distinct@));
    }
    let ghost p2 = text_views(problems@);
    let diags = &report.diagnostics;
    let mut d: usize = 0;
    while d < diags.len()
        invariant
            0 <= d <= diags@.len(),
            text_views(problems@) == p2 + hollow_problems(diags@.take(d as int)),
        decreases diags@.len() - d,
    {
        proof {
            let t = diags@.take(d + 1);
            assert(t.drop_last() =~= diags@.take(d as int));
            assert(t.last() == diags@[d as int]);
        }
        if is_hollow(&diags[d].reason) {
            let compacted = compact_text(diags[d].message.as_str());
            let short = take_chars(compacted.as_str(), 160);
            let mut m = diags[d].reason.clone();
            push_text(&mut m, ": ");
            push_text(&mut m, short.as_str());
            push_piece(&mut problems, m);
        }
        proof {
            assert(text_views(problems@) =~= p2 + hollow_problems(diags@.take(d + 1)));
        }
        d = d + 1;
    }
    proof {
        assert(diags@.take(diags@.len() as int) =~= diags@);
        assert(text_views(problems@) =~= report_problems(*report));
    }
    CoverageOutcome {
        backed: report.totals.backed,
        total: report.totals.total,
        unbacked: report.unbacked_rows.len(),
        explained: explained_count,
        problems,
    }
}

} // verus!
