//! Deterministic producer-criteria pins: the repository name, the criteria a
//! producer's specification states, and the pin text.
use vstd::prelude::*;
use crate::error::CorpusError;
use crate::order::{keys, words, sorted_set, to_sorted_set, lemma_sorted_set_arity};
use crate::text::{chars_of, push_char, push_text, debug_str, str_debug};

verus! {

/// The identifiers that `(?m)^\| ((?:FR|NFR|StR)-\d+-(?:AC|CON|VC)-\d+)`
/// captures (its first group) in a text, in order: the criterion of each
/// table row that begins with one.
pub uninterp spec fn criteria_rows(text: Seq<char>) -> Seq<Seq<char>>;

/// `Regex::captures_iter` with the row pattern above: the first group of
/// each match, in order. `Regex::new` fails only on a pattern that is not
/// valid syntax or that exceeds the size limit, and this fixed pattern is
/// neither, so the result is always `Ok`.
#[verifier::external_body]
fn captured_rows(text: &str) -> (r: Result<Vec<String>, String>)
    ensures
        r is Ok,
        r matches Ok(v) ==> words(v@) == criteria_rows(text@),
{
    match regex::Regex::new(r"(?m)^\| ((?:FR|NFR|StR)-\d+-(?:AC|CON|VC)-\d+)") {
        Ok(re) => Ok(re.captures_iter(text).map(|found| found[1].to_owned()).collect()),
        Err(error) => Err(error.to_string()),
    }
}

/// The criteria a list of documents states, each once, in order.
pub open spec fn stated_criteria(documents: Seq<Seq<char>>) -> Seq<Seq<Seq<char>>> {
    sorted_set(criteria_list(documents))
}

/// The criteria of each document, in document order, as one-field records.
pub open spec fn criteria_list(documents: Seq<Seq<char>>) -> Seq<Seq<Seq<char>>>
    decreases documents.len(),
{
    if documents.len() == 0 {
        seq![]
    } else {
        criteria_list(documents.drop_last()) + criteria_rows(documents.last()).map_values(|c: Seq<char>| seq![c])
    }
}

/// Every criterion the documents state, each once, in order.
pub fn collect_criteria(documents: &Vec<String>) -> (r: Result<Vec<String>, CorpusError>)
    ensures
        r matches Ok(v) && v@.map_values(|s: String| seq![s@]) == stated_criteria(documents@.map_values(|d: String| d@)),
{
    let ghost docs = documents@.map_values(|d: String| d@);
    let mut list: Vec<Vec<String>> = Vec::new();
    let mut i: usize = 0;
    while i < documents.len()
        invariant
            0 <= i <= documents@.len(),
            docs == documents@.map_values(|d: String| d@),
            keys(list@) == criteria_list(docs.take(i as int)),
        decreases documents@.len() - i,
    {
        proof {
            let t = docs.take(i + 1);
            assert(t.drop_last() == docs.take(i as int));
            assert(t.last() == docs[i as int]);
        }
        let found = match captured_rows(documents[i].as_str()) {
            Ok(v) => v,
            Err(why) => {
                return Err(CorpusError::Invariant(why));
            },
        };
        let ghost start = keys(list@);
        let mut k: usize = 0;
        while k < found.len()
            invariant
                0 <= k <= found@.len(),
                keys(list@) == start + words(found@).take(k as int).map_values(|c: Seq<char>| seq![c]),
            decreases found@.len() - k,
        {
            let mut one: Vec<String> = Vec::new();
            one.push(found[k].clone());
            let ghost before = list@;
            list.push(one);
            proof {
                assert(words(one@) =~= seq![found@[k as int]@]);
                assert(keys(list@) =~= keys(before).push(words(one@)));
                assert(words(found@).take(k + 1).map_values(|c: Seq<char>| seq![c]) =~= words(found@).take(k as int).map_values(
                    |c: Seq<char>| seq![c],
                ).push(seq![found@[k as int]@]));
            }
            k = k + 1;
        }
        proof {
            assert(words(found@).take(found@.len() as int) == words(found@));
        }
        i = i + 1;
    }
    proof {
        assert(docs.take(documents@.len() as int) == docs);
        let all = criteria_list(docs);
        lemma_criteria_list_arity(docs);
        lemma_sorted_set_arity(all, 1);
    }
    let set = to_sorted_set(&list);
    let mut out: Vec<String> = Vec::new();
    let mut j: usize = 0;
    while j < set.len()
        invariant
            0 <= j <= set@.len(),
            keys(set@) == stated_criteria(docs),
            forall|k: int| 0 <= k < keys(set@).len() ==> (#[trigger] keys(set@)[k]).len() == 1,
            out@.map_values(|s: String| seq![s@]) == keys(set@).take(j as int),
        decreases set@.len() - j,
    {
        proof {
            assert(keys(set@)[j as int] == words(set@[j as int]@));
            assert(keys(set@)[j as int].len() == 1);
        }
        let c = set[j][0].clone();
        let ghost before = out@;
        out.push(c);
        proof {
            assert(keys(set@)[j as int] =~= seq![c@]);
            assert(out@.map_values(|s: String| seq![s@]) =~= before.map_values(|s: String| seq![s@]).push(seq![c@]));
            assert(keys(set@).take(j + 1) =~= keys(set@).take(j as int).push(keys(set@)[j as int]));
            assert(out@.map_values(|s: String| seq![s@]) =~= keys(set@).take(j + 1));
        }
        j = j + 1;
    }
    proof {
        assert(keys(set@).take(set@.len() as int) == keys(set@));
    }
    Ok(out)
}

proof fn lemma_criteria_list_arity(documents: Seq<Seq<char>>)
    ensures
        forall|k: int| 0 <= k < criteria_list(documents).len() ==> (#[trigger] criteria_list(documents)[k]).len() == 1,
    decreases documents.len(),
{
    if documents.len() > 0 {
        lemma_criteria_list_arity(documents.drop_last());
        let a = criteria_list(documents.drop_last());
        let b = criteria_rows(documents.last()).map_values(|c: Seq<char>| seq![c]);
        assert forall|k: int| 0 <= k < (a + b).len() implies (#[trigger] (a + b)[k]).len() == 1 by {
            if k >= a.len() {
                assert((a + b)[k] == b[k - a.len()]);
            }
        }
    }
}

/// `s` without its trailing slashes.
pub open spec fn without_trailing_slashes(s: Seq<char>) -> Seq<char>
    decreases s.len(),
{
    if s.len() > 0 && s.last() == '/' {
        without_trailing_slashes(s.drop_last())
    } else {
        s
    }
}

/// `s` without a final `.git`.
pub open spec fn without_git(s: Seq<char>) -> Seq<char> {
    if s.len() >= 4 && s.skip(s.len() - 4) == ".git"@ {
        s.take(s.len() - 4)
    } else {
        s
    }
}

/// What follows the last `/` or `:` of `s`; all of `s` when it has neither.
pub open spec fn last_segment(s: Seq<char>) -> Seq<char>
    decreases s.len(),
{
    if s.len() == 0 {
        s
    } else if s.last() == '/' || s.last() == ':' {
        seq![]
    } else {
        last_segment(s.drop_last()).push(s.last())
    }
}

/// A character a repository name may hold.
pub open spec fn name_char(c: char) -> bool {
    ||| ('a' <= c && c <= 'z')
    ||| ('A' <= c && c <= 'Z')
    ||| ('0' <= c && c <= '9')
    ||| c == '-' || c == '_' || c == '.'
}

/// The repository name an origin URL ends with, if it is a usable one.
pub open spec fn repository_of(remote: Seq<char>) -> Option<Seq<char>> {
    let candidate = last_segment(without_git(without_trailing_slashes(remote)));
    if candidate.len() > 0 && forall|i: int| 0 <= i < candidate.len() ==> name_char(#[trigger] candidate[i]) {
        Some(candidate)
    } else {
        None
    }
}

fn is_name_char(c: char) -> (r: bool)
    ensures
        r == name_char(c),
{
    ('a' <= c && c <= 'z') || ('A' <= c && c <= 'Z') || ('0' <= c && c <= '9') || c == '-' || c == '_' || c == '.'
}

/// Where the name part of an origin ends: trailing slashes and a `.git` suffix dropped.
fn name_end(cs: &Vec<char>) -> (end: usize)
    ensures
        end <= cs@.len(),
        cs@.take(end as int) == without_git(without_trailing_slashes(cs@)),
{
    proof {
        reveal_strlit(".git");
    }
    let mut end: usize = cs.len();
    proof {
        assert(cs@.take(end as int) =~= cs@);
    }
    while end > 0 && cs[end - 1] == '/'
        invariant
            0 <= end <= cs@.len(),
            without_trailing_slashes(cs@) == without_trailing_slashes(cs@.take(end as int)),
        decreases end,
    {
        proof {
            assert(cs@.take(end as int).drop_last() =~= cs@.take(end - 1));
        }
        end = end - 1;
    }
    let ghost w = cs@.take(end as int);
    proof {
        assert(without_trailing_slashes(cs@) == w);
    }
    if end >= 4 && cs[end - 4] == '.' && cs[end - 3] == 'g' && cs[end - 2] == 'i' && cs[end - 1] == 't' {
        proof {
            assert(w.skip(w.len() - 4) =~= ".git"@);
            assert(w.take(w.len() - 4) =~= cs@.take(end - 4));
        }
        end = end - 4;
    } else {
        proof {
            if w.len() >= 4 && w.skip(w.len() - 4) == ".git"@ {
                assert(w.skip(w.len() - 4)[0] == '.');
                assert(w.skip(w.len() - 4)[1] == 'g');
                assert(w.skip(w.len() - 4)[2] == 'i');
                assert(w.skip(w.len() - 4)[3] == 't');
            }
        }
    }
    end
}

/// Where the last segment before `end` starts.
fn segment_start(cs: &Vec<char>, end: usize) -> (start: usize)
    requires
        end <= cs@.len(),
    ensures
        start <= end,
        cs@.subrange(start as int, end as int) == last_segment(cs@.take(end as int)),
{
    let ghost g = cs@.take(end as int);
    let mut start: usize = end;
    proof {
        assert(g.take(end as int) =~= g);
        assert(g.subrange(end as int, end as int) =~= seq![]);
        assert(last_segment(g) =~= last_segment(g.take(start as int)) + g.subrange(start as int, end as int));
    }
    while start > 0 && cs[start - 1] != '/' && cs[start - 1] != ':'
        invariant
            0 <= start <= end <= cs@.len(),
            g == cs@.take(end as int),
            last_segment(g) == last_segment(g.take(start as int)) + g.subrange(start as int, end as int),
        decreases start,
    {
        proof {
            let t = g.take(start as int);
            assert(t.drop_last() =~= g.take(start - 1));
            assert(t.last() == g[start - 1]);
            assert(g.subrange(start - 1, end as int) =~= seq![g[start - 1]] + g.subrange(start as int, end as int));
            assert(last_segment(t) == last_segment(g.take(start - 1)).push(g[start - 1]));
            assert(last_segment(g.take(start - 1)).push(g[start - 1]) + g.subrange(start as int, end as int)
                =~= last_segment(g.take(start - 1)) + g.subrange(start - 1, end as int));
        }
        start = start - 1;
    }
    proof {
        assert(last_segment(g.take(start as int)) =~= seq![]);
        assert(g.subrange(start as int, end as int) =~= cs@.subrange(start as int, end as int));
        assert(last_segment(g) =~= cs@.subrange(start as int, end as int));
    }
    start
}

/// Whether every character of `cs[start..end]` may stand in a repository name.
fn all_name_chars(cs: &Vec<char>, start: usize, end: usize) -> (r: bool)
    requires
        start <= end <= cs@.len(),
    ensures
        r == forall|i: int| 0 <= i < end - start ==> name_char(#[trigger] cs@.subrange(start as int, end as int)[i]),
{
    let ghost c = cs@.subrange(start as int, end as int);
    let mut k: usize = start;
    while k < end
        invariant
            start <= k <= end <= cs@.len(),
            c == cs@.subrange(start as int, end as int),
            forall|i: int| 0 <= i < k - start ==> name_char(#[trigger] c[i]),
        decreases end - k,
    {
        if !is_name_char(cs[k]) {
            proof {
                assert(c[k - start] == cs@[k as int]);
            }
            return false;
        }
        proof {
            assert(c[k - start] == cs@[k as int]);
        }
        k = k + 1;
    }
    true
}

/// The repository name at the end of an origin URL: trailing slashes and a
/// `.git` suffix dropped, then what follows the last `/` or `:`.
pub fn repository_name(remote: &str) -> (r: Result<String, CorpusError>)
    ensures
        match repository_of(remote@) {
            Some(name) => r matches Ok(s) && s@ == name,
            None => r matches Err(CorpusError::Invariant(m))
                && m@ == "cannot derive repository name from origin "@ + str_debug(remote@),
        },
{
    let cs = chars_of(remote);
    let end = name_end(&cs);
    let start = segment_start(&cs, end);
    if start < end && all_name_chars(&cs, start, end) {
        let mut out = String::new();
        let mut m: usize = start;
        while m < end
            invariant
                cs@ == remote@,
                0 <= start <= m <= end <= cs@.len(),
                out@ == remote@.subrange(start as int, m as int),
            decreases end - m,
        {
            push_char(&mut out, cs[m]);
            proof {
                assert(remote@.subrange(start as int, m + 1) =~= remote@.subrange(start as int, m as int).push(remote@[m as int]));
            }
            m = m + 1;
        }
        Ok(out)
    } else {
        let mut message = "cannot derive repository name from origin ".to_owned();
        let shown = debug_str(remote);
        push_text(&mut message, shown.as_str());
        Err(CorpusError::Invariant(message))
    }
}

/// The part of `text` before the first occurrence of `marker`; all of it when there is none.
pub open spec fn before_marker(text: Seq<char>, marker: Seq<char>) -> Seq<char>
    decreases text.len(),
{
    if text.len() >= marker.len() && text.take(marker.len() as int) == marker {
        seq![]
    } else if text.len() == 0 {
        seq![]
    } else {
        seq![text[0]] + before_marker(text.skip(1), marker)
    }
}

/// One line per criterion, `- ` and the identifier.
pub open spec fn criteria_lines(criteria: Seq<Seq<char>>) -> Seq<char>
    decreases criteria.len(),
{
    if criteria.len() == 0 {
        seq![]
    } else {
        criteria_lines(criteria.drop_last()) + "- "@ + criteria.last() + "\n"@
    }
}

/// The pin text: what the existing pin holds before its `producer:` line,
/// then the producer, revision, branch and the criteria, one per line.
pub open spec fn pin_text(existing: Option<Seq<char>>, producer: Seq<char>, revision: Seq<char>, branch: Seq<char>, criteria: Seq<Seq<char>>) -> Seq<char> {
    let header = match existing {
        Some(text) => before_marker(text, "producer:"@),
        None => seq![],
    };
    header + "producer: agent-ix/"@ + producer + "\nrevision: "@ + revision + "\nbranch: "@ + branch + "\ncriteria:\n"@
        + criteria_lines(criteria)
}

/// The part of a pin before its first `producer:`.
pub fn pin_header(text: &str) -> (r: String)
    ensures
        r@ == before_marker(text@, "producer:"@),
{
    let marker = "producer:";
    proof {
        reveal_strlit("producer:");
    }
    let cs = chars_of(text);
    let mut out = String::new();
    let mut i: usize = 0;
    proof {
        assert(text@.skip(0) =~= text@);
        assert(out@ + before_marker(text@, marker@) =~= before_marker(text@, marker@));
    }
    while i < cs.len() && !starts_at(&cs, i, marker)
        invariant
            cs@ == text@,
            0 <= i <= cs@.len(),
            marker@ == "producer:"@,
            out@ + before_marker(text@.skip(i as int), marker@) == before_marker(text@, marker@),
        decreases cs@.len() - i,
    {
        let ghost rest = text@.skip(i as int);
        proof {
            if rest.len() >= marker@.len() {
                assert(rest.take(marker@.len() as int) =~= text@.subrange(i as int, i + marker@.len()));
            }
            assert(rest.skip(1) =~= text@.skip(i + 1));
            assert(rest[0] == text@[i as int]);
        }
        push_char(&mut out, cs[i]);
        proof {
            assert(out@ + before_marker(text@.skip(i + 1), marker@) =~= before_marker(text@, marker@));
        }
        i = i + 1;
    }
    proof {
        let rest = text@.skip(i as int);
        if i < cs@.len() {
            assert(rest.take(marker@.len() as int) =~= text@.subrange(i as int, i + marker@.len()));
        } else {
            assert(rest =~= seq![]);
        }
        assert(before_marker(rest, marker@) =~= seq![]);
        assert(out@ + seq![] =~= out@);
    }
    out
}

/// Whether `cs` holds `word` at `i`.
fn starts_at(cs: &Vec<char>, i: usize, word: &str) -> (r: bool)
    requires
        i <= cs@.len(),
    ensures
        r == (i + word@.len() <= cs@.len() && cs@.subrange(i as int, i + word@.len()) == word@),
{
    let w = chars_of(word);
    if w.len() > cs.len() - i {
        return false;
    }
    let mut k: usize = 0;
    while k < w.len()
        invariant
            w@ == word@,
            i + w@.len() <= cs@.len(),
            0 <= k <= w@.len(),
            forall|j: int| 0 <= j < k ==> cs@[i + j] == w@[j],
        decreases w@.len() - k,
    {
        assert(i + k < cs@.len());
        assert(cs@.len() == cs.len());
        if cs[i + k] != w[k] {
            proof {
                assert(cs@.subrange(i as int, i + word@.len())[k as int] != word@[k as int]);
            }
            return false;
        }
        k = k + 1;
    }
    proof {
        assert(cs@.subrange(i as int, i + word@.len()) =~= word@);
    }
    true
}

/// The text of a refreshed pin.
pub fn render_pin(existing: Option<&str>, producer: &str, revision: &str, branch: &str, criteria: &Vec<String>) -> (r: String)
    ensures
        r@ == pin_text(
            match existing {
                Some(t) => Some(t@),
                None => None,
            },
            producer@,
            revision@,
            branch@,
            criteria@.map_values(|s: String| s@),
        ),
{
    let mut out = match existing {
        Some(t) => pin_header(t),
        None => String::new(),
    };
    push_text(&mut out, "producer: agent-ix/");
    push_text(&mut out, producer);
    push_text(&mut out, "\nrevision: ");
    push_text(&mut out, revision);
    push_text(&mut out, "\nbranch: ");
    push_text(&mut out, branch);
    push_text(&mut out, "\ncriteria:\n");
    let ghost head = out@;
    let ghost cs = criteria@.map_values(|s: String| s@);
    let mut i: usize = 0;
    while i < criteria.len()
        invariant
            0 <= i <= criteria@.len(),
            cs == criteria@.map_values(|s: String| s@),
            out@ == head + criteria_lines(cs.take(i as int)),
        decreases criteria@.len() - i,
    {
        proof {
            let t = cs.take(i + 1);
            assert(t.drop_last() == cs.take(i as int));
            assert(t.last() == cs[i as int]);
        }
        push_text(&mut out, "- ");
        push_text(&mut out, criteria[i].as_str());
        push_text(&mut out, "\n");
        proof {
            assert(out@ =~= head + criteria_lines(cs.take(i + 1)));
        }
        i = i + 1;
    }
    proof {
        assert(cs.take(criteria@.len() as int) == cs);
    }
    out
}

/// Result of refreshing one producer criterion pin.
pub struct RefreshOutcome {
    pub producer: String,
    pub revision: String,
    /// How many criteria the pin now states.
    pub criteria: usize,
    /// Where the pin was written.
    pub path: String,
}

} // verus!
