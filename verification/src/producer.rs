//! The producer process boundary: argument templates, the input directory,
//! and what a finished process's status and output mean.
use vstd::prelude::*;
use crate::error::CorpusError;
use crate::text::{chars_of, push_char, push_text, take_chars, decimal, decimal_string, trim_text, trimmed};

verus! {

/// A producer executable and its ordered argument templates.
pub struct ProducerInvocation {
    /// Executable passed directly to the operating system.
    pub executable: String,
    /// Ordered arguments in which `{org}`, `{repo}`, and `{input}` are replaced.
    pub arguments: Vec<String>,
}

/// A template with each `{org}`, `{repo}` and `{input}` replaced, scanning
/// from the left; everything else, other braces included, stays as written.
pub open spec fn rendered(t: Seq<char>, org: Seq<char>, repo: Seq<char>, input: Seq<char>) -> Seq<char>
    decreases t.len(),
{
    if t.len() == 0 {
        seq![]
    } else if t.len() >= 5 && t.take(5) == "{org}"@ {
        org + rendered(t.skip(5), org, repo, input)
    } else if t.len() >= 6 && t.take(6) == "{repo}"@ {
        repo + rendered(t.skip(6), org, repo, input)
    } else if t.len() >= 7 && t.take(7) == "{input}"@ {
        input + rendered(t.skip(7), org, repo, input)
    } else {
        seq![t[0]] + rendered(t.skip(1), org, repo, input)
    }
}

/// Whether `cs` holds `word` at `i`.
fn holds_at(cs: &Vec<char>, i: usize, word: &str) -> (r: bool)
    requires
        i <= cs@.len(),
    ensures
        r == (i + word@.len() <= cs@.len() && cs@.subrange(i as int, i + word@.len()) == word@),
{
    let w = chars_of(word);
    if w.len() > cs.len() - i {
        return false;
    }
    let mut k: usize = 0;
    while k < w.len()
        invariant
            w@ == word@,
            i + w@.len() <= cs@.len(),
            0 <= k <= w@.len(),
            forall|j: int| 0 <= j < k ==> cs@[i + j] == w@[j],
        decreases w@.len() - k,
    {
        assert(i + k < cs@.len());
        assert(cs@.len() == cs.len());
        if cs[i + k] != w[k] {
            proof {
                assert(cs@.subrange(i as int, i + word@.len())[k as int] != word@[k as int]);
            }
            return false;
        }
        k = k + 1;
    }
    proof {
        assert(cs@.subrange(i as int, i + word@.len()) =~= word@);
    }
    true
}

/// Replaces the placeholders of one argument template.
pub fn render_argument(template: &str, org: &str, repo: &str, input: &str) -> (r: String)
    ensures
        r@ == rendered(template@, org@, repo@, input@),
{
    proof {
        reveal_strlit("{org}");
        reveal_strlit("{repo}");
        reveal_strlit("{input}");
    }
    let cs = chars_of(template);
    let ghost t = template@;
    let mut out = String::new();
    let mut i: usize = 0;
    proof {
        assert(t.skip(0) =~= t);
        assert(out@ + rendered(t, org@, repo@, input@) =~= rendered(t, org@, repo@, input@));
    }
    while i < cs.len()
        invariant
            cs@ == t,
            t == template@,
            0 <= i <= t.len(),
            out@ + rendered(t.skip(i as int), org@, repo@, input@) == rendered(t, org@, repo@, input@),
        decreases t.len() - i,
    {
        let ghost rest = t.skip(i as int);
        let ghost before = out@;
        proof {
            reveal_strlit("{org}");
            reveal_strlit("{repo}");
            reveal_strlit("{input}");
            assert("{org}"@.len() == 5);
            assert("{repo}"@.len() == 6);
            assert("{input}"@.len() == 7);
        }
        if holds_at(&cs, i, "{org}") {
            proof {
                assert(rest.take(5) =~= t.subrange(i as int, i + 5));
                assert(rest.skip(5) =~= t.skip(i + 5));
            }
            push_text(&mut out, org);
            i = i + 5;
        } else if holds_at(&cs, i, "{repo}") {
            proof {
                assert(rest.take(5) =~= t.subrange(i as int, i + 5));
                assert(rest.take(6) =~= t.subrange(i as int, i + 6));
                assert(rest.skip(6) =~= t.skip(i + 6));
            }
            push_text(&mut out, repo);
            i = i + 6;
        } else if holds_at(&cs, i, "{input}") {
            proof {
                assert(rest.take(5) =~= t.subrange(i as int, i + 5));
                assert(rest.take(6) =~= t.subrange(i as int, i + 6));
                assert(rest.take(7) =~= t.subrange(i as int, i + 7));
                assert(rest.skip(7) =~= t.skip(i + 7));
            }
            push_text(&mut out, input);
            i = i + 7;
        } else {
            proof {
                if rest.len() >= 5 {
                    assert(rest.take(5) =~= t.subrange(i as int, i + 5));
                }
                if rest.len() >= 6 {
                    assert(rest.take(6) =~= t.subrange(i as int, i + 6));
                }
                if rest.len() >= 7 {
                    assert(rest.take(7) =~= t.subrange(i as int, i + 7));
                }
                assert(rest.skip(1) =~= t.skip(i + 1));
                assert(rest[0] == t[i as int]);
            }
            push_char(&mut out, cs[i]);
            i = i + 1;
        }
        proof {
            assert(out@ + rendered(t.skip(i as int), org@, repo@, input@) =~= rendered(t, org@, repo@, input@));
        }
    }
    proof {
        assert(t.skip(t.len() as int) =~= seq![]);
        assert(out@ + seq![] =~= out@);
    }
    out
}

impl ProducerInvocation {
    /// The arguments with their placeholders replaced, in order.
    pub fn arguments_for(&self, org: &str, repo: &str, input: &str) -> (r: Vec<String>)
        ensures
            r@.len() == self.arguments@.len(),
            forall|i: int|
                0 <= i < r@.len() ==> (#[trigger] r@[i])@ == rendered(self.arguments@[i]@, org@, repo@, input@),
    {
        let mut out: Vec<String> = Vec::new();
        let mut i: usize = 0;
        while i < self.arguments.len()
            invariant
                0 <= i <= self.arguments@.len(),
                out@.len() == i,
                forall|k: int|
                    0 <= k < i ==> (#[trigger] out@[k])@ == rendered(self.arguments@[k]@, org@, repo@, input@),
            decreases self.arguments@.len() - i,
        {
            out.push(render_argument(self.arguments[i].as_str(), org, repo, input));
            i = i + 1;
        }
        out
    }
}

/// Whether a producer reads the case directory itself rather than its
/// `input` subdirectory: it does so for a directory named `variant`.
pub fn reads_in_place(file_name: Option<&str>) -> (r: bool)
    ensures
        r == (file_name matches Some(n) && n@ == "variant"@),
{
    match file_name {
        Some(n) => n.to_owned() == "variant".to_owned(),
        None => false,
    }
}

/// The first `characters` characters of `text`.
pub fn limited(text: &str, characters: usize) -> (r: String)
    ensures
        r@ == text@.take(if characters <= text@.len() { characters as int } else { text@.len() as int }),
{
    take_chars(text, characters)
}

/// How a finished process ended: with an exit code, or by a signal.
pub enum ProcessExit {
    Code(i32),
    Signal,
}

/// The status text of a process that ended: its exit code, or `by signal`.
pub open spec fn status_text(exit: ProcessExit) -> Seq<char> {
    match exit {
        ProcessExit::Code(c) => if c < 0 {
            seq!['-'] + decimal((-c) as nat)
        } else {
            decimal(c as nat)
        },
        ProcessExit::Signal => "by signal"@,
    }
}

fn status_string(exit: &ProcessExit) -> (r: String)
    ensures
        r@ == status_text(*exit),
{
    match exit {
        ProcessExit::Code(c) => {
            if *c < 0 {
                let mut out = String::new();
                push_char(&mut out, '-');
                let magnitude: i64 = -(*c as i64);
                let digits = decimal_string(magnitude as u64);
                push_text(&mut out, digits.as_str());
                out
            } else {
                decimal_string(*c as u64)
            }
        },
        ProcessExit::Signal => "by signal".to_owned(),
    }
}

/// The first 400 characters of a text.
pub open spec fn first_400(s: Seq<char>) -> Seq<char> {
    s.take(if s.len() <= 400 { s.len() as int } else { 400 })
}

/// A producer that exited without success: its program, its status, and
/// the first 400 characters of what it wrote to standard error.
pub fn producer_failure(program: &str, exit: &ProcessExit, stderr: &str) -> (r: CorpusError)
    ensures
        r matches CorpusError::Process { program: p, status, stderr: e }
            && p@ == program@ && status@ == status_text(*exit) && e@ == first_400(stderr@),
{
    CorpusError::Process {
        program: program.to_owned(),
        status: status_string(exit),
        stderr: limited(stderr, 400),
    }
}

/// A helper process (a version-control or coverage tool) that exited without
/// success: as for a producer, with its standard error trimmed first.
pub fn tool_failure(program: &str, exit: &ProcessExit, stderr: &str) -> (r: CorpusError)
    ensures
        r matches CorpusError::Process { program: p, status, stderr: e }
            && p@ == program@ && status@ == status_text(*exit) && e@ == first_400(trimmed(stderr@)),
{
    let t = trim_text(stderr);
    CorpusError::Process {
        program: program.to_owned(),
        status: status_string(exit),
        stderr: limited(t.as_str(), 400),
    }
}

/// What a finished producer gives: its standard output when it succeeded
/// and that output is UTF-8 text; else the error that says why not.
pub fn producer_output(
    program: &str,
    success: bool,
    exit: &ProcessExit,
    stderr: &str,
    stdout: Result<String, String>,
    case_dir: &str,
) -> (r: Result<String, CorpusError>)
    ensures
        !success ==> (r matches Err(CorpusError::Process { program: p, status, stderr: e })
            && p@ == program@ && status@ == status_text(*exit) && e@ == first_400(stderr@)),
        success ==> match stdout {
            Ok(raw) => r matches Ok(s) && s@ == raw@,
            Err(why) => r matches Err(CorpusError::Invariant(m))
                && m@ == "producer output on "@ + case_dir@ + " is not UTF-8: "@ + why@,
        },
{
    if !success {
        return Err(producer_failure(program, exit, stderr));
    }
    match stdout {
        Ok(raw) => Ok(raw),
        Err(why) => {
            let mut message = "producer output on ".to_owned();
            push_text(&mut message, case_dir);
            push_text(&mut message, " is not UTF-8: ");
            push_text(&mut message, why.as_str());
            Err(CorpusError::Invariant(message))
        },
    }
}

/// Producer output that is not JSON, with the case it was produced on.
pub fn producer_json_error(case_dir: &str, source: &str) -> (r: CorpusError)
    ensures
        r matches CorpusError::Json { context, source: s } && context@ == "producer on "@ + case_dir@ && s@ == source@,
{
    let mut context = "producer on ".to_owned();
    push_text(&mut context, case_dir);
    CorpusError::Json { context, source: source.to_owned() }
}

} // verus!
