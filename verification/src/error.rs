//! The error contract shared by the library and the command line.
use vstd::prelude::*;
use crate::text::push_text;

verus! {

/// A rejected corpus declaration, observation, or host operation.
pub enum CorpusError {
    /// A required file or directory could not be read.
    Read { path: String, source: String },
    /// A file could not be written.
    Write { path: String, source: String },
    /// YAML did not satisfy the declared data shape.
    Yaml { path: String, source: String },
    /// JSON did not satisfy the declared data shape.
    Json { context: String, source: String },
    /// A corpus invariant was false.
    Invariant(String),
    /// A selected process could not be started.
    Spawn { program: String, source: String },
    /// A selected process returned a non-success status.
    Process { program: String, status: String, stderr: String },
}

/// `a + b + c + d`, for strings.
pub open spec fn join4(a: Seq<char>, b: Seq<char>, c: Seq<char>, d: Seq<char>) -> Seq<char> {
    a + b + c + d
}

/// The human-readable text of an error.
pub open spec fn error_text(e: CorpusError) -> Seq<char> {
    match e {
        CorpusError::Read { path, source } => join4("cannot read "@, path@, ": "@, source@),
        CorpusError::Write { path, source } => join4("cannot write "@, path@, ": "@, source@),
        CorpusError::Yaml { path, source } => join4("invalid YAML in "@, path@, ": "@, source@),
        CorpusError::Json { context, source } => join4(
            "invalid JSON from "@,
            context@,
            ": "@,
            source@,
        ),
        CorpusError::Invariant(message) => message@,
        CorpusError::Spawn { program, source } => join4(
            "cannot execute "@,
            program@,
            ": "@,
            source@,
        ),
        CorpusError::Process { program, status, stderr } => program@ + " exited "@ + status@
            + ": "@ + stderr@,
    }
}

fn joined(a: &str, b: &str, c: &str, d: &str) -> (r: String)
    ensures
        r@ == join4(a@, b@, c@, d@),
{
    let mut out = a.to_owned();
    push_text(&mut out, b);
    push_text(&mut out, c);
    push_text(&mut out, d);
    out
}

impl CorpusError {
    /// The text this error displays.
    pub fn message(&self) -> (r: String)
        ensures
            r@ == error_text(*self),
    {
        match self {
            CorpusError::Read { path, source } => joined("cannot read ", path, ": ", source),
            CorpusError::Write { path, source } => joined("cannot write ", path, ": ", source),
            CorpusError::Yaml { path, source } => joined("invalid YAML in ", path, ": ", source),
            CorpusError::Json { context, source } => joined(
                "invalid JSON from ",
                context,
                ": ",
                source,
            ),
            CorpusError::Invariant(message) => message.clone(),
            CorpusError::Spawn { program, source } => joined(
                "cannot execute ",
                program,
                ": ",
                source,
            ),
            CorpusError::Process { program, status, stderr } => {
                let mut out = joined(program, " exited ", status, ": ");
                push_text(&mut out, stderr);
                out
            },
        }
    }
}


/// Whether two errors are the same variant with the same texts.
pub open spec fn same_error(a: CorpusError, b: CorpusError) -> bool {
    match (a, b) {
        (CorpusError::Read { path: p, source: s }, CorpusError::Read { path: q, source: t }) => p@ == q@ && s@ == t@,
        (CorpusError::Write { path: p, source: s }, CorpusError::Write { path: q, source: t }) => p@ == q@ && s@ == t@,
        (CorpusError::Yaml { path: p, source: s }, CorpusError::Yaml { path: q, source: t }) => p@ == q@ && s@ == t@,
        (CorpusError::Json { context: p, source: s }, CorpusError::Json { context: q, source: t }) => p@ == q@ && s@ == t@,
        (CorpusError::Invariant(m), CorpusError::Invariant(n)) => m@ == n@,
        (CorpusError::Spawn { program: p, source: s }, CorpusError::Spawn { program: q, source: t }) => p@ == q@ && s@ == t@,
        (
            CorpusError::Process { program: p, status: s, stderr: e },
            CorpusError::Process { program: q, status: t, stderr: f },
        ) => p@ == q@ && s@ == t@ && e@ == f@,
        _ => false,
    }
}

impl CorpusError {
    /// A copy of this error.
    pub fn duplicate(&self) -> (r: CorpusError)
        ensures
            same_error(r, *self),
    {
        match self {
            CorpusError::Read { path, source } => CorpusError::Read { path: path.clone(), source: source.clone() },
            CorpusError::Write { path, source } => CorpusError::Write { path: path.clone(), source: source.clone() },
            CorpusError::Yaml { path, source } => CorpusError::Yaml { path: path.clone(), source: source.clone() },
            CorpusError::Json { context, source } => CorpusError::Json { context: context.clone(), source: source.clone() },
            CorpusError::Invariant(m) => CorpusError::Invariant(m.clone()),
            CorpusError::Spawn { program, source } => CorpusError::Spawn { program: program.clone(), source: source.clone() },
            CorpusError::Process { program, status, stderr } => CorpusError::Process {
                program: program.clone(),
                status: status.clone(),
                stderr: stderr.clone(),
            },
        }
    }
}

} // verus!
