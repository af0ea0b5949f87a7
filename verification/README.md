# quire-corpus

A truth set for code-graph producers, with a verified library that grades them.

A producer reads one fixture repository and writes node and edge records. The
library compares those records with the case's hand-authored expectations and
tallies true positives, false positives and false negatives, sliced by language,
object type and axis. It also keeps the corpus honest: every declared case must
exist on disk, every fixture on disk must be declared, and every criterion a
producer states must be claimed by a case or excused with a reason.

## Layout

- `src/` — the library, written in Verus. Each public function states what it
  returns in its contract, and `src/laws.rs` proves properties that span
  functions (for example, that a node's `kind` is never graded and that an
  unreached criterion always fails the bounds report).
- `tests/` — scenarios on concrete inputs.
- `app/` — the command-line program: file discovery, YAML and JSON parsing,
  running the producer, git, and printing reports.
