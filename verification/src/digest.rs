//! Corpus and per-case BLAKE2b-256 identity over framed file bytes.
use vstd::prelude::*;
use blake2::digest::VariableOutput;
use crate::bounds::CaseKey;
use crate::json::{hex_digit, hex_digit_exec};
use crate::order::{keys, to_sorted_set, sorted_set};
use crate::text::push_char;

verus! {

/// BLAKE2b with an output of `size` bytes, over `message`.
pub uninterp spec fn blake2b(message: Seq<u8>, size: nat) -> Seq<u8>;

/// `Blake2bVar::digest_variable`: the BLAKE2b hash of `message` with an output
/// of `size` bytes. The crate refuses an output longer than 64 bytes and
/// accepts every other size; the output has the length asked for.
#[verifier::external_body]
fn blake2b_var(message: &[u8], size: usize) -> (r: Option<Vec<u8>>)
    ensures
        match r {
            Some(d) => size <= 64 && d@ == blake2b(message@, size as nat) && d@.len() == size,
            None => size > 64,
        },
{
    let mut out = vec![0u8; size];
    match blake2::Blake2bVar::digest_variable(message, &mut out) {
        Ok(()) => Some(out),
        Err(_) => None,
    }
}

/// One file of a digest: its path relative to the corpus root, and its bytes.
pub struct FileEntry {
    pub path: String,
    pub content: Vec<u8>,
}

/// What a file contributes to a digest: the UTF-8 bytes of its relative path and its content.
pub open spec fn entry_view(e: FileEntry) -> (Seq<u8>, Seq<u8>) {
    (vstd::utf8::encode_utf8(e.path@), e.content@)
}

/// The framed message: each file as its path, a zero byte, its content, a zero byte.
pub open spec fn frame(entries: Seq<(Seq<u8>, Seq<u8>)>) -> Seq<u8>
    decreases entries.len(),
{
    if entries.len() == 0 {
        seq![]
    } else {
        frame(entries.drop_last()) + entries.last().0 + seq![0u8] + entries.last().1 + seq![0u8]
    }
}

/// Two lowercase hexadecimal digits per byte.
pub open spec fn hex_text(bytes: Seq<u8>) -> Seq<char>
    decreases bytes.len(),
{
    if bytes.len() == 0 {
        seq![]
    } else {
        hex_text(bytes.drop_last()) + seq![hex_digit((bytes.last() / 16) as nat), hex_digit((bytes.last() % 16) as nat)]
    }
}

/// The identity of a list of files: the hexadecimal BLAKE2b-256 of their framed bytes.
pub open spec fn file_digest(files: Seq<FileEntry>) -> Seq<char> {
    hex_text(blake2b(frame(files.map_values(|e: FileEntry| entry_view(e))), 32))
}

/// Bytes as lowercase hexadecimal text, two digits per byte.
pub fn hex(bytes: &[u8]) -> (r: String)
    ensures
        r@ == hex_text(bytes@),
        r@.len() == 2 * bytes@.len(),
{
    let mut out = String::new();
    let mut i: usize = 0;
    while i < bytes.len()
        invariant
            0 <= i <= bytes@.len(),
            out@ == hex_text(bytes@.take(i as int)),
            out@.len() == 2 * i,
        decreases bytes@.len() - i,
    {
        proof {
            let t = bytes@.take(i + 1);
            assert(t.drop_last() == bytes@.take(i as int));
            assert(t.last() == bytes@[i as int]);
        }
        let b = bytes[i];
        push_char(&mut out, hex_digit_exec((b / 16) as u32));
        push_char(&mut out, hex_digit_exec((b % 16) as u32));
        i = i + 1;
    }
    proof {
        assert(bytes@.take(bytes@.len() as int) == bytes@);
    }
    out
}

/// Appends `tail` to `out`.
fn push_bytes(out: &mut Vec<u8>, tail: &[u8])
    ensures
        final(out)@ == old(out)@ + tail@,
{
    let ghost start = out@;
    let mut i: usize = 0;
    while i < tail.len()
        invariant
            0 <= i <= tail@.len(),
            out@ == start + tail@.take(i as int),
        decreases tail@.len() - i,
    {
        out.push(tail[i]);
        proof {
            assert(tail@.take(i + 1) == tail@.take(i as int).push(tail@[i as int]));
        }
        i = i + 1;
    }
    proof {
        assert(tail@.take(tail@.len() as int) == tail@);
    }
}

/// The framed message of a list of files.
pub fn framed(files: &[FileEntry]) -> (r: Vec<u8>)
    ensures
        r@ == frame(files@.map_values(|e: FileEntry| entry_view(e))),
{
    let ghost views = files@.map_values(|e: FileEntry| entry_view(e));
    let mut out: Vec<u8> = Vec::new();
    let mut i: usize = 0;
    while i < files.len()
        invariant
            0 <= i <= files@.len(),
            views == files@.map_values(|e: FileEntry| entry_view(e)),
            out@ == frame(views.take(i as int)),
        decreases files@.len() - i,
    {
        proof {
            let t = views.take(i + 1);
            assert(t.drop_last() == views.take(i as int));
            assert(t.last() == views[i as int]);
        }
        let f = &files[i];
        push_bytes(&mut out, f.path.as_str().as_bytes());
        out.push(0u8);
        push_bytes(&mut out, f.content.as_slice());
        out.push(0u8);
        i = i + 1;
    }
    proof {
        assert(views.take(files@.len() as int) == views);
    }
    out
}

/// The BLAKE2b-256 identity of a list of files, in the order given.
pub fn digest_paths(files: &[FileEntry]) -> (r: String)
    ensures
        r@ == file_digest(files@),
        r@.len() == 64,
{
    let message = framed(files);
    match blake2b_var(message.as_slice(), 32) {
        Some(d) => hex(d.as_slice()),
        None => {
            proof {
                assert(false);
            }
            String::new()
        },
    }
}

/// The deterministic digest observation.
pub struct DigestReport {
    /// The report's own schema version.
    pub schema_version: u32,
    /// The whole-corpus digest, over `corpus.yaml` and every fixture file.
    pub corpus_revision: String,
    /// Per-case digests, keyed by slash-separated case name, in key order.
    pub cases: Vec<(String, String)>,
}

/// The view of a list of named digests as `[name, digest]` pairs.
pub open spec fn named_view(v: Seq<(String, String)>) -> Seq<Seq<Seq<char>>> {
    v.map_values(|p: (String, String)| seq![p.0@, p.1@])
}

/// Each case's slash name with the digest of its files, ordered by name.
pub open spec fn case_digest_view(cases: Seq<(CaseKey, Vec<FileEntry>)>) -> Seq<Seq<Seq<char>>> {
    sorted_set(cases.map_values(|c: (CaseKey, Vec<FileEntry>)| seq![c.0.slash_view(), file_digest(c.1@)]))
}

/// Derive every case digest in slash-key order.
pub fn case_digests(cases: &[(CaseKey, Vec<FileEntry>)]) -> (r: Vec<(String, String)>)
    ensures
        named_view(r@) == case_digest_view(cases@),
{
    let ghost all = cases@.map_values(|c: (CaseKey, Vec<FileEntry>)| seq![c.0.slash_view(), file_digest(c.1@)]);
    let mut list: Vec<Vec<String>> = Vec::new();
    let mut i: usize = 0;
    while i < cases.len()
        invariant
            0 <= i <= cases@.len(),
            all == cases@.map_values(|c: (CaseKey, Vec<FileEntry>)| seq![c.0.slash_view(), file_digest(c.1@)]),
            keys(list@) == all.take(i as int),
        decreases cases@.len() - i,
    {
        let (key, files) = &cases[i];
        let mut pair: Vec<String> = Vec::new();
        pair.push(key.slash_name());
        pair.push(digest_paths(files.as_slice()));
        let ghost before = list@;
        list.push(pair);
        proof {
            assert(crate::order::words(pair@) =~= all[i as int]);
            assert(keys(list@) =~= keys(before).push(crate::order::words(pair@)));
            assert(all.take(i + 1) =~= all.take(i as int).push(all[i as int]));
        }
        i = i + 1;
    }
    proof {
        assert(all.take(cases@.len() as int) == all);
        assert forall|k: int| 0 <= k < all.len() implies (#[trigger] all[k]).len() == 2 by {}
        crate::order::lemma_sorted_set_arity(all, 2);
    }
    let sorted = to_sorted_set(&list);
    let mut out: Vec<(String, String)> = Vec::new();
    let mut j: usize = 0;
    while j < sorted.len()
        invariant
            0 <= j <= sorted@.len(),
            keys(sorted@) == sorted_set(all),
            forall|k: int| 0 <= k < keys(sorted@).len() ==> (#[trigger] keys(sorted@)[k]).len() == 2,
            named_view(out@) == keys(sorted@).take(j as int),
        decreases sorted@.len() - j,
    {
        proof {
            assert(keys(sorted@)[j as int] == crate::order::words(sorted@[j as int]@));
            assert(keys(sorted@)[j as int].len() == 2);
        }
        let w = &sorted[j];
        let ghost before = out@;
        let a = w[0].clone();
        let b = w[1].clone();
        out.push((a, b));
        proof {
            assert(crate::order::words(w@) =~= seq![a@, b@]);
            assert(named_view(out@) =~= named_view(before).push(seq![a@, b@]));
            assert(keys(sorted@).take(j + 1) =~= keys(sorted@).take(j as int).push(keys(sorted@)[j as int]));
            assert(named_view(out@) =~= keys(sorted@).take(j + 1));
        }
        j = j + 1;
    }
    proof {
        assert(keys(sorted@).take(sorted@.len() as int) == keys(sorted@));
    }
    out
}

/// The complete digest report: schema version 1, the corpus revision, and the case digests.
pub fn report(revision_files: &[FileEntry], cases: &[(CaseKey, Vec<FileEntry>)]) -> (r: DigestReport)
    ensures
        r.schema_version == 1,
        r.corpus_revision@ == file_digest(revision_files@),
        named_view(r.cases@) == case_digest_view(cases@),
{
    DigestReport { schema_version: 1, corpus_revision: digest_paths(revision_files), cases: case_digests(cases) }
}


/// The corpus revision: the digest of the manifest followed by every fixture file, in the order given.
pub fn corpus_revision(manifest: FileEntry, fixtures: Vec<FileEntry>) -> (r: String)
    ensures
        r@ == file_digest(seq![manifest] + fixtures@),
{
    let mut files: Vec<FileEntry> = Vec::new();
    files.push(manifest);
    let mut rest = fixtures;
    let ghost head = files@;
    let ghost tail = rest@;
    files.append(&mut rest);
    proof {
        assert(files@ =~= head + tail);
    }
    digest_paths(files.as_slice())
}

} // verus!
