//! Producer-neutral graph scoring: confusion tallies and per-case findings.
use vstd::prelude::*;
use crate::error::CorpusError;
use crate::order::{keys, words, words_equal};
use crate::text::{debug_str, str_debug};

pub use crate::verdict::score_case;
pub use crate::relation::compare_runs;

verus! {

/// One confusion-matrix population.
#[derive(Clone, Copy)]
pub struct Counts {
    /// True positives: correctly reported.
    pub tp: u64,
    /// False positives: reported but not expected.
    pub fp: u64,
    /// False negatives: expected but not reported.
    pub fn_: u64,
}

/// The three outcomes a tally counts.
#[derive(Clone, Copy, PartialEq, Eq, Structural)]
pub enum Outcome {
    Tp,
    Fp,
    Fn,
}

/// An empty population.
pub open spec fn zero_counts() -> Counts {
    Counts { tp: 0, fp: 0, fn_: 0 }
}

/// A population with one more `outcome`.
pub open spec fn bump(c: Counts, outcome: Outcome) -> Counts {
    match outcome {
        Outcome::Tp => Counts { tp: (c.tp + 1) as u64, ..c },
        Outcome::Fp => Counts { fp: (c.fp + 1) as u64, ..c },
        Outcome::Fn => Counts { fn_: (c.fn_ + 1) as u64, ..c },
    }
}

/// The key of the slice every outcome counts toward.
pub open spec fn total_key() -> Seq<Seq<char>> {
    seq!["total"@, "total"@]
}

/// The population of slice `key`; empty when the tally has no such slice.
pub open spec fn slice_of(m: Map<Seq<Seq<char>>, Counts>, key: Seq<Seq<char>>) -> Counts {
    if m.contains_key(key) {
        m[key]
    } else {
        zero_counts()
    }
}

/// The tally with one more `outcome` in slice `key`.
pub open spec fn bump_slice(
    m: Map<Seq<Seq<char>>, Counts>,
    key: Seq<Seq<char>>,
    outcome: Outcome,
) -> Map<Seq<Seq<char>>, Counts> {
    m.insert(key, bump(slice_of(m, key), outcome))
}

/// The tally after counting `outcome` in each named slice whose value is not empty.
pub open spec fn bump_named(
    m: Map<Seq<Seq<char>>, Counts>,
    slices: Seq<(Seq<char>, Seq<char>)>,
    outcome: Outcome,
) -> Map<Seq<Seq<char>>, Counts>
    decreases slices.len(),
{
    if slices.len() == 0 {
        m
    } else {
        let last = slices.last();
        let before = bump_named(m, slices.drop_last(), outcome);
        if last.1.len() == 0 {
            before
        } else {
            bump_slice(before, seq![last.0, last.1], outcome)
        }
    }
}

/// `Tally::add`: one outcome, counted in the total and in every non-empty named slice.
pub open spec fn tally_add(
    m: Map<Seq<Seq<char>>, Counts>,
    outcome: Outcome,
    slices: Seq<(Seq<char>, Seq<char>)>,
) -> Map<Seq<Seq<char>>, Counts> {
    bump_named(bump_slice(m, total_key(), outcome), slices, outcome)
}

/// Every population in the tally can count `n` more of each outcome without overflow.
pub open spec fn has_room(m: Map<Seq<Seq<char>>, Counts>, n: int) -> bool {
    &&& 0 <= n <= u64::MAX
    &&& forall|k: Seq<Seq<char>>|
        #![trigger m[k]]
        m.contains_key(k) ==> {
            &&& m[k].tp + n <= u64::MAX
            &&& m[k].fp + n <= u64::MAX
            &&& m[k].fn_ + n <= u64::MAX
        }
}

/// Confusion tally sliced by stable `(axis, value)` keys.
pub struct Tally {
    slice_keys: Vec<Vec<String>>,
    slice_counts: Vec<Counts>,
}

impl Tally {
    /// Slice keys are distinct and each has a population.
    pub closed spec fn wf(&self) -> bool {
        &&& self.slice_keys@.len() == self.slice_counts@.len()
        &&& keys(self.slice_keys@).no_duplicates()
        &&& forall|i: int| 0 <= i < self.slice_keys@.len() ==> (#[trigger] self.slice_keys@[i])@.len() == 2
    }

    /// Each slice key, as `[axis, value]`, mapped to its population.
    pub closed spec fn view(&self) -> Map<Seq<Seq<char>>, Counts> {
        Map::new(
            |k: Seq<Seq<char>>| keys(self.slice_keys@).contains(k),
            |k: Seq<Seq<char>>| self.slice_counts@[keys(self.slice_keys@).index_of(k)],
        )
    }

    /// An empty tally.
    pub fn new() -> (r: Tally)
        ensures
            r.wf(),
            r@ == Map::<Seq<Seq<char>>, Counts>::empty(),
    {
        let r = Tally { slice_keys: Vec::new(), slice_counts: Vec::new() };
        proof {
            assert(r@ =~= Map::<Seq<Seq<char>>, Counts>::empty());
        }
        r
    }

    proof fn lemma_index(&self, i: int)
        requires
            self.wf(),
            0 <= i < self.slice_keys@.len(),
        ensures
            self@.contains_key(keys(self.slice_keys@)[i]),
            self@[keys(self.slice_keys@)[i]] == self.slice_counts@[i],
    {
        let ks = keys(self.slice_keys@);
        assert(ks.contains(ks[i]));
        let j = ks.index_of(ks[i]);
        assert(0 <= j < ks.len() && ks[j] == ks[i]);
    }

    fn find(&self, key: &Vec<String>) -> (r: Option<usize>)
        requires
            self.wf(),
        ensures
            match r {
                Some(i) => i < self.slice_keys@.len() && keys(self.slice_keys@)[i as int] == words(key@),
                None => !self@.contains_key(words(key@)),
            },
    {
        let mut i: usize = 0;
        while i < self.slice_keys.len()
            invariant
                self.wf(),
                0 <= i <= self.slice_keys@.len(),
                forall|j: int| 0 <= j < i ==> keys(self.slice_keys@)[j] != words(key@),
            decreases self.slice_keys@.len() - i,
        {
            if words_equal(&self.slice_keys[i], key) {
                return Some(i);
            }
            i = i + 1;
        }
        None
    }

    /// Counts one `outcome` in slice `[axis, value]`.
    fn increment(&mut self, outcome: Outcome, axis: &str, value: &str)
        requires
            old(self).wf(),
            has_room(old(self)@, 1),
        ensures
            final(self).wf(),
            final(self)@ == bump_slice(old(self)@, seq![axis@, value@], outcome),
    {
        let ghost m = self@;
        let ghost k = seq![axis@, value@];
        let mut key: Vec<String> = Vec::new();
        key.push(axis.to_owned());
        key.push(value.to_owned());
        proof {
            assert(words(key@) =~= k);
        }
        let found = self.find(&key);
        match found {
            Some(i) => {
                proof {
                    self.lemma_index(i as int);
                }
                let mut c = self.slice_counts[i];
                match outcome {
                    Outcome::Tp => c.tp = c.tp + 1,
                    Outcome::Fp => c.fp = c.fp + 1,
                    Outcome::Fn => c.fn_ = c.fn_ + 1,
                }
                self.slice_counts.set(i, c);
                proof {
                    let ks = keys(self.slice_keys@);
                    assert(ks == keys(old(self).slice_keys@));
                    assert forall|q: Seq<Seq<char>>| #[trigger] self@.contains_key(q) implies self@[q] == m.insert(k, c)[q] by {
                        let j = ks.index_of(q);
                        assert(0 <= j < ks.len() && ks[j] == q);
                        if q != k {
                            assert(j != i);
                        } else {
                            assert(ks[j] == ks[i as int]);
                        }
                    }
                    assert(self@ =~= m.insert(k, c));
                    assert(c == bump(slice_of(m, k), outcome));
                }
            },
            None => {
                let mut c = Counts { tp: 0, fp: 0, fn_: 0 };
                match outcome {
                    Outcome::Tp => c.tp = 1,
                    Outcome::Fp => c.fp = 1,
                    Outcome::Fn => c.fn_ = 1,
                }
                self.slice_keys.push(key);
                self.slice_counts.push(c);
                proof {
                    let old_ks = keys(old(self).slice_keys@);
                    let old_cs = old(self).slice_counts@;
                    let ks = keys(self.slice_keys@);
                    assert(ks =~= old_ks.push(k));
                    assert(!old_ks.contains(k));
                    assert(self.slice_keys@[old_ks.len() as int]@.len() == 2);
                    assert(ks.no_duplicates()) by {
                        assert forall|a: int, b: int| 0 <= a < ks.len() && 0 <= b < ks.len() && a != b implies ks[a] != ks[b] by {
                            if a == old_ks.len() {
                                assert(old_ks[b] == ks[b]);
                            } else if b == old_ks.len() {
                                assert(old_ks[a] == ks[a]);
                            }
                        }
                    }
                    assert forall|q: Seq<Seq<char>>| m.insert(k, c).contains_key(q) implies #[trigger] self@.contains_key(q) by {
                        if q == k {
                            assert(ks[old_ks.len() as int] == k);
                        } else {
                            let j0 = old_ks.index_of(q);
                            assert(ks[j0] == q);
                        }
                    }
                    assert forall|q: Seq<Seq<char>>| #[trigger] self@.contains_key(q) implies m.insert(k, c).contains_key(q) && self@[q] == m.insert(k, c)[q] by {
                        let j = ks.index_of(q);
                        assert(0 <= j < ks.len() && ks[j] == q);
                        if q != k {
                            assert(j < old_ks.len());
                            assert(old_ks[j] == q);
                            assert(old_ks.contains(q));
                            let j0 = old_ks.index_of(q);
                            assert(old_ks[j0] == q);
                            assert(j0 == j);
                        } else {
                            assert(j == old_ks.len());
                        }
                    }
                    assert(self@ =~= m.insert(k, c));
                    assert(c == bump(slice_of(m, k), outcome));
                }
            },
        }
    }

    /// Counts `outcome` in the total and in every named slice whose value is not empty.
    pub fn record(&mut self, outcome: Outcome, slices: &Vec<(String, String)>)
        requires
            old(self).wf(),
            has_room(old(self)@, (slices@.len() + 1) as int),
        ensures
            final(self).wf(),
            final(self)@ == tally_add(old(self)@, outcome, pairs(slices@)),
    {
        let ghost m = self@;
        proof {
            lemma_room_bump(m, total_key(), outcome, (slices@.len() + 1) as int);
            assert(seq!["total"@, "total"@] == total_key());
        }
        self.increment(outcome, "total", "total");
        let mut i: usize = 0;
        while i < slices.len()
            invariant
                self.wf(),
                0 <= i <= slices@.len(),
                has_room(self@, (slices@.len() - i) as int),
                self@ == bump_named(bump_slice(m, total_key(), outcome), pairs(slices@).take(i as int), outcome),
            decreases slices@.len() - i,
        {
            let ghost before = self@;
            proof {
                let t = pairs(slices@).take(i + 1);
                assert(t.drop_last() == pairs(slices@).take(i as int));
                assert(t.last() == (slices@[i as int].0@, slices@[i as int].1@));
            }
            if !slices[i].1.as_str().is_empty() {
                proof {
                    lemma_room_bump(before, seq![slices@[i as int].0@, slices@[i as int].1@], outcome, (slices@.len() - i) as int);
                }
                self.increment(outcome, slices[i].0.as_str(), slices[i].1.as_str());
            } else {
                proof {
                    assert(slices@[i as int].1@.len() == 0);
                }
            }
            i = i + 1;
        }
        proof {
            assert(pairs(slices@).take(slices@.len() as int) == pairs(slices@));
        }
    }

    /// Creates the slice `[axis, value]` with an empty population unless it exists.
    fn touch(&mut self, axis: &str, value: &str)
        requires
            old(self).wf(),
        ensures
            final(self).wf(),
            final(self)@ == old(self)@.insert(seq![axis@, value@], slice_of(old(self)@, seq![axis@, value@])),
    {
        let ghost m = self@;
        let ghost k = seq![axis@, value@];
        let mut key: Vec<String> = Vec::new();
        key.push(axis.to_owned());
        key.push(value.to_owned());
        proof {
            assert(words(key@) =~= k);
        }
        match self.find(&key) {
            Some(i) => {
                proof {
                    self.lemma_index(i as int);
                    assert(m.insert(k, slice_of(m, k)) =~= m);
                }
            },
            None => {
                let c = Counts { tp: 0, fp: 0, fn_: 0 };
                self.slice_keys.push(key);
                self.slice_counts.push(c);
                proof {
                    let old_ks = keys(old(self).slice_keys@);
                    let ks = keys(self.slice_keys@);
                    assert(ks =~= old_ks.push(k));
                    assert(self.slice_keys@[old_ks.len() as int]@.len() == 2);
                    assert(ks.no_duplicates()) by {
                        assert forall|a: int, b: int| 0 <= a < ks.len() && 0 <= b < ks.len() && a != b implies ks[a] != ks[b] by {
                            if a == old_ks.len() {
                                assert(old_ks[b] == ks[b]);
                            } else if b == old_ks.len() {
                                assert(old_ks[a] == ks[a]);
                            }
                        }
                    }
                    assert forall|q: Seq<Seq<char>>| m.insert(k, c).contains_key(q) implies #[trigger] self@.contains_key(q) by {
                        if q == k {
                            assert(ks[old_ks.len() as int] == k);
                        } else {
                            let j0 = old_ks.index_of(q);
                            assert(ks[j0] == q);
                        }
                    }
                    assert forall|q: Seq<Seq<char>>| #[trigger] self@.contains_key(q) implies m.insert(k, c).contains_key(q) && self@[q] == m.insert(k, c)[q] by {
                        let j = ks.index_of(q);
                        assert(0 <= j < ks.len() && ks[j] == q);
                        if q != k {
                            assert(j < old_ks.len());
                            assert(old_ks[j] == q);
                            assert(old_ks.contains(q));
                            let j0 = old_ks.index_of(q);
                            assert(old_ks[j0] == q);
                            assert(j0 == j);
                        } else {
                            assert(j == old_ks.len());
                        }
                    }
                    assert(self@ =~= m.insert(k, c));
                }
            },
        }
    }

    /// Adds one outcome, named `"tp"`, `"fp"` or `"fn"`, to the total and to
    /// every non-empty named slice. Any other name is an error; the total
    /// slice then exists, with whatever it held before.
    pub fn add(&mut self, outcome: &str, slices: &[(&str, &str)]) -> (r: Result<(), CorpusError>)
        requires
            old(self).wf(),
            has_room(old(self)@, (slices@.len() + 1) as int),
        ensures
            final(self).wf(),
            match outcome_named(outcome@) {
                Some(o) => r is Ok && final(self)@ == tally_add(
                    old(self)@,
                    o,
                    slices@.map_values(|p: (&str, &str)| (p.0@, p.1@)),
                ),
                None => (r matches Err(CorpusError::Invariant(message))
                    && message@ == "unknown tally outcome "@ + str_debug(outcome@))
                    && final(self)@ == old(self)@.insert(total_key(), slice_of(old(self)@, total_key())),
            },
    {
        let named = outcome_from(outcome);
        match named {
            Some(o) => {
                let mut owned: Vec<(String, String)> = Vec::new();
                let mut i: usize = 0;
                while i < slices.len()
                    invariant
                        0 <= i <= slices@.len(),
                        pairs(owned@) == slices@.map_values(|p: (&str, &str)| (p.0@, p.1@)).take(i as int),
                        owned@.len() == i,
                    decreases slices@.len() - i,
                {
                    let (axis, value) = slices[i];
                    owned.push((axis.to_owned(), value.to_owned()));
                    proof {
                        assert(pairs(owned@) =~= slices@.map_values(|p: (&str, &str)| (p.0@, p.1@)).take(i + 1));
                    }
                    i = i + 1;
                }
                proof {
                    assert(slices@.map_values(|p: (&str, &str)| (p.0@, p.1@)).take(slices@.len() as int)
                        == slices@.map_values(|p: (&str, &str)| (p.0@, p.1@)));
                }
                self.record(o, &owned);
                Ok(())
            },
            None => {
                self.touch("total", "total");
                proof {
                    assert(seq!["total"@, "total"@] == total_key());
                }
                let mut message = "unknown tally outcome ".to_owned();
                let quoted = debug_str(outcome);
                crate::text::push_text(&mut message, quoted.as_str());
                Err(CorpusError::Invariant(message))
            },
        }
    }

    /// How many more events every population can still count: the room left
    /// by the largest count the tally holds.
    pub fn headroom(&self) -> (r: u64)
        requires
            self.wf(),
        ensures
            has_room(self@, r as int),
            self@.len() == 0 ==> r == u64::MAX,
            self@.len() > 0 ==> exists|k: Seq<Seq<char>>| #[trigger] self@.contains_key(k) && {
                ||| self@[k].tp + r == u64::MAX
                ||| self@[k].fp + r == u64::MAX
                ||| self@[k].fn_ + r == u64::MAX
            },
    {
        let mut most: u64 = 0;
        let mut at: usize = 0;
        let mut i: usize = 0;
        while i < self.slice_counts.len()
            invariant
                self.wf(),
                0 <= i <= self.slice_counts@.len(),
                forall|j: int| 0 <= j < i ==> {
                    &&& (#[trigger] self.slice_counts@[j]).tp <= most
                    &&& self.slice_counts@[j].fp <= most
                    &&& self.slice_counts@[j].fn_ <= most
                },
                i > 0 ==> at < i && {
                    ||| self.slice_counts@[at as int].tp == most
                    ||| self.slice_counts@[at as int].fp == most
                    ||| self.slice_counts@[at as int].fn_ == most
                },
                i == 0 ==> most == 0,
            decreases self.slice_counts@.len() - i,
        {
            let c = self.slice_counts[i];
            if i == 0 || c.tp > most {
                most = c.tp;
                at = i;
            }
            if c.fp > most {
                most = c.fp;
                at = i;
            }
            if c.fn_ > most {
                most = c.fn_;
                at = i;
            }
            i = i + 1;
        }
        let r = u64::MAX - most;
        proof {
            let ks = keys(self.slice_keys@);
            assert forall|k: Seq<Seq<char>>| #[trigger] self@.contains_key(k) implies {
                &&& self@[k].tp + r <= u64::MAX
                &&& self@[k].fp + r <= u64::MAX
                &&& self@[k].fn_ + r <= u64::MAX
            } by {
                let j = ks.index_of(k);
                assert(ks[j] == k);
                assert(self@[k] == self.slice_counts@[j]);
            }
            if self@.len() > 0 {
                assert(self@.dom() =~= ks.to_set());
                ks.unique_seq_to_set();
                assert(self.slice_counts@.len() > 0);
                self.lemma_index(at as int);
                let k = ks[at as int];
                assert(self@.contains_key(k));
            } else {
                assert(self@.dom() =~= ks.to_set());
                ks.unique_seq_to_set();
            }
        }
        r
    }

    /// Every slice as `(axis, value, population)`.
    pub fn entries(&self) -> (r: Vec<(String, String, Counts)>)
        requires
            self.wf(),
        ensures
            r@.len() == self@.len(),
            forall|i: int| #![trigger r@[i]] 0 <= i < r@.len() ==> {
                &&& self@.contains_key(seq![r@[i].0@, r@[i].1@])
                &&& self@[seq![r@[i].0@, r@[i].1@]] == r@[i].2
            },
            forall|k: Seq<Seq<char>>| #[trigger] self@.contains_key(k) ==> exists|i: int|
                0 <= i < r@.len() && k == seq![r@[i].0@, r@[i].1@],
    {
        let mut out: Vec<(String, String, Counts)> = Vec::new();
        let mut i: usize = 0;
        while i < self.slice_keys.len()
            invariant
                self.wf(),
                0 <= i <= self.slice_keys@.len(),
                out@.len() == i,
                forall|j: int| #![trigger out@[j]] 0 <= j < i ==> {
                    &&& keys(self.slice_keys@)[j] == seq![out@[j].0@, out@[j].1@]
                    &&& self.slice_counts@[j] == out@[j].2
                },
            decreases self.slice_keys@.len() - i,
        {
            let key = &self.slice_keys[i];
            proof {
                assert(key@.len() == 2);
            }
            out.push((key[0].clone(), key[1].clone(), self.slice_counts[i]));
            proof {
                assert(words(key@) =~= seq![out@[i as int].0@, out@[i as int].1@]);
            }
            i = i + 1;
        }
        proof {
            let ks = keys(self.slice_keys@);
            assert(self@.dom() =~= ks.to_set());
            ks.unique_seq_to_set();
            assert forall|i: int| #![trigger out@[i]] 0 <= i < out@.len() implies {
                &&& self@.contains_key(seq![out@[i].0@, out@[i].1@])
                &&& self@[seq![out@[i].0@, out@[i].1@]] == out@[i].2
            } by {
                self.lemma_index(i);
            }
            assert forall|k: Seq<Seq<char>>| #[trigger] self@.contains_key(k) implies exists|i: int|
                0 <= i < out@.len() && k == seq![out@[i].0@, out@[i].1@] by {
                let j = ks.index_of(k);
                assert(ks[j] == k);
                assert(k == seq![out@[j].0@, out@[j].1@]);
            }
        }
        out
    }
}

impl Default for Tally {
    /// An empty tally.
    fn default() -> (r: Tally)
        ensures
            r.wf(),
            r@ == Map::<Seq<Seq<char>>, Counts>::empty(),
    {
        Tally::new()
    }
}

/// The views of owned `(axis, value)` pairs.
pub open spec fn pairs(v: Seq<(String, String)>) -> Seq<(Seq<char>, Seq<char>)> {
    v.map_values(|p: (String, String)| (p.0@, p.1@))
}

/// The outcome a name denotes.
pub open spec fn outcome_named(name: Seq<char>) -> Option<Outcome> {
    if name == "tp"@ {
        Some(Outcome::Tp)
    } else if name == "fp"@ {
        Some(Outcome::Fp)
    } else if name == "fn"@ {
        Some(Outcome::Fn)
    } else {
        None
    }
}

fn same_text(a: &str, b: &str) -> (r: bool)
    ensures
        r == (a@ == b@),
{
    a.to_owned() == b.to_owned()
}

fn outcome_from(name: &str) -> (r: Option<Outcome>)
    ensures
        r == outcome_named(name@),
{
    if same_text(name, "tp") {
        Some(Outcome::Tp)
    } else if same_text(name, "fp") {
        Some(Outcome::Fp)
    } else if same_text(name, "fn") {
        Some(Outcome::Fn)
    } else {
        None
    }
}

/// One more outcome in one slice uses at most one unit of every population's room.
pub proof fn lemma_room_bump(m: Map<Seq<Seq<char>>, Counts>, k: Seq<Seq<char>>, o: Outcome, n: int)
    requires
        has_room(m, n),
        n >= 1,
    ensures
        has_room(bump_slice(m, k, o), n - 1),
{
    let b = bump_slice(m, k, o);
    assert forall|q: Seq<Seq<char>>| #![trigger b[q]] b.contains_key(q) implies {
        &&& b[q].tp + (n - 1) <= u64::MAX
        &&& b[q].fp + (n - 1) <= u64::MAX
        &&& b[q].fn_ + (n - 1) <= u64::MAX
    } by {
        if q == k && m.contains_key(k) {
            assert(m[k].tp + n <= u64::MAX);
        }
    }
}

} // verus!
