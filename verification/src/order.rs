//! Lexicographic order on text and on tuples of text, as `Ord` for `str`,
//! `String` tuples and `Vec<String>` orders them, and ordered sets built on it.
use vstd::prelude::*;
use crate::text::chars_of;

verus! {

/// `a < b` for strings: code point by code point, a proper prefix first.
pub open spec fn chars_lt(a: Seq<char>, b: Seq<char>) -> bool
    decreases a.len(),
{
    if a.len() == 0 {
        b.len() > 0
    } else if b.len() == 0 {
        false
    } else if a[0] < b[0] {
        true
    } else if a[0] == b[0] {
        chars_lt(a.drop_first(), b.drop_first())
    } else {
        false
    }
}

/// `a < b` for tuples (or lists) of strings: component by component.
pub open spec fn words_lt(a: Seq<Seq<char>>, b: Seq<Seq<char>>) -> bool
    decreases a.len(),
{
    if a.len() == 0 {
        b.len() > 0
    } else if b.len() == 0 {
        false
    } else if chars_lt(a[0], b[0]) {
        true
    } else if a[0] == b[0] {
        words_lt(a.drop_first(), b.drop_first())
    } else {
        false
    }
}

pub proof fn lemma_chars_lt_irreflexive(a: Seq<char>)
    ensures
        !chars_lt(a, a),
    decreases a.len(),
{
    if a.len() > 0 {
        lemma_chars_lt_irreflexive(a.drop_first());
    }
}

pub proof fn lemma_chars_lt_transitive(a: Seq<char>, b: Seq<char>, c: Seq<char>)
    requires
        chars_lt(a, b),
        chars_lt(b, c),
    ensures
        chars_lt(a, c),
    decreases a.len(),
{
    if a.len() > 0 && b.len() > 0 && c.len() > 0 && a[0] == b[0] && b[0] == c[0] {
        lemma_chars_lt_transitive(a.drop_first(), b.drop_first(), c.drop_first());
    }
}

pub proof fn lemma_chars_lt_total(a: Seq<char>, b: Seq<char>)
    ensures
        chars_lt(a, b) || chars_lt(b, a) || a == b,
    decreases a.len(),
{
    if a.len() > 0 && b.len() > 0 {
        if a[0] == b[0] {
            lemma_chars_lt_total(a.drop_first(), b.drop_first());
            if a.drop_first() == b.drop_first() {
                assert(a == seq![a[0]] + a.drop_first());
                assert(b == seq![b[0]] + b.drop_first());
            }
        } else {
        }
    } else if a.len() == 0 && b.len() == 0 {
        assert(a == b);
    }
}

pub proof fn lemma_words_lt_irreflexive(a: Seq<Seq<char>>)
    ensures
        !words_lt(a, a),
    decreases a.len(),
{
    if a.len() > 0 {
        lemma_chars_lt_irreflexive(a[0]);
        lemma_words_lt_irreflexive(a.drop_first());
    }
}

pub proof fn lemma_words_lt_transitive(a: Seq<Seq<char>>, b: Seq<Seq<char>>, c: Seq<Seq<char>>)
    requires
        words_lt(a, b),
        words_lt(b, c),
    ensures
        words_lt(a, c),
    decreases a.len(),
{
    if a.len() > 0 && b.len() > 0 && c.len() > 0 {
        if chars_lt(a[0], b[0]) && chars_lt(b[0], c[0]) {
            lemma_chars_lt_transitive(a[0], b[0], c[0]);
        } else if a[0] == b[0] && b[0] == c[0] {
            lemma_words_lt_transitive(a.drop_first(), b.drop_first(), c.drop_first());
        }
    }
}

pub proof fn lemma_words_lt_total(a: Seq<Seq<char>>, b: Seq<Seq<char>>)
    ensures
        words_lt(a, b) || words_lt(b, a) || a == b,
    decreases a.len(),
{
    if a.len() > 0 && b.len() > 0 {
        lemma_chars_lt_total(a[0], b[0]);
        if a[0] == b[0] {
            lemma_words_lt_total(a.drop_first(), b.drop_first());
            if a.drop_first() == b.drop_first() {
                assert(a == seq![a[0]] + a.drop_first());
                assert(b == seq![b[0]] + b.drop_first());
            }
        }
    } else if a.len() == 0 && b.len() == 0 {
        assert(a == b);
    }
}

proof fn lemma_chars_lt_skip(a: Seq<char>, b: Seq<char>, i: int)
    requires
        0 <= i <= a.len(),
        i <= b.len(),
        a.take(i) == b.take(i),
    ensures
        chars_lt(a, b) == chars_lt(a.skip(i), b.skip(i)),
    decreases i,
{
    if i > 0 {
        assert(a[0] == a.take(i)[0]);
        assert(b[0] == b.take(i)[0]);
        assert(a.drop_first().take(i - 1) == a.take(i).drop_first());
        assert(b.drop_first().take(i - 1) == b.take(i).drop_first());
        lemma_chars_lt_skip(a.drop_first(), b.drop_first(), i - 1);
        assert(a.drop_first().skip(i - 1) == a.skip(i));
        assert(b.drop_first().skip(i - 1) == b.skip(i));
    } else {
        assert(a.skip(0) == a);
        assert(b.skip(0) == b);
    }
}

/// `a < b` for strings.
pub fn string_lt(a: &str, b: &str) -> (r: bool)
    ensures
        r == chars_lt(a@, b@),
{
    let x = chars_of(a);
    let y = chars_of(b);
    let mut i: usize = 0;
    while i < x.len() && i < y.len() && x[i] == y[i]
        invariant
            x@ == a@,
            y@ == b@,
            0 <= i <= x@.len(),
            i <= y@.len(),
            a@.take(i as int) == b@.take(i as int),
        decreases x@.len() - i,
    {
        proof {
            assert(a@.take(i + 1) == a@.take(i as int).push(a@[i as int]));
            assert(b@.take(i + 1) == b@.take(i as int).push(b@[i as int]));
        }
        i = i + 1;
    }
    proof {
        lemma_chars_lt_skip(a@, b@, i as int);
    }
    if i == x.len() {
        i < y.len()
    } else if i == y.len() {
        false
    } else {
        x[i] < y[i]
    }
}

/// The view of a tuple of strings held as a list.
pub open spec fn words(v: Seq<String>) -> Seq<Seq<char>> {
    Seq::new(v.len(), |i: int| v[i]@)
}

proof fn lemma_words_lt_skip(a: Seq<Seq<char>>, b: Seq<Seq<char>>, i: int)
    requires
        0 <= i <= a.len(),
        i <= b.len(),
        a.take(i) == b.take(i),
    ensures
        words_lt(a, b) == words_lt(a.skip(i), b.skip(i)),
    decreases i,
{
    if i > 0 {
        assert(a[0] == a.take(i)[0]);
        assert(b[0] == b.take(i)[0]);
        lemma_chars_lt_irreflexive(a[0]);
        assert(a.drop_first().take(i - 1) == a.take(i).drop_first());
        assert(b.drop_first().take(i - 1) == b.take(i).drop_first());
        lemma_words_lt_skip(a.drop_first(), b.drop_first(), i - 1);
        assert(a.drop_first().skip(i - 1) == a.skip(i));
        assert(b.drop_first().skip(i - 1) == b.skip(i));
    } else {
        assert(a.skip(0) == a);
        assert(b.skip(0) == b);
    }
}

/// `a < b` for tuples of strings.
pub fn words_less(a: &Vec<String>, b: &Vec<String>) -> (r: bool)
    ensures
        r == words_lt(words(a@), words(b@)),
{
    let ghost wa = words(a@);
    let ghost wb = words(b@);
    let mut i: usize = 0;
    while i < a.len() && i < b.len() && a[i] == b[i]
        invariant
            wa == words(a@),
            wb == words(b@),
            0 <= i <= a@.len(),
            i <= b@.len(),
            wa.take(i as int) == wb.take(i as int),
        decreases a@.len() - i,
    {
        proof {
            assert(wa.take(i + 1) == wa.take(i as int).push(wa[i as int]));
            assert(wb.take(i + 1) == wb.take(i as int).push(wb[i as int]));
        }
        i = i + 1;
    }
    proof {
        lemma_words_lt_skip(wa, wb, i as int);
    }
    if i == a.len() {
        i < b.len()
    } else if i == b.len() {
        false
    } else {
        string_lt(a[i].as_str(), b[i].as_str())
    }
}


/// The views of a list of string tuples.
pub open spec fn keys(v: Seq<Vec<String>>) -> Seq<Seq<Seq<char>>> {
    Seq::new(v.len(), |i: int| words(v[i]@))
}

/// Inserts `x` into an ordered set held as an ascending sequence; a member
/// already present leaves the sequence as it is.
pub open spec fn ins(s: Seq<Seq<Seq<char>>>, x: Seq<Seq<char>>) -> Seq<Seq<Seq<char>>>
    decreases s.len(),
{
    if s.len() == 0 {
        seq![x]
    } else if s[0] == x {
        s
    } else if words_lt(x, s[0]) {
        seq![x] + s
    } else {
        seq![s[0]] + ins(s.drop_first(), x)
    }
}

/// The members of `list` in ascending order, each once (a `BTreeSet` walked in order).
pub open spec fn sorted_set(list: Seq<Seq<Seq<char>>>) -> Seq<Seq<Seq<char>>>
    decreases list.len(),
{
    if list.len() == 0 {
        seq![]
    } else {
        ins(sorted_set(list.drop_last()), list.last())
    }
}

/// Strictly ascending, hence free of repeats.
pub open spec fn ascending(s: Seq<Seq<Seq<char>>>) -> bool {
    forall|i: int, j: int| 0 <= i < j < s.len() ==> words_lt(#[trigger] s[i], #[trigger] s[j])
}

proof fn lemma_ins_at(s: Seq<Seq<Seq<char>>>, x: Seq<Seq<char>>, p: int)
    requires
        0 <= p <= s.len(),
        forall|j: int| 0 <= j < p ==> words_lt(#[trigger] s[j], x),
        p < s.len() ==> !words_lt(s[p], x),
    ensures
        ins(s, x) == if p < s.len() && s[p] == x {
            s
        } else {
            s.insert(p, x)
        },
    decreases p,
{
    if p == 0 {
        if s.len() > 0 && s[0] != x {
            lemma_words_lt_total(x, s[0]);
            assert(seq![x] + s == s.insert(0, x));
        }
        if s.len() == 0 {
            assert(s.insert(0, x) == seq![x]);
        }
    } else {
        let t = s.drop_first();
        lemma_words_lt_irreflexive(x);
        assert(words_lt(s[0], x));
        assert(s[0] != x);
        if words_lt(x, s[0]) {
            lemma_words_lt_transitive(x, s[0], x);
        }
        assert forall|j: int| 0 <= j < p - 1 implies words_lt(#[trigger] t[j], x) by {
            assert(t[j] == s[j + 1]);
        }
        lemma_ins_at(t, x, p - 1);
        if p < s.len() && s[p] == x {
            assert(seq![s[0]] + t == s);
        } else {
            assert(seq![s[0]] + t.insert(p - 1, x) == s.insert(p, x));
        }
    }
}

/// The members of `ins(s, x)` are those of `s` and `x`.
pub proof fn lemma_ins_members(s: Seq<Seq<Seq<char>>>, x: Seq<Seq<char>>)
    ensures
        ins(s, x).to_set() == s.to_set().insert(x),
    decreases s.len(),
{
    if s.len() == 0 {
        assert(seq![x].to_set() =~= Set::<Seq<Seq<char>>>::empty().insert(x)) by {
            assert(seq![x][0] == x);
        }
        assert(s.to_set() =~= Set::<Seq<Seq<char>>>::empty());
    } else if s[0] == x {
        assert(s.to_set().insert(x) =~= s.to_set()) by {
            assert(s.contains(x));
        }
    } else if words_lt(x, s[0]) {
        let r = seq![x] + s;
        assert(r.to_set() =~= s.to_set().insert(x)) by {
            assert forall|y| r.contains(y) implies s.to_set().insert(x).contains(y) by {
                let k = choose|k: int| 0 <= k < r.len() && r[k] == y;
                if k > 0 {
                    assert(s[k - 1] == y);
                }
            }
            assert forall|y| s.to_set().insert(x).contains(y) implies r.contains(y) by {
                if y == x {
                    assert(r[0] == x);
                } else {
                    let k = choose|k: int| 0 <= k < s.len() && s[k] == y;
                    assert(r[k + 1] == y);
                }
            }
        }
    } else {
        let t = s.drop_first();
        lemma_ins_members(t, x);
        let r = seq![s[0]] + ins(t, x);
        assert(r.to_set() =~= s.to_set().insert(x)) by {
            assert forall|y| r.contains(y) implies s.to_set().insert(x).contains(y) by {
                let k = choose|k: int| 0 <= k < r.len() && r[k] == y;
                if k == 0 {
                    assert(s[0] == y);
                } else {
                    assert(ins(t, x)[k - 1] == y);
                    assert(ins(t, x).to_set().contains(y));
                    if y != x {
                        assert(t.to_set().contains(y));
                        let m = choose|m: int| 0 <= m < t.len() && t[m] == y;
                        assert(s[m + 1] == y);
                    }
                }
            }
            assert forall|y| s.to_set().insert(x).contains(y) implies r.contains(y) by {
                if y == s[0] {
                    assert(r[0] == y);
                } else {
                    if y != x {
                        let k = choose|k: int| 0 <= k < s.len() && s[k] == y;
                        assert(t[k - 1] == y);
                        assert(t.to_set().contains(y));
                    }
                    assert(ins(t, x).to_set().contains(y));
                    let m = choose|m: int| 0 <= m < ins(t, x).len() && ins(t, x)[m] == y;
                    assert(r[m + 1] == y);
                }
            }
        }
    }
}

/// `ins` keeps a sequence ascending.
pub proof fn lemma_ins_ascending(s: Seq<Seq<Seq<char>>>, x: Seq<Seq<char>>)
    requires
        ascending(s),
    ensures
        ascending(ins(s, x)),
    decreases s.len(),
{
    if s.len() == 0 {
    } else if s[0] == x {
    } else if words_lt(x, s[0]) {
        let r = seq![x] + s;
        assert forall|i: int, j: int| 0 <= i < j < r.len() implies words_lt(#[trigger] r[i], #[trigger] r[j]) by {
            if i == 0 {
                if j > 1 {
                    assert(words_lt(s[0], s[j - 1]));
                    lemma_words_lt_transitive(x, s[0], s[j - 1]);
                }
            } else {
                assert(r[i] == s[i - 1] && r[j] == s[j - 1]);
            }
        }
    } else {
        let t = s.drop_first();
        assert(ascending(t)) by {
            assert forall|i: int, j: int| 0 <= i < j < t.len() implies words_lt(#[trigger] t[i], #[trigger] t[j]) by {
                assert(t[i] == s[i + 1] && t[j] == s[j + 1]);
            }
        }
        lemma_ins_ascending(t, x);
        lemma_ins_members(t, x);
        lemma_words_lt_total(x, s[0]);
        let r = seq![s[0]] + ins(t, x);
        assert forall|i: int, j: int| 0 <= i < j < r.len() implies words_lt(#[trigger] r[i], #[trigger] r[j]) by {
            if i == 0 {
                let y = ins(t, x)[j - 1];
                assert(ins(t, x).to_set().contains(y));
                if y == x {
                } else {
                    assert(t.to_set().contains(y));
                    let m = choose|m: int| 0 <= m < t.len() && t[m] == y;
                    assert(s[m + 1] == y);
                }
            } else {
                assert(r[i] == ins(t, x)[i - 1] && r[j] == ins(t, x)[j - 1]);
            }
        }
    }
}

/// A sorted set built from `list` is ascending and holds exactly the members of `list`.
pub proof fn lemma_sorted_set(list: Seq<Seq<Seq<char>>>)
    ensures
        ascending(sorted_set(list)),
        sorted_set(list).to_set() == list.to_set(),
    decreases list.len(),
{
    if list.len() == 0 {
        assert(list.to_set() =~= Set::<Seq<Seq<char>>>::empty());
        assert(Seq::<Seq<Seq<char>>>::empty().to_set() =~= Set::<Seq<Seq<char>>>::empty());
    } else {
        let init = list.drop_last();
        lemma_sorted_set(init);
        lemma_ins_ascending(sorted_set(init), list.last());
        lemma_ins_members(sorted_set(init), list.last());
        assert(list.to_set() =~= init.to_set().insert(list.last())) by {
            assert(list == init.push(list.last()));
            init.lemma_push_to_set_commute(list.last());
        }
    }
}

/// An element-for-element copy of a string tuple.
pub fn copy_words(v: &Vec<String>) -> (r: Vec<String>)
    ensures
        r@ == v@,
        words(r@) == words(v@),
{
    let mut out: Vec<String> = Vec::new();
    let mut i: usize = 0;
    while i < v.len()
        invariant
            0 <= i <= v@.len(),
            out@ == v@.take(i as int),
        decreases v@.len() - i,
    {
        out.push(v[i].clone());
        proof {
            assert(v@.take(i + 1) == v@.take(i as int).push(v@[i as int]));
        }
        i = i + 1;
    }
    proof {
        assert(v@.take(v@.len() as int) == v@);
    }
    out
}

/// Inserts `key` into an ordered set of string tuples.
pub fn insert_key(set: &mut Vec<Vec<String>>, key: Vec<String>)
    ensures
        keys(final(set)@) == ins(keys(old(set)@), words(key@)),
{
    let ghost s = keys(set@);
    let ghost x = words(key@);
    let mut i: usize = 0;
    while i < set.len() && words_less(&set[i], &key)
        invariant
            s == keys(set@),
            x == words(key@),
            0 <= i <= set@.len(),
            forall|j: int| 0 <= j < i ==> words_lt(#[trigger] s[j], x),
        decreases set@.len() - i,
    {
        i = i + 1;
    }
    proof {
        lemma_ins_at(s, x, i as int);
    }
    if i < set.len() && words_equal(&set[i], &key) {
        return;
    }
    set.insert(i, key);
    proof {
        assert(keys(set@) =~= s.insert(i as int, x));
    }
}

/// Whether two string tuples are equal.
pub fn words_equal(a: &Vec<String>, b: &Vec<String>) -> (r: bool)
    ensures
        r == (words(a@) == words(b@)),
{
    if a.len() != b.len() {
        proof {
            assert(words(a@).len() != words(b@).len());
        }
        return false;
    }
    let mut i: usize = 0;
    while i < a.len()
        invariant
            a@.len() == b@.len(),
            0 <= i <= a@.len(),
            forall|j: int| 0 <= j < i ==> a@[j]@ == b@[j]@,
        decreases a@.len() - i,
    {
        if a[i] != b[i] {
            proof {
                assert(words(a@)[i as int] != words(b@)[i as int]);
            }
            return false;
        }
        i = i + 1;
    }
    proof {
        assert(words(a@) =~= words(b@));
    }
    true
}

/// Whether an ordered set (or any list) of string tuples holds `key`.
pub fn contains_key(set: &Vec<Vec<String>>, key: &Vec<String>) -> (r: bool)
    ensures
        r == keys(set@).contains(words(key@)),
{
    let mut i: usize = 0;
    while i < set.len()
        invariant
            0 <= i <= set@.len(),
            forall|j: int| 0 <= j < i ==> keys(set@)[j] != words(key@),
        decreases set@.len() - i,
    {
        if words_equal(&set[i], key) {
            proof {
                assert(keys(set@)[i as int] == words(key@));
            }
            return true;
        }
        i = i + 1;
    }
    false
}

/// The ordered set of the tuples in `list`.
pub fn to_sorted_set(list: &Vec<Vec<String>>) -> (r: Vec<Vec<String>>)
    ensures
        keys(r@) == sorted_set(keys(list@)),
{
    let mut out: Vec<Vec<String>> = Vec::new();
    let mut i: usize = 0;
    while i < list.len()
        invariant
            0 <= i <= list@.len(),
            keys(out@) == sorted_set(keys(list@).take(i as int)),
        decreases list@.len() - i,
    {
        proof {
            let t = keys(list@).take(i + 1);
            assert(t.drop_last() == keys(list@).take(i as int));
            assert(t.last() == words(list@[i as int]@));
        }
        insert_key(&mut out, copy_words(&list[i]));
        i = i + 1;
    }
    proof {
        assert(keys(list@).take(list@.len() as int) == keys(list@));
    }
    out
}

/// The test for not being a member of `s`.
pub open spec fn absent_in(s: Seq<Seq<Seq<char>>>) -> spec_fn(Seq<Seq<char>>) -> bool {
    |w: Seq<Seq<char>>| !s.contains(w)
}

/// The test for being a member of `s`.
pub open spec fn present_in(s: Seq<Seq<Seq<char>>>) -> spec_fn(Seq<Seq<char>>) -> bool {
    |w: Seq<Seq<char>>| s.contains(w)
}

/// Every member of a sorted set built from tuples of `n` fields has `n` fields.
pub proof fn lemma_sorted_set_arity(list: Seq<Seq<Seq<char>>>, n: nat)
    requires
        forall|k: int| 0 <= k < list.len() ==> (#[trigger] list[k]).len() == n,
    ensures
        forall|k: int| 0 <= k < sorted_set(list).len() ==> (#[trigger] sorted_set(list)[k]).len() == n,
{
    lemma_sorted_set(list);
    assert forall|k: int| 0 <= k < sorted_set(list).len() implies (#[trigger] sorted_set(list)[k]).len() == n by {
        let w = sorted_set(list)[k];
        assert(sorted_set(list).to_set().contains(w));
        assert(list.to_set().contains(w));
        let m = choose|m: int| 0 <= m < list.len() && list[m] == w;
    }
}

/// The members of `a` that `b` lacks, in `a`'s order.
pub fn minus(a: &Vec<Vec<String>>, b: &Vec<Vec<String>>) -> (r: Vec<Vec<String>>)
    ensures
        keys(r@) == keys(a@).filter(absent_in(keys(b@))),
{
    let ghost f = absent_in(keys(b@));
    let mut out: Vec<Vec<String>> = Vec::new();
    let mut i: usize = 0;
    while i < a.len()
        invariant
            0 <= i <= a@.len(),
            f == absent_in(keys(b@)),
            keys(out@) == keys(a@).take(i as int).filter(f),
        decreases a@.len() - i,
    {
        proof {
            let t = keys(a@).take(i + 1);
            assert(t.drop_last() == keys(a@).take(i as int));
            reveal_with_fuel(Seq::filter, 1);
        }
        if !contains_key(b, &a[i]) {
            let ghost before = out@;
            out.push(copy_words(&a[i]));
            proof {
                assert(keys(out@) =~= keys(before).push(words(a@[i as int]@)));
            }
        }
        i = i + 1;
    }
    proof {
        assert(keys(a@).take(a@.len() as int) == keys(a@));
    }
    out
}

/// The members of `a` that `b` holds too, in `a`'s order.
pub fn meet(a: &Vec<Vec<String>>, b: &Vec<Vec<String>>) -> (r: Vec<Vec<String>>)
    ensures
        keys(r@) == keys(a@).filter(present_in(keys(b@))),
{
    let ghost f = present_in(keys(b@));
    let mut out: Vec<Vec<String>> = Vec::new();
    let mut i: usize = 0;
    while i < a.len()
        invariant
            0 <= i <= a@.len(),
            f == present_in(keys(b@)),
            keys(out@) == keys(a@).take(i as int).filter(f),
        decreases a@.len() - i,
    {
        proof {
            let t = keys(a@).take(i + 1);
            assert(t.drop_last() == keys(a@).take(i as int));
            reveal_with_fuel(Seq::filter, 1);
        }
        if contains_key(b, &a[i]) {
            let ghost before = out@;
            out.push(copy_words(&a[i]));
            proof {
                assert(keys(out@) =~= keys(before).push(words(a@[i as int]@)));
            }
        }
        i = i + 1;
    }
    proof {
        assert(keys(a@).take(a@.len() as int) == keys(a@));
    }
    out
}


/// Inserts `x` into an ascending sequence before the first member not less than it, keeping repeats.
pub open spec fn ins_sorted(s: Seq<Seq<Seq<char>>>, x: Seq<Seq<char>>) -> Seq<Seq<Seq<char>>>
    decreases s.len(),
{
    if s.len() == 0 {
        seq![x]
    } else if words_lt(s[0], x) {
        seq![s[0]] + ins_sorted(s.drop_first(), x)
    } else {
        seq![x] + s
    }
}

/// The members of `list` in ascending order, repeats kept (a sorted `Vec`).
pub open spec fn sorted_list(list: Seq<Seq<Seq<char>>>) -> Seq<Seq<Seq<char>>>
    decreases list.len(),
{
    if list.len() == 0 {
        seq![]
    } else {
        ins_sorted(sorted_list(list.drop_last()), list.last())
    }
}

proof fn lemma_ins_sorted_at(s: Seq<Seq<Seq<char>>>, x: Seq<Seq<char>>, p: int)
    requires
        0 <= p <= s.len(),
        forall|j: int| 0 <= j < p ==> words_lt(#[trigger] s[j], x),
        p < s.len() ==> !words_lt(s[p], x),
    ensures
        ins_sorted(s, x) == s.insert(p, x),
    decreases p,
{
    if p == 0 {
        if s.len() == 0 {
            assert(s.insert(0, x) == seq![x]);
        } else {
            assert(seq![x] + s == s.insert(0, x));
        }
    } else {
        let t = s.drop_first();
        assert forall|j: int| 0 <= j < p - 1 implies words_lt(#[trigger] t[j], x) by {
            assert(t[j] == s[j + 1]);
        }
        lemma_ins_sorted_at(t, x, p - 1);
        assert(seq![s[0]] + t.insert(p - 1, x) == s.insert(p, x));
    }
}

/// Inserts `key` into an ascending list of string tuples, keeping repeats.
pub fn insert_sorted(list: &mut Vec<Vec<String>>, key: Vec<String>)
    ensures
        keys(final(list)@) == ins_sorted(keys(old(list)@), words(key@)),
{
    let ghost s = keys(list@);
    let ghost x = words(key@);
    let mut i: usize = 0;
    while i < list.len() && words_less(&list[i], &key)
        invariant
            s == keys(list@),
            x == words(key@),
            0 <= i <= list@.len(),
            forall|j: int| 0 <= j < i ==> words_lt(#[trigger] s[j], x),
        decreases list@.len() - i,
    {
        i = i + 1;
    }
    proof {
        lemma_ins_sorted_at(s, x, i as int);
    }
    list.insert(i, key);
    proof {
        assert(keys(list@) =~= s.insert(i as int, x));
    }
}

/// The tuples of `list` sorted, repeats kept.
pub fn sort_list(list: &Vec<Vec<String>>) -> (r: Vec<Vec<String>>)
    ensures
        keys(r@) == sorted_list(keys(list@)),
{
    let mut out: Vec<Vec<String>> = Vec::new();
    let mut i: usize = 0;
    while i < list.len()
        invariant
            0 <= i <= list@.len(),
            keys(out@) == sorted_list(keys(list@).take(i as int)),
        decreases list@.len() - i,
    {
        proof {
            let t = keys(list@).take(i + 1);
            assert(t.drop_last() == keys(list@).take(i as int));
            assert(t.last() == words(list@[i as int]@));
        }
        insert_sorted(&mut out, copy_words(&list[i]));
        i = i + 1;
    }
    proof {
        assert(keys(list@).take(list@.len() as int) == keys(list@));
    }
    out
}

/// Whether two lists of string tuples are equal, element for element.
pub fn lists_equal(a: &Vec<Vec<String>>, b: &Vec<Vec<String>>) -> (r: bool)
    ensures
        r == (keys(a@) == keys(b@)),
{
    if a.len() != b.len() {
        proof {
            assert(keys(a@).len() != keys(b@).len());
        }
        return false;
    }
    let mut i: usize = 0;
    while i < a.len()
        invariant
            a@.len() == b@.len(),
            0 <= i <= a@.len(),
            forall|j: int| 0 <= j < i ==> keys(a@)[j] == keys(b@)[j],
        decreases a@.len() - i,
    {
        if !words_equal(&a[i], &b[i]) {
            proof {
                assert(keys(a@)[i as int] != keys(b@)[i as int]);
            }
            return false;
        }
        i = i + 1;
    }
    proof {
        assert(keys(a@) =~= keys(b@));
    }
    true
}

} // verus!
