//! The two key-matching policies that restrict a walk: neighbor search,
//! bounded by a number of per-position mismatches against a reference key,
//! and crossword search, a fixed-length pattern with a wildcard character.

use vstd::prelude::*;
use crate::tree::{Tst, str_to_chars};
use crate::walk::{kv_views, lemma_prefix_entries_empty, values_of};

verus! {

/// The number of positions where the two keys differ; when one key is
/// longer, every extra position counts as a mismatch.
pub open spec fn hamming(a: Seq<char>, b: Seq<char>) -> nat
    decreases a.len() + b.len(),
{
    if a.len() == 0 {
        b.len()
    } else if b.len() == 0 {
        a.len()
    } else {
        (if a[0] == b[0] {
            0nat
        } else {
            1nat
        }) + hamming(a.skip(1), b.skip(1))
    }
}

/// A key matches a pattern under a wildcard when both have the same length
/// and every pattern character is the wildcard or the key's character.
pub open spec fn cw_match(k: Seq<char>, pat: Seq<char>, joker: char) -> bool {
    k.len() == pat.len() && forall|i: int| 0 <= i < k.len() ==> pat[i] == joker || pat[i] == k[i]
}

/// Counting mismatches position by position computes the distance.
proof fn lemma_hamming_step(a: Seq<char>, b: Seq<char>, i: int)
    requires
        0 <= i < a.len(),
        i < b.len(),
    ensures
        hamming(a.skip(i), b.skip(i)) == (if a[i] == b[i] {
            0nat
        } else {
            1nat
        }) + hamming(a.skip(i + 1), b.skip(i + 1)),
{
    assert(a.skip(i)[0] == a[i]);
    assert(b.skip(i)[0] == b[i]);
    assert(a.skip(i).skip(1) =~= a.skip(i + 1));
    assert(b.skip(i).skip(1) =~= b.skip(i + 1));
}

/// Decides whether the distance between `a` and `b` is at most `d`.
pub(crate) fn hamming_leq(a: &Vec<char>, b: &Vec<char>, d: usize) -> (r: bool)
    ensures
        r == (hamming(a@, b@) <= d),
{
    let (n, lendiff) = if a.len() <= b.len() {
        (a.len(), b.len() - a.len())
    } else {
        (b.len(), a.len() - b.len())
    };
    let mut cnt: usize = 0;
    let mut i: usize = 0;
    proof {
        assert(a@.skip(0) =~= a@);
        assert(b@.skip(0) =~= b@);
    }
    while i < n
        invariant
            i <= n,
            n <= a@.len(),
            n <= b@.len(),
            cnt <= i,
            hamming(a@, b@) == cnt + hamming(a@.skip(i as int), b@.skip(i as int)),
        decreases n - i,
    {
        proof {
            lemma_hamming_step(a@, b@, i as int);
        }
        if a[i] != b[i] {
            cnt = cnt + 1;
        }
        i = i + 1;
    }
    proof {
        if a@.len() <= b@.len() {
            assert(a@.skip(n as int) =~= Seq::<char>::empty());
            assert(hamming(a@.skip(n as int), b@.skip(n as int)) == b@.len() - n);
        } else {
            assert(b@.skip(n as int) =~= Seq::<char>::empty());
            if a@.skip(n as int).len() == 0 {
            } else {
                assert(hamming(a@.skip(n as int), b@.skip(n as int)) == a@.len() - n);
            }
        }
    }
    cnt + lendiff <= d
}

/// Decides whether `k` matches the pattern under the wildcard.
pub(crate) fn cw_matches(k: &Vec<char>, pat: &Vec<char>, joker: char) -> (r: bool)
    ensures
        r == cw_match(k@, pat@, joker),
{
    if k.len() != pat.len() {
        return false;
    }
    let mut i: usize = 0;
    while i < k.len()
        invariant
            i <= k@.len(),
            k@.len() == pat@.len(),
            forall|j: int| 0 <= j < i ==> pat@[j] == joker || pat@[j] == k@[j],
        decreases k@.len() - i,
    {
        if pat[i] != joker && pat[i] != k[i] {
            return false;
        }
        i = i + 1;
    }
    true
}

/// Keeps the entries whose key lies within distance `d` of `key`.
pub(crate) fn filter_neighbor<'a, T>(src: Vec<(Vec<char>, &'a T)>, key: &Vec<char>, d: usize) -> (out:
    Vec<(Vec<char>, &'a T)>)
    ensures
        kv_views(out@) == kv_views(src@).filter(
            |e: (Seq<char>, T)| hamming(e.0, key@) <= d as nat,
        ),
{
    let ghost pred = |e: (Seq<char>, T)| hamming(e.0, key@) <= d as nat;
    let mut out: Vec<(Vec<char>, &'a T)> = Vec::new();
    let mut i: usize = 0;
    proof {
        assert(kv_views(src@.take(0)) =~= Seq::<(Seq<char>, T)>::empty());
        reveal_with_fuel(Seq::filter, 2);
        assert(kv_views(out@) =~= kv_views(src@.take(0)).filter(pred));
    }
    while i < src.len()
        invariant
            i <= src@.len(),
            kv_views(out@) == kv_views(src@.take(i as int)).filter(pred),
            pred == (|e: (Seq<char>, T)| hamming(e.0, key@) <= d as nat),
        decreases src@.len() - i,
    {
        let e = &src[i];
        let keep = hamming_leq(&e.0, key, d);
        proof {
            reveal(Seq::filter);
            assert(kv_views(src@.take(i + 1)).drop_last() =~= kv_views(src@.take(i as int)));
            assert(kv_views(src@.take(i + 1)).last() == (src@[i as int].0@, *src@[i as int].1));
        }
        if keep {
            let kc = crate::walk::clone_chars(&e.0);
            let ghost before = out@;
            out.push((kc, e.1));
            proof {
                assert(kv_views(out@) =~= kv_views(before).push(
                    (src@[i as int].0@, *src@[i as int].1),
                ));
            }
        }
        i = i + 1;
    }
    proof {
        assert(src@.take(src@.len() as int) =~= src@);
    }
    out
}

/// Keeps the entries whose key matches the pattern under the wildcard.
pub(crate) fn filter_crossword<'a, T>(
    src: Vec<(Vec<char>, &'a T)>,
    pat: &Vec<char>,
    joker: char,
) -> (out: Vec<(Vec<char>, &'a T)>)
    ensures
        kv_views(out@) == kv_views(src@).filter(|e: (Seq<char>, T)| cw_match(e.0, pat@, joker)),
{
    let ghost pred = |e: (Seq<char>, T)| cw_match(e.0, pat@, joker);
    let mut out: Vec<(Vec<char>, &'a T)> = Vec::new();
    let mut i: usize = 0;
    proof {
        assert(kv_views(src@.take(0)) =~= Seq::<(Seq<char>, T)>::empty());
        reveal_with_fuel(Seq::filter, 2);
        assert(kv_views(out@) =~= kv_views(src@.take(0)).filter(pred));
    }
    while i < src.len()
        invariant
            i <= src@.len(),
            kv_views(out@) == kv_views(src@.take(i as int)).filter(pred),
            pred == (|e: (Seq<char>, T)| cw_match(e.0, pat@, joker)),
        decreases src@.len() - i,
    {
        let e = &src[i];
        let keep = cw_matches(&e.0, pat, joker);
        proof {
            reveal(Seq::filter);
            assert(kv_views(src@.take(i + 1)).drop_last() =~= kv_views(src@.take(i as int)));
            assert(kv_views(src@.take(i + 1)).last() == (src@[i as int].0@, *src@[i as int].1));
        }
        if keep {
            let kc = crate::walk::clone_chars(&e.0);
            let ghost before = out@;
            out.push((kc, e.1));
            proof {
                assert(kv_views(out@) =~= kv_views(before).push(
                    (src@[i as int].0@, *src@[i as int].1),
                ));
            }
        }
        i = i + 1;
    }
    proof {
        assert(src@.take(src@.len() as int) =~= src@);
    }
    out
}

impl<T> Tst<T> {
    /// The entries whose key lies within distance `d` of `key`, in
    /// ascending key order.
    pub open spec fn neighbor_entries(&self, key: Seq<char>, d: nat) -> Seq<(Seq<char>, T)> {
        self.entries_spec().filter(|e: (Seq<char>, T)| hamming(e.0, key) <= d)
    }

    /// The entries whose key matches the pattern under the wildcard, in
    /// ascending key order.
    pub open spec fn crossword_entries(&self, pat: Seq<char>, joker: char) -> Seq<
        (Seq<char>, T),
    > {
        self.entries_spec().filter(|e: (Seq<char>, T)| cw_match(e.0, pat, joker))
    }

    /// Collects the entries within distance `dist` of `key`.
    pub(crate) fn collect_neighbor<'a>(&'a self, key: &Vec<char>, dist: usize) -> (out: Vec<
        (Vec<char>, &'a T)>)
        ensures
            kv_views(out@) == self.neighbor_entries(key@, dist as nat),
    {
        let all = self.collect_prefix(Vec::new());
        proof {
            lemma_prefix_entries_empty(self);
        }
        filter_neighbor(all, key, dist)
    }

    /// Collects the entries matching the pattern under the wildcard.
    pub(crate) fn collect_crossword<'a>(&'a self, pat: &Vec<char>, joker: char) -> (out: Vec<
        (Vec<char>, &'a T)>)
        ensures
            kv_views(out@) == self.crossword_entries(pat@, joker),
    {
        let all = self.collect_prefix(Vec::new());
        proof {
            lemma_prefix_entries_empty(self);
        }
        filter_crossword(all, pat, joker)
    }

    /// Borrows every value whose key differs from `key` in at most `dist`
    /// positions, a length difference counting one mismatch per extra
    /// position, in ascending key order.
    pub fn visit_neighbor_values(&self, key: &str, dist: usize) -> (r: Vec<&T>)
        ensures
            r@.len() == self.neighbor_entries(key@, dist as nat).len(),
            forall|j: int|
                0 <= j < r@.len() ==> *r@[j] == self.neighbor_entries(key@, dist as nat)[j].1,
    {
        let kv = str_to_chars(key);
        let out = self.collect_neighbor(&kv, dist);
        values_of(out)
    }

    /// Borrows every value whose key matches `pat`, position by position,
    /// the character `joker` matching anything, in ascending key order.
    pub fn visit_crossword_values(&self, pat: &str, joker: char) -> (r: Vec<&T>)
        ensures
            r@.len() == self.crossword_entries(pat@, joker).len(),
            forall|j: int|
                0 <= j < r@.len() ==> *r@[j] == self.crossword_entries(pat@, joker)[j].1,
    {
        let kv = str_to_chars(pat);
        let out = self.collect_crossword(&kv, joker);
        values_of(out)
    }
}

/// The neighbor entry sequence and the stored map say the same thing over
/// the keys within distance `d` of the reference key, in ascending order.
pub proof fn lemma_neighbor_entries_agree<T>(t: &Tst<T>, key: Seq<char>, d: nat)
    requires
        t.well_formed(),
    ensures
        forall|i: int, j: int|
            0 <= i < j < t.neighbor_entries(key, d).len() ==> crate::order::key_lt(
                t.neighbor_entries(key, d)[i].0,
                t.neighbor_entries(key, d)[j].0,
            ),
        forall|j: int|
            0 <= j < t.neighbor_entries(key, d).len() ==> {
                let e = #[trigger] t.neighbor_entries(key, d)[j];
                &&& e.0.len() > 0
                &&& t@.contains_key(e.0)
                &&& t@[e.0] == e.1
                &&& hamming(e.0, key) <= d
            },
        forall|k: Seq<char>|
            #[trigger] t@.contains_key(k) && hamming(k, key) <= d ==> t.neighbor_entries(
                key,
                d,
            ).contains((k, t@[k])),
{
    let pred = |e: (Seq<char>, T)| hamming(e.0, key) <= d;
    let es = t.entries_spec();
    let ns = t.neighbor_entries(key, d);
    crate::walk::lemma_entries_agree_with_map(t);
    crate::walk::lemma_sorted_filter(es, pred);
    assert forall|j: int| 0 <= j < ns.len() implies {
        let e = #[trigger] ns[j];
        &&& e.0.len() > 0
        &&& t@.contains_key(e.0)
        &&& t@[e.0] == e.1
        &&& hamming(e.0, key) <= d
    } by {
        es.lemma_filter_pred(pred, j);
        assert(ns.contains(ns[j]));
        assert(es.contains(ns[j]));
        let i = choose|i: int| 0 <= i < es.len() && es[i] == ns[j];
    }
    assert forall|k: Seq<char>|
        #[trigger] t@.contains_key(k) && hamming(k, key) <= d implies ns.contains(
        (k, t@[k]),
    ) by {
        assert(es.contains((k, t@[k])));
        let i = choose|i: int| 0 <= i < es.len() && es[i] == (k, t@[k]);
        es.lemma_filter_contains(pred, i);
    }
}

/// The crossword entry sequence and the stored map say the same thing over
/// the keys matching the pattern, in ascending order.
pub proof fn lemma_crossword_entries_agree<T>(t: &Tst<T>, pat: Seq<char>, joker: char)
    requires
        t.well_formed(),
    ensures
        forall|i: int, j: int|
            0 <= i < j < t.crossword_entries(pat, joker).len() ==> crate::order::key_lt(
                t.crossword_entries(pat, joker)[i].0,
                t.crossword_entries(pat, joker)[j].0,
            ),
        forall|j: int|
            0 <= j < t.crossword_entries(pat, joker).len() ==> {
                let e = #[trigger] t.crossword_entries(pat, joker)[j];
                &&& e.0.len() > 0
                &&& t@.contains_key(e.0)
                &&& t@[e.0] == e.1
                &&& cw_match(e.0, pat, joker)
            },
        forall|k: Seq<char>|
            #[trigger] t@.contains_key(k) && cw_match(k, pat, joker) ==> t.crossword_entries(
                pat,
                joker,
            ).contains((k, t@[k])),
{
    let pred = |e: (Seq<char>, T)| cw_match(e.0, pat, joker);
    let es = t.entries_spec();
    let cs = t.crossword_entries(pat, joker);
    crate::walk::lemma_entries_agree_with_map(t);
    crate::walk::lemma_sorted_filter(es, pred);
    assert forall|j: int| 0 <= j < cs.len() implies {
        let e = #[trigger] cs[j];
        &&& e.0.len() > 0
        &&& t@.contains_key(e.0)
        &&& t@[e.0] == e.1
        &&& cw_match(e.0, pat, joker)
    } by {
        es.lemma_filter_pred(pred, j);
        assert(cs.contains(cs[j]));
        assert(es.contains(cs[j]));
        let i = choose|i: int| 0 <= i < es.len() && es[i] == cs[j];
    }
    assert forall|k: Seq<char>|
        #[trigger] t@.contains_key(k) && cw_match(k, pat, joker) implies cs.contains(
        (k, t@[k]),
    ) by {
        assert(es.contains((k, t@[k])));
        let i = choose|i: int| 0 <= i < es.len() && es[i] == (k, t@[k]);
        es.lemma_filter_contains(pred, i);
    }
}

} // verus!
