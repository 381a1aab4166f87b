//! The mutable visitors: in-place transformation of every value selected by
//! a search policy.  The matched keys are gathered first; each is then
//! revisited with a mutable point lookup and its value replaced by what the
//! caller's function computes from the old one.

use vstd::prelude::*;
use crate::tree::Tst;
use crate::walk::{clone_chars, kv_views};

verus! {

/// The mathematical reading of a vector of keys.
pub(crate) open spec fn key_views(s: Seq<Vec<char>>) -> Seq<Seq<char>> {
    Seq::new(s.len(), |j: int| s[j]@)
}

/// The keys of a vector of collected entries, in the same order.
pub(crate) fn keys_of<'a, T>(out: &Vec<(Vec<char>, &'a T)>) -> (r: Vec<Vec<char>>)
    ensures
        key_views(r@).len() == kv_views(out@).len(),
        forall|j: int| 0 <= j < r@.len() ==> key_views(r@)[j] == kv_views(out@)[j].0,
{
    let mut r: Vec<Vec<char>> = Vec::new();
    let mut i: usize = 0;
    while i < out.len()
        invariant
            i <= out@.len(),
            r@.len() == i,
            forall|j: int| 0 <= j < i ==> key_views(r@)[j] == kv_views(out@)[j].0,
        decreases out@.len() - i,
    {
        let kc = clone_chars(&out[i].0);
        let ghost before = r@;
        r.push(kc);
        proof {
            assert forall|j: int| 0 <= j < i + 1 implies key_views(r@)[j] == kv_views(out@)[j].0 by {
                if j < i {
                    assert(r@[j] == before[j]);
                    assert(key_views(before)[j] == kv_views(out@)[j].0);
                }
            }
        }
        i = i + 1;
    }
    r
}

/// Replaces the value under each of the given, pairwise distinct, stored
/// keys by what `f` computes from it; every other entry stays as it was.
fn apply_to_keys<T, F: Fn(&T) -> T>(t: &mut Tst<T>, keys: &Vec<Vec<char>>, f: &F)
    requires
        old(t).well_formed(),
        forall|v: &T| call_requires(f, (v,)),
        forall|j: int|
            0 <= j < key_views(keys@).len() ==> (#[trigger] key_views(keys@)[j]).len() > 0
                && old(t)@.contains_key(key_views(keys@)[j]),
        forall|i: int, j: int|
            0 <= i < j < key_views(keys@).len() ==> key_views(keys@)[i] != key_views(keys@)[j],
    ensures
        final(t).well_formed(),
        final(t).spec_len() == old(t).spec_len(),
        final(t).spec_node_count() == old(t).spec_node_count(),
        forall|k: Seq<char>| #[trigger] final(t)@.contains_key(k) <==> old(t)@.contains_key(k),
        forall|k: Seq<char>|
            old(t)@.contains_key(k) ==> if key_views(keys@).contains(k) {
                call_ensures(f, (&old(t)@[k],), final(t)@[k])
            } else {
                final(t)@[k] == old(t)@[k]
            },
{
    let mut j: usize = 0;
    proof {
        assert(key_views(keys@.take(0)) =~= Seq::<Seq<char>>::empty());
    }
    while j < keys.len()
        invariant
            t.well_formed(),
            t.spec_len() == old(t).spec_len(),
            t.spec_node_count() == old(t).spec_node_count(),
            j <= keys@.len(),
            forall|v: &T| call_requires(f, (v,)),
            forall|jj: int|
                0 <= jj < key_views(keys@).len() ==> (#[trigger] key_views(keys@)[jj]).len() > 0
                    && old(t)@.contains_key(key_views(keys@)[jj]),
            forall|i1: int, j1: int|
                0 <= i1 < j1 < key_views(keys@).len() ==> key_views(keys@)[i1] != key_views(
                    keys@,
                )[j1],
            forall|k: Seq<char>| #[trigger] t@.contains_key(k) <==> old(t)@.contains_key(k),
            forall|k: Seq<char>|
                old(t)@.contains_key(k) ==> if key_views(keys@.take(j as int)).contains(k) {
                    call_ensures(f, (&old(t)@[k],), t@[k])
                } else {
                    t@[k] == old(t)@[k]
                },
        decreases keys@.len() - j,
    {
        let ghost kk = keys@[j as int]@;
        proof {
            assert(key_views(keys@)[j as int] == kk);
        }
        let ghost tb = t@;
        let m = t.get_mut_chars(&keys[j]);
        match m {
            None => {
                proof {
                    assert(false);
                }
            },
            Some(mref) => {
                let nv = f(&*mref);
                *mref = nv;
            },
        }
        proof {
            let upto = key_views(keys@.take(j as int));
            let upto1 = key_views(keys@.take(j + 1));
            assert(!upto.contains(kk)) by {
                if upto.contains(kk) {
                    let i = choose|i: int| 0 <= i < upto.len() && upto[i] == kk;
                    assert(keys@[i]@ == kk);
                    assert(key_views(keys@)[i] == kk);
                    assert(key_views(keys@)[j as int] == kk);
                }
            }
            assert(upto1[j as int] == kk);
            assert forall|k: Seq<char>| old(t)@.contains_key(k) implies (if upto1.contains(k) {
                call_ensures(f, (&old(t)@[k],), t@[k])
            } else {
                t@[k] == old(t)@[k]
            }) by {
                if k == kk {
                    assert(upto1.contains(kk));
                    assert(tb[kk] == old(t)@[kk]);
                } else {
                    assert(t@[k] == tb[k]);
                    if upto1.contains(k) {
                        let i = choose|i: int| 0 <= i < upto1.len() && upto1[i] == k;
                        assert(keys@[i]@ == k);
                        assert(key_views(keys@)[i] == k);
                        assert(i < j);
                        assert(upto[i] == k);
                        assert(upto.contains(k));
                    }
                    if upto.contains(k) {
                        let i = choose|i: int| 0 <= i < upto.len() && upto[i] == k;
                        assert(upto1[i] == k);
                        assert(upto1.contains(k));
                    }
                }
            }
        }
        j = j + 1;
    }
    proof {
        assert(keys@.take(keys@.len() as int) =~= keys@);
    }
}

impl<T> Tst<T> {
    /// Replaces every stored value by what `f` computes from it; the keys
    /// and the count stay as they were.
    pub fn visit_values_mut<F: Fn(&T) -> T>(&mut self, f: F)
        requires
            old(self).well_formed(),
            forall|v: &T| call_requires(f, (v,)),
        ensures
            final(self).well_formed(),
            final(self).spec_len() == old(self).spec_len(),
            final(self).spec_node_count() == old(self).spec_node_count(),
            forall|k: Seq<char>|
                #[trigger] final(self)@.contains_key(k) <==> old(self)@.contains_key(k),
            forall|k: Seq<char>|
                #[trigger] old(self)@.contains_key(k) ==> call_ensures(
                    f,
                    (&old(self)@[k],),
                    final(self)@[k],
                ),
    {
        let keys = {
            let out = self.collect_prefix(Vec::new());
            keys_of(&out)
        };
        proof {
            crate::walk::lemma_prefix_entries_empty(self);
            crate::walk::lemma_entries_agree_with_map(self);
            lemma_keys_usable(self, key_views(keys@), self.entries_spec());
        }
        apply_to_keys(self, &keys, &f);
        proof {
            assert forall|k: Seq<char>|
                #[trigger] old(self)@.contains_key(k) implies key_views(keys@).contains(k) by {
                assert(old(self).entries_spec().contains((k, old(self)@[k])));
                let i = choose|i: int|
                    0 <= i < old(self).entries_spec().len() && old(self).entries_spec()[i] == (
                    k,
                    old(self)@[k],
                    );
                assert(key_views(keys@)[i] == k);
            }
        }
    }

    /// Replaces every value stored under a key that strictly extends the
    /// prefix by what `f` computes from it; a value stored under the exact
    /// prefix, and every other value, stays as it was.
    pub fn visit_complete_values_mut<F: Fn(&T) -> T>(&mut self, key: &str, f: F)
        requires
            old(self).well_formed(),
            forall|v: &T| call_requires(f, (v,)),
        ensures
            final(self).well_formed(),
            final(self).spec_len() == old(self).spec_len(),
            final(self).spec_node_count() == old(self).spec_node_count(),
            forall|k: Seq<char>|
                #[trigger] final(self)@.contains_key(k) <==> old(self)@.contains_key(k),
            forall|k: Seq<char>|
                #[trigger] old(self)@.contains_key(k) ==> if k.len() > key@.len() && k.take(
                    key@.len() as int,
                ) == key@ {
                    call_ensures(f, (&old(self)@[k],), final(self)@[k])
                } else {
                    final(self)@[k] == old(self)@[k]
                },
    {
        let kv = crate::tree::str_to_chars(key);
        let ghost p = key@;
        let keys = {
            let out = self.collect_prefix(kv);
            keys_of(&out)
        };
        proof {
            crate::walk::lemma_prefix_entries_agree(self, p);
            lemma_keys_usable(self, key_views(keys@), self.prefix_entries(p));
        }
        apply_to_keys(self, &keys, &f);
        proof {
            let es = old(self).prefix_entries(p);
            assert forall|k: Seq<char>| #[trigger] old(self)@.contains_key(k) implies (
            key_views(keys@).contains(k) <==> (k.len() > p.len() && k.take(p.len() as int)
                == p)) by {
                if key_views(keys@).contains(k) {
                    let i = choose|i: int|
                        0 <= i < key_views(keys@).len() && key_views(keys@)[i] == k;
                    assert(es[i].0 == k);
                }
                if k.len() > p.len() && k.take(p.len() as int) == p {
                    assert(es.contains((k, old(self)@[k])));
                    let i = choose|i: int| 0 <= i < es.len() && es[i] == (k, old(self)@[k]);
                    assert(key_views(keys@)[i] == k);
                }
            }
        }
    }

    /// Replaces every value whose key lies within distance `dist` of `key`
    /// by what `f` computes from it; every other value stays as it was.
    pub fn visit_neighbor_values_mut<F: Fn(&T) -> T>(&mut self, key: &str, dist: usize, f: F)
        requires
            old(self).well_formed(),
            forall|v: &T| call_requires(f, (v,)),
        ensures
            final(self).well_formed(),
            final(self).spec_len() == old(self).spec_len(),
            final(self).spec_node_count() == old(self).spec_node_count(),
            forall|k: Seq<char>|
                #[trigger] final(self)@.contains_key(k) <==> old(self)@.contains_key(k),
            forall|k: Seq<char>|
                #[trigger] old(self)@.contains_key(k) ==> if crate::matchers::hamming(k, key@)
                    <= dist {
                    call_ensures(f, (&old(self)@[k],), final(self)@[k])
                } else {
                    final(self)@[k] == old(self)@[k]
                },
    {
        let kv = crate::tree::str_to_chars(key);
        let keys = {
            let out = self.collect_neighbor(&kv, dist);
            keys_of(&out)
        };
        proof {
            crate::matchers::lemma_neighbor_entries_agree(self, key@, dist as nat);
            lemma_keys_usable(self, key_views(keys@), self.neighbor_entries(key@, dist as nat));
        }
        apply_to_keys(self, &keys, &f);
        proof {
            let es = old(self).neighbor_entries(key@, dist as nat);
            assert forall|k: Seq<char>| #[trigger] old(self)@.contains_key(k) implies (
            key_views(keys@).contains(k) <==> crate::matchers::hamming(k, key@) <= dist) by {
                if key_views(keys@).contains(k) {
                    let i = choose|i: int|
                        0 <= i < key_views(keys@).len() && key_views(keys@)[i] == k;
                    assert(es[i].0 == k);
                }
                if crate::matchers::hamming(k, key@) <= dist {
                    assert(es.contains((k, old(self)@[k])));
                    let i = choose|i: int| 0 <= i < es.len() && es[i] == (k, old(self)@[k]);
                    assert(key_views(keys@)[i] == k);
                }
            }
        }
    }

    /// Replaces every value whose key matches `key` under the wildcard
    /// `joker` by what `f` computes from it; every other value stays as it
    /// was.
    pub fn visit_crossword_values_mut<F: Fn(&T) -> T>(&mut self, key: &str, joker: char, f: F)
        requires
            old(self).well_formed(),
            forall|v: &T| call_requires(f, (v,)),
        ensures
            final(self).well_formed(),
            final(self).spec_len() == old(self).spec_len(),
            final(self).spec_node_count() == old(self).spec_node_count(),
            forall|k: Seq<char>|
                #[trigger] final(self)@.contains_key(k) <==> old(self)@.contains_key(k),
            forall|k: Seq<char>|
                #[trigger] old(self)@.contains_key(k) ==> if crate::matchers::cw_match(
                    k,
                    key@,
                    joker,
                ) {
                    call_ensures(f, (&old(self)@[k],), final(self)@[k])
                } else {
                    final(self)@[k] == old(self)@[k]
                },
    {
        let kv = crate::tree::str_to_chars(key);
        let keys = {
            let out = self.collect_crossword(&kv, joker);
            keys_of(&out)
        };
        proof {
            crate::matchers::lemma_crossword_entries_agree(self, key@, joker);
            lemma_keys_usable(self, key_views(keys@), self.crossword_entries(key@, joker));
        }
        apply_to_keys(self, &keys, &f);
        proof {
            let es = old(self).crossword_entries(key@, joker);
            assert forall|k: Seq<char>| #[trigger] old(self)@.contains_key(k) implies (
            key_views(keys@).contains(k) <==> crate::matchers::cw_match(k, key@, joker)) by {
                if key_views(keys@).contains(k) {
                    let i = choose|i: int|
                        0 <= i < key_views(keys@).len() && key_views(keys@)[i] == k;
                    assert(es[i].0 == k);
                }
                if crate::matchers::cw_match(k, key@, joker) {
                    assert(es.contains((k, old(self)@[k])));
                    let i = choose|i: int| 0 <= i < es.len() && es[i] == (k, old(self)@[k]);
                    assert(key_views(keys@)[i] == k);
                }
            }
        }
    }
}

/// Keys read off an entry sequence whose entries are stored, non-empty and
/// strictly ascending can be revisited one by one.
proof fn lemma_keys_usable<T>(t: &Tst<T>, ks: Seq<Seq<char>>, es: Seq<(Seq<char>, T)>)
    requires
        ks.len() == es.len(),
        forall|j: int| 0 <= j < ks.len() ==> ks[j] == es[j].0,
        forall|j: int|
            0 <= j < es.len() ==> (#[trigger] es[j]).0.len() > 0 && t@.contains_key(es[j].0),
        forall|i: int, j: int| 0 <= i < j < es.len() ==> crate::order::key_lt(es[i].0, es[j].0),
    ensures
        forall|j: int| 0 <= j < ks.len() ==> (#[trigger] ks[j]).len() > 0 && t@.contains_key(ks[j]),
        forall|i: int, j: int| 0 <= i < j < ks.len() ==> ks[i] != ks[j],
{
    assert forall|i: int, j: int| 0 <= i < j < ks.len() implies ks[i] != ks[j] by {
        if ks[i] == ks[j] {
            crate::order::lemma_key_lt_irrefl(ks[i]);
        }
    }
}

} // verus!
