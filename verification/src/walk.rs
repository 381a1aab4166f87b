//! The exhaustive in-order walk: left child first, then the node's own
//! value, then the middle child (one key position deeper), then the right
//! child.  The walk yields every stored value in ascending key order; it is
//! the traversal every search policy restricts.

use vstd::prelude::*;
use crate::tree::{Link, Node, Tst, lookup, num_values, wf_link, lemma_char_cast_inj, str_to_chars};
use crate::order::{key_lt, lemma_key_lt_from_diff, lemma_key_lt_prefix};

verus! {

/// The (key, value) pairs stored in the subtree `link`, in in-order
/// traversal order, each key prefixed with `pfx`, the characters consumed on
/// the way down to `link`.
pub(crate) open spec fn entries<T>(link: Link<T>, pfx: Seq<char>) -> Seq<(Seq<char>, T)>
    decreases link,
{
    match link {
        None => Seq::empty(),
        Some(n) => entries(n.left, pfx) + (match n.value {
            Some(v) => seq![(pfx.push(n.label), v)],
            None => Seq::empty(),
        }) + entries(n.middle, pfx.push(n.label)) + entries(n.right, pfx),
    }
}

/// Every key of the walk is strictly before every later one.
pub(crate) open spec fn sorted_keys<T>(s: Seq<(Seq<char>, T)>) -> bool {
    forall|i: int, j: int| 0 <= i < j < s.len() ==> key_lt(s[i].0, s[j].0)
}

/// Every entry of the walk extends the prefix by at least one character,
/// and looking its key up in the subtree finds its value.
pub(crate) proof fn lemma_entries_lookup<T>(link: Link<T>, pfx: Seq<char>)
    requires
        wf_link(link),
    ensures
        forall|j: int|
            0 <= j < entries(link, pfx).len() ==> {
                let e = #[trigger] entries(link, pfx)[j];
                &&& e.0.len() > pfx.len()
                &&& e.0.take(pfx.len() as int) == pfx
                &&& lookup(link, e.0.skip(pfx.len() as int)) == Some(e.1)
            },
    decreases link,
{
    match link {
        None => {},
        Some(n) => {
            let eall = entries(link, pfx);
            let el = entries(n.left, pfx);
            let ev: Seq<(Seq<char>, T)> = match n.value {
                Some(v) => seq![(pfx.push(n.label), v)],
                None => Seq::empty(),
            };
            let em = entries(n.middle, pfx.push(n.label));
            let er = entries(n.right, pfx);
            lemma_entries_lookup(n.left, pfx);
            lemma_entries_lookup(n.middle, pfx.push(n.label));
            lemma_entries_lookup(n.right, pfx);
            assert forall|j: int| 0 <= j < eall.len() implies {
                let e = #[trigger] eall[j];
                &&& e.0.len() > pfx.len()
                &&& e.0.take(pfx.len() as int) == pfx
                &&& lookup(link, e.0.skip(pfx.len() as int)) == Some(e.1)
            } by {
                let e = eall[j];
                if j < el.len() {
                    assert(e == el[j]);
                    let k = e.0.skip(pfx.len() as int);
                    assert(lookup(n.left, k) == Some(e.1));
                    assert((k[0] as u32) < (n.label as u32));
                    assert(lookup(link, k) == lookup(n.left, k));
                } else if j < el.len() + ev.len() {
                    assert(e == ev[j - el.len()]);
                    assert(e.0 == pfx.push(n.label));
                    assert(e.0.take(pfx.len() as int) =~= pfx);
                    let k = e.0.skip(pfx.len() as int);
                    assert(k =~= seq![n.label]);
                    assert(lookup(link, k) == n.value);
                } else if j < el.len() + ev.len() + em.len() {
                    let e2 = em[j - el.len() - ev.len()];
                    assert(e == e2);
                    assert(e2.0.len() > pfx.len() as int + 1);
                    assert(e2.0.take(pfx.len() as int + 1) == pfx.push(n.label));
                    assert(e.0.take(pfx.len() as int) =~= e2.0.take(pfx.len() as int + 1).take(
                        pfx.len() as int,
                    ));
                    assert(pfx.push(n.label).take(pfx.len() as int) =~= pfx);
                    let k = e.0.skip(pfx.len() as int);
                    assert(k[0] == e.0[pfx.len() as int]);
                    assert(e.0[pfx.len() as int] == e.0.take(pfx.len() as int + 1)[pfx.len() as int]);
                    assert(k[0] == n.label);
                    assert(k.len() > 1);
                    assert(k.skip(1) =~= e.0.skip(pfx.len() as int + 1));
                    assert(lookup(n.middle, e.0.skip(pfx.len() as int + 1)) == Some(e.1));
                    assert(lookup(link, k) == lookup(n.middle, k.skip(1)));
                } else {
                    assert(e == er[j - el.len() - ev.len() - em.len()]);
                    let k = e.0.skip(pfx.len() as int);
                    assert(lookup(n.right, k) == Some(e.1));
                    assert((k[0] as u32) > (n.label as u32));
                    assert(lookup(link, k) == lookup(n.right, k));
                }
            }
        },
    }
}

/// The walk yields keys in strictly ascending lexicographic order.
pub(crate) proof fn lemma_entries_sorted<T>(link: Link<T>, pfx: Seq<char>)
    requires
        wf_link(link),
    ensures
        sorted_keys(entries(link, pfx)),
    decreases link,
{
    match link {
        None => {},
        Some(n) => {
            let eall = entries(link, pfx);
            let el = entries(n.left, pfx);
            let ev: Seq<(Seq<char>, T)> = match n.value {
                Some(v) => seq![(pfx.push(n.label), v)],
                None => Seq::empty(),
            };
            let em = entries(n.middle, pfx.push(n.label));
            let er = entries(n.right, pfx);
            lemma_entries_sorted(n.left, pfx);
            lemma_entries_sorted(n.middle, pfx.push(n.label));
            lemma_entries_sorted(n.right, pfx);
            lemma_entries_lookup(n.left, pfx);
            lemma_entries_lookup(n.middle, pfx.push(n.label));
            lemma_entries_lookup(n.right, pfx);
            // Each left key carries, right after the prefix, a character
            // below the label; each right key one above it; each middle key
            // the label itself, with more to follow.
            assert forall|i: int, j: int| 0 <= i < j < eall.len() implies key_lt(
                eall[i].0,
                eall[j].0,
            ) by {
                let a = eall[i].0;
                let b = eall[j].0;
                let m = pfx.len() as int;
                if i < el.len() {
                    assert(eall[i] == el[i]);
                    assert((a.skip(m)[0] as u32) < (n.label as u32));
                    assert(a[m] == a.skip(m)[0]);
                    if j < el.len() {
                        assert(eall[j] == el[j]);
                    } else {
                        // b starts with the prefix and carries, at position
                        // m, either the label or a character above it.
                        lemma_entry_char_at(link, pfx, j - el.len(), n);
                        assert(a.take(m) =~= b.take(m));
                        lemma_key_lt_from_diff(a, b, m);
                    }
                } else if i < el.len() + ev.len() {
                    assert(eall[i] == ev[0]);
                    assert(a == pfx.push(n.label));
                    if j < el.len() + ev.len() {
                    } else if j < el.len() + ev.len() + em.len() {
                        let e2 = em[j - el.len() - ev.len()];
                        assert(eall[j] == e2);
                        assert(b.len() > pfx.len() as int + 1);
                        assert(b.take(pfx.len() as int + 1) == pfx.push(n.label));
                        lemma_key_lt_prefix(a, b);
                    } else {
                        assert(eall[j] == er[j - el.len() - ev.len() - em.len()]);
                        assert((b.skip(m)[0] as u32) > (n.label as u32));
                        assert(b[m] == b.skip(m)[0]);
                        assert(a[m] == n.label);
                        assert(a.take(m) =~= pfx);
                        assert(b.take(m) =~= pfx);
                        lemma_key_lt_from_diff(a, b, m);
                    }
                } else if i < el.len() + ev.len() + em.len() {
                    let e1 = em[i - el.len() - ev.len()];
                    assert(eall[i] == e1);
                    assert(a.take(pfx.len() as int + 1) == pfx.push(n.label));
                    assert(a[m] == a.take(pfx.len() as int + 1)[m]);
                    assert(a[m] == n.label);
                    if j < el.len() + ev.len() + em.len() {
                    } else {
                        assert(eall[j] == er[j - el.len() - ev.len() - em.len()]);
                        assert((b.skip(m)[0] as u32) > (n.label as u32));
                        assert(b[m] == b.skip(m)[0]);
                        assert(a.take(m) =~= a.take(pfx.len() as int + 1).take(m));
                        assert(pfx.push(n.label).take(m) =~= pfx);
                        assert(b.take(m) =~= pfx);
                        lemma_key_lt_from_diff(a, b, m);
                    }
                } else {
                    let i2 = i - el.len() - ev.len() - em.len();
                    let j2 = j - el.len() - ev.len() - em.len();
                    assert(eall[i] == er[i2]);
                    assert(eall[j] == er[j2]);
                }
            }
        },
    }
}

/// In the subtree of `n` past the left child — own value, middle, right —
/// the entry at position `p` carries, at the position right after the
/// prefix, the label or a character above it.
proof fn lemma_entry_char_at<T>(link: Link<T>, pfx: Seq<char>, p: int, n: Box<Node<T>>)
    requires
        wf_link(link),
        link == Some(n),
        0 <= p,
        p < entries(link, pfx).len() - entries(n.left, pfx).len(),
    ensures
        ({
            let e = entries(link, pfx)[entries(n.left, pfx).len() + p];
            &&& e.0.len() > pfx.len()
            &&& e.0.take(pfx.len() as int) == pfx
            &&& (e.0[pfx.len() as int] as u32) >= (n.label as u32)
        }),
{
    let ev: Seq<(Seq<char>, T)> = match n.value {
        Some(v) => seq![(pfx.push(n.label), v)],
        None => Seq::empty(),
    };
    let em = entries(n.middle, pfx.push(n.label));
    let er = entries(n.right, pfx);
    lemma_entries_lookup(n.middle, pfx.push(n.label));
    lemma_entries_lookup(n.right, pfx);
    let e = entries(link, pfx)[entries(n.left, pfx).len() + p];
    let m = pfx.len() as int;
    if p < ev.len() {
        assert(e == ev[0]);
        assert(e.0.take(m) =~= pfx);
    } else if p < ev.len() + em.len() {
        let e2 = em[p - ev.len()];
        assert(e == e2);
        assert(e2.0.take(pfx.len() as int + 1) == pfx.push(n.label));
        assert(e.0.take(m) =~= e.0.take(pfx.len() as int + 1).take(m));
        assert(pfx.push(n.label).take(m) =~= pfx);
        assert(e.0[m] == e.0.take(pfx.len() as int + 1)[m]);
    } else {
        let e2 = er[p - ev.len() - em.len()];
        assert(e == e2);
        assert((e.0.skip(m)[0] as u32) > (n.label as u32));
        assert(e.0[m] == e.0.skip(m)[0]);
    }
}


/// The walk yields exactly as many entries as the subtree stores values.
pub(crate) proof fn lemma_entries_len<T>(link: Link<T>, pfx: Seq<char>)
    ensures
        entries(link, pfx).len() == num_values(link),
    decreases link,
{
    match link {
        None => {},
        Some(n) => {
            lemma_entries_len(n.left, pfx);
            lemma_entries_len(n.middle, pfx.push(n.label));
            lemma_entries_len(n.right, pfx);
        },
    }
}

/// Every stored value appears in the walk, under its own key.
pub(crate) proof fn lemma_lookup_entries<T>(link: Link<T>, pfx: Seq<char>, k: Seq<char>, v: T)
    requires
        lookup(link, k) == Some(v),
    ensures
        entries(link, pfx).contains((pfx + k, v)),
    decreases link,
{
    let n = link.unwrap();
    let eall = entries(link, pfx);
    let el = entries(n.left, pfx);
    let ev: Seq<(Seq<char>, T)> = match n.value {
        Some(w) => seq![(pfx.push(n.label), w)],
        None => Seq::empty(),
    };
    let em = entries(n.middle, pfx.push(n.label));
    let er = entries(n.right, pfx);
    if (k[0] as u32) < (n.label as u32) {
        lemma_lookup_entries(n.left, pfx, k, v);
        let i = choose|i: int| 0 <= i < el.len() && el[i] == (pfx + k, v);
        assert(eall[i] == (pfx + k, v));
    } else if (k[0] as u32) > (n.label as u32) {
        lemma_lookup_entries(n.right, pfx, k, v);
        let i = choose|i: int| 0 <= i < er.len() && er[i] == (pfx + k, v);
        assert(eall[el.len() + ev.len() + em.len() + i] == (pfx + k, v));
    } else if k.len() == 1 {
        lemma_char_cast_inj(k[0], n.label);
        assert(pfx + k =~= pfx.push(n.label));
        assert(eall[el.len() as int] == (pfx + k, v));
    } else {
        lemma_char_cast_inj(k[0], n.label);
        lemma_lookup_entries(n.middle, pfx.push(n.label), k.skip(1), v);
        assert(pfx.push(n.label) + k.skip(1) =~= pfx + k);
        let i = choose|i: int|
            0 <= i < em.len() && em[i] == (pfx.push(n.label) + k.skip(1), v);
        assert(eall[el.len() + ev.len() + i] == (pfx + k, v));
    }
}

/// A well-formed, present subtree stores at least one value.
pub(crate) proof fn lemma_wf_some_has_value<T>(link: Link<T>)
    requires
        wf_link(link),
        link is Some,
    ensures
        num_values(link) >= 1,
    decreases link,
{
    let n = link.unwrap();
    if n.value is None {
        if n.left is Some {
            lemma_wf_some_has_value(n.left);
        } else if n.middle is Some {
            lemma_wf_some_has_value(n.middle);
        } else {
            lemma_wf_some_has_value(n.right);
        }
    }
}

/// The mathematical reading of a vector of collected entries: each borrowed
/// value dereferenced, each key taken as a sequence.
pub(crate) open spec fn kv_views<'a, T>(s: Seq<(Vec<char>, &'a T)>) -> Seq<(Seq<char>, T)> {
    Seq::new(s.len(), |j: int| (s[j].0@, *s[j].1))
}

/// Relies on `String: FromIterator<char>`: collecting characters yields the
/// string of exactly those characters, in order.
#[verifier::external_body]
pub(crate) fn chars_to_string(v: &Vec<char>) -> (r: String)
    ensures
        r@ == v@,
{
    v.iter().collect()
}

/// An element-wise copy of a character vector.
pub(crate) fn clone_chars(v: &Vec<char>) -> (r: Vec<char>)
    ensures
        r@ == v@,
{
    let mut r: Vec<char> = Vec::new();
    let mut i: usize = 0;
    while i < v.len()
        invariant
            i <= v@.len(),
            r@ == v@.take(i as int),
        decreases v@.len() - i,
    {
        r.push(v[i]);
        proof {
            assert(r@ =~= v@.take(i + 1));
        }
        i = i + 1;
    }
    proof {
        assert(r@ =~= v@);
    }
    r
}

/// Collects the entries of `link` in in-order traversal order onto `out`,
/// threading the prefix of consumed characters through `pfx`.
pub(crate) fn collect_r<'a, T>(
    link: &'a Link<T>,
    pfx: &mut Vec<char>,
    out: &mut Vec<(Vec<char>, &'a T)>,
)
    ensures
        final(pfx)@ == old(pfx)@,
        kv_views(final(out)@) == kv_views(old(out)@) + entries(*link, old(pfx)@),
    decreases link,
{
    match link {
        None => {
            proof {
                assert(kv_views(out@) =~= kv_views(out@) + entries(*link, pfx@));
            }
        },
        Some(n) => {
            let ghost pfx0 = pfx@;
            collect_r(&n.left, pfx, out);
            pfx.push(n.label);
            match &n.value {
                None => {},
                Some(v) => {
                    let key_copy = clone_chars(pfx);
                    let ghost before = out@;
                    out.push((key_copy, v));
                    proof {
                        assert(kv_views(out@) =~= kv_views(before).push((pfx0.push(n.label), *v)));
                        assert(kv_views(before).push((pfx0.push(n.label), *v)) =~= kv_views(before)
                            + seq![(pfx0.push(n.label), *v)]);
                    }
                },
            }
            collect_r(&n.middle, pfx, out);
            pfx.pop();
            proof {
                assert(pfx@ =~= pfx0);
            }
            collect_r(&n.right, pfx, out);
            proof {
                assert(kv_views(out@) =~= kv_views(old(out)@) + entries(*link, pfx0));
            }
        },
    }
}

impl<T> Tst<T> {
    /// The (key, value) pairs this tree stores, in ascending key order.
    pub closed spec fn entries_spec(&self) -> Seq<(Seq<char>, T)> {
        entries(self.root, Seq::empty())
    }

    /// The (key, value) pairs stored under keys that strictly extend the
    /// prefix `p`, in ascending key order; a value stored under `p` itself
    /// is deliberately not among them.
    pub closed spec fn prefix_entries(&self, p: Seq<char>) -> Seq<(Seq<char>, T)> {
        entries(crate::prefix::locate(self.root, p), p)
    }

    /// Collects the entries stored under keys strictly extending the
    /// characters of `pfx`.
    pub(crate) fn collect_prefix<'a>(&'a self, pfx: Vec<char>) -> (out: Vec<(Vec<char>, &'a T)>)
        ensures
            kv_views(out@) == self.prefix_entries(pfx@),
    {
        let sub: &Link<T> = if pfx.len() == 0 {
            &self.root
        } else {
            proof {
                assert(pfx@.skip(0) =~= pfx@);
            }
            crate::prefix::find_complete_root_r(&self.root, &pfx, 0)
        };
        let mut run = pfx;
        let mut out: Vec<(Vec<char>, &'a T)> = Vec::new();
        proof {
            assert(kv_views(out@) =~= Seq::<(Seq<char>, T)>::empty());
        }
        collect_r(sub, &mut run, &mut out);
        out
    }

    /// Borrows every stored value, in ascending key order.
    pub fn visit_values(&self) -> (r: Vec<&T>)
        ensures
            r@.len() == self.entries_spec().len(),
            forall|j: int| 0 <= j < r@.len() ==> *r@[j] == self.entries_spec()[j].1,
    {
        let out = self.collect_prefix(Vec::new());
        proof {
            assert(self.prefix_entries(Seq::empty()) == self.entries_spec());
        }
        values_of(out)
    }

    /// Borrows every value stored under a key that strictly extends the
    /// prefix, in ascending key order.  A value stored under the exact
    /// prefix is not reported; an empty prefix reports every value.
    pub fn visit_complete_values(&self, key: &str) -> (r: Vec<&T>)
        ensures
            r@.len() == self.prefix_entries(key@).len(),
            forall|j: int| 0 <= j < r@.len() ==> *r@[j] == self.prefix_entries(key@)[j].1,
    {
        let kv = str_to_chars(key);
        let out = self.collect_prefix(kv);
        values_of(out)
    }
}

/// With an empty prefix, prefix-complete search is exhaustive search.
pub proof fn lemma_prefix_entries_empty<T>(t: &Tst<T>)
    ensures
        t.prefix_entries(Seq::empty()) == t.entries_spec(),
{
}

/// The entry sequence and the stored map say the same thing: every entry's
/// key is a non-empty stored key carrying the entry's value, every stored
/// pair appears among the entries, the keys come in strictly ascending
/// lexicographic order, and there are exactly as many entries as the tree
/// counts values.
pub proof fn lemma_entries_agree_with_map<T>(t: &Tst<T>)
    requires
        t.well_formed(),
    ensures
        forall|i: int, j: int|
            0 <= i < j < t.entries_spec().len() ==> key_lt(
                t.entries_spec()[i].0,
                t.entries_spec()[j].0,
            ),
        forall|j: int|
            0 <= j < t.entries_spec().len() ==> {
                let e = #[trigger] t.entries_spec()[j];
                &&& e.0.len() > 0
                &&& t@.contains_key(e.0)
                &&& t@[e.0] == e.1
            },
        forall|k: Seq<char>|
            #[trigger] t@.contains_key(k) ==> t.entries_spec().contains((k, t@[k])),
        t.entries_spec().len() == t.spec_len(),
{
    crate::tree::lemma_tst_internals(t);
    lemma_entries_lookup(t.root, Seq::empty());
    lemma_entries_sorted(t.root, Seq::empty());
    lemma_entries_len(t.root, Seq::empty());
    let es = t.entries_spec();
    assert forall|j: int| 0 <= j < es.len() implies {
        let e = #[trigger] es[j];
        &&& e.0.len() > 0
        &&& t@.contains_key(e.0)
        &&& t@[e.0] == e.1
    } by {
        let e = es[j];
        assert(e.0.skip(0) =~= e.0);
        assert(lookup(t.root, e.0) == Some(e.1));
    }
    assert forall|k: Seq<char>| #[trigger] t@.contains_key(k) implies es.contains(
        (k, t@[k]),
    ) by {
        lemma_lookup_entries(t.root, Seq::empty(), k, t@[k]);
        assert(Seq::empty() + k =~= k);
    }
}

/// A well-formed tree with no stored values has no nodes at all: removal
/// prunes everything it empties, so a full round of removals leaves no
/// residue.
pub proof fn lemma_empty_tree<T>(t: &Tst<T>)
    requires
        t.well_formed(),
        t.spec_len() == 0,
    ensures
        t.spec_node_count() == 0,
        t.entries_spec() == Seq::<(Seq<char>, T)>::empty(),
        forall|k: Seq<char>| !t@.contains_key(k),
{
    crate::tree::lemma_tst_internals(t);
    if t.root is Some {
        lemma_wf_some_has_value(t.root);
    }
    lemma_entries_len(t.root, Seq::empty());
    assert(t.entries_spec() =~= Seq::<(Seq<char>, T)>::empty());
    assert forall|k: Seq<char>| !t@.contains_key(k) by {
        if lookup(t.root, k) is Some {
            lemma_lookup_entries(t.root, Seq::empty(), k, lookup(t.root, k).unwrap());
        }
    }
}

/// The number a tree reports is the number of its distinct stored keys.
pub proof fn lemma_len_is_key_count<T>(t: &Tst<T>)
    requires
        t.well_formed(),
    ensures
        t@.dom().finite(),
        t@.dom().len() == t.spec_len(),
{
    broadcast use vstd::seq_lib::seq_to_set_is_finite;

    crate::tree::lemma_tst_internals(t);
    lemma_entries_agree_with_map(t);
    let es = t.entries_spec();
    let ks = Seq::new(es.len(), |i: int| es[i].0);
    assert(ks.no_duplicates()) by {
        assert forall|i: int, j: int|
            0 <= i < j < ks.len() implies ks[i] != ks[j] by {
            if ks[i] == ks[j] {
                crate::order::lemma_key_lt_irrefl(ks[i]);
            }
        }
    }
    ks.unique_seq_to_set();
    assert(ks.to_set() =~= t@.dom()) by {
        assert forall|k: Seq<char>| ks.to_set().contains(k) implies t@.dom().contains(k) by {
            let i = choose|i: int| 0 <= i < ks.len() && ks[i] == k;
            assert(es[i].0 == k);
        }
        assert forall|k: Seq<char>| t@.dom().contains(k) implies ks.to_set().contains(k) by {
            assert(es.contains((k, t@[k])));
            let i = choose|i: int| 0 <= i < es.len() && es[i] == (k, t@[k]);
            assert(ks[i] == k);
        }
    }
}

/// The prefix-restricted entry sequence and the stored map say the same
/// thing over the keys that strictly extend the prefix.
pub proof fn lemma_prefix_entries_agree<T>(t: &Tst<T>, p: Seq<char>)
    requires
        t.well_formed(),
    ensures
        forall|i: int, j: int|
            0 <= i < j < t.prefix_entries(p).len() ==> key_lt(
                t.prefix_entries(p)[i].0,
                t.prefix_entries(p)[j].0,
            ),
        forall|j: int|
            0 <= j < t.prefix_entries(p).len() ==> {
                let e = #[trigger] t.prefix_entries(p)[j];
                &&& e.0.len() > p.len()
                &&& e.0.take(p.len() as int) == p
                &&& t@.contains_key(e.0)
                &&& t@[e.0] == e.1
            },
        forall|k: Seq<char>|
            #[trigger] t@.contains_key(k) && k.len() > p.len() && k.take(p.len() as int) == p
                ==> t.prefix_entries(p).contains((k, t@[k])),
{
    crate::tree::lemma_tst_internals(t);
    let sub = crate::prefix::locate(t.root, p);
    crate::prefix::lemma_locate_wf(t.root, p);
    lemma_entries_lookup(sub, p);
    lemma_entries_sorted(sub, p);
    let es = t.prefix_entries(p);
    assert forall|j: int| 0 <= j < es.len() implies {
        let e = #[trigger] es[j];
        &&& e.0.len() > p.len()
        &&& e.0.take(p.len() as int) == p
        &&& t@.contains_key(e.0)
        &&& t@[e.0] == e.1
    } by {
        let e = es[j];
        let rest = e.0.skip(p.len() as int);
        assert(lookup(sub, rest) == Some(e.1));
        crate::prefix::lemma_locate_lookup(t.root, p, rest);
        assert(p + rest =~= e.0);
    }
    assert forall|k: Seq<char>|
        #[trigger] t@.contains_key(k) && k.len() > p.len() && k.take(p.len() as int)
            == p implies es.contains((k, t@[k])) by {
        let rest = k.skip(p.len() as int);
        assert(p + rest =~= k);
        crate::prefix::lemma_locate_lookup(t.root, p, rest);
        assert(lookup(sub, rest) == Some(t@[k]));
        lemma_lookup_entries(sub, p, rest, t@[k]);
    }
}

/// Restricting a walk keeps its order: the filtered entries are still
/// strictly ascending, and each comes from the unrestricted walk.
pub(crate) proof fn lemma_sorted_filter<T>(
    s: Seq<(Seq<char>, T)>,
    pred: spec_fn((Seq<char>, T)) -> bool,
)
    requires
        sorted_keys(s),
    ensures
        sorted_keys(s.filter(pred)),
        forall|x: (Seq<char>, T)| #[trigger] s.filter(pred).contains(x) ==> s.contains(x),
    decreases s.len(),
{
    reveal(Seq::filter);
    if s.len() == 0 {
    } else {
        let d = s.drop_last();
        let f = s.filter(pred);
        let fd = d.filter(pred);
        lemma_sorted_filter(d, pred);
        assert forall|x: (Seq<char>, T)| #[trigger] f.contains(x) implies s.contains(x) by {
            let i = choose|i: int| 0 <= i < f.len() && f[i] == x;
            if pred(s.last()) && i == f.len() - 1 {
                assert(s[s.len() - 1] == x);
            } else {
                assert(fd[i] == x);
                assert(fd.contains(x));
                let j = choose|j: int| 0 <= j < d.len() && d[j] == x;
                assert(s[j] == x);
            }
        }
        assert forall|i: int, j: int| 0 <= i < j < f.len() implies key_lt(f[i].0, f[j].0) by {
            if pred(s.last()) && j == f.len() - 1 {
                assert(fd[i] == f[i]);
                assert(fd.contains(f[i]));
                let p = choose|p: int| 0 <= p < d.len() && d[p] == f[i];
                assert(s[p] == f[i]);
                assert(key_lt(s[p].0, s[s.len() - 1].0));
            } else {
                assert(fd[i] == f[i]);
                assert(fd[j] == f[j]);
            }
        }
    }
}

/// The values of a vector of collected entries, in the same order.
pub(crate) fn values_of<'a, T>(out: Vec<(Vec<char>, &'a T)>) -> (r: Vec<&'a T>)
    ensures
        r@.len() == kv_views(out@).len(),
        forall|j: int| 0 <= j < r@.len() ==> *r@[j] == kv_views(out@)[j].1,
{
    let mut r: Vec<&'a T> = Vec::new();
    let mut i: usize = 0;
    while i < out.len()
        invariant
            i <= out@.len(),
            r@.len() == i,
            forall|j: int| 0 <= j < i ==> *r@[j] == kv_views(out@)[j].1,
        decreases out@.len() - i,
    {
        let e = &out[i];
        r.push(e.1);
        i = i + 1;
    }
    r
}

} // verus!
