//! The prefix locator: descends the spine of a prefix and hands back the
//! `middle` link of the node where the prefix ends — the root of the subtree
//! of all strict continuations of the prefix.  A value stored under the
//! exact prefix is deliberately left out of prefix-complete results.

use vstd::prelude::*;
use crate::tree::{Link, Tst, lookup, wf_link, lemma_char_cast_inj};

verus! {

/// The subtree of all strict continuations of the prefix `p` in `link`:
/// `link` itself for an empty prefix, otherwise the `middle` link of the
/// node reached by consuming exactly `p`.
pub(crate) open spec fn locate<T>(link: Link<T>, p: Seq<char>) -> Link<T>
    decreases link,
{
    if p.len() == 0 {
        link
    } else {
        match link {
            None => None,
            Some(n) => {
                if (p[0] as u32) < (n.label as u32) {
                    locate(n.left, p)
                } else if (p[0] as u32) > (n.label as u32) {
                    locate(n.right, p)
                } else if p.len() == 1 {
                    n.middle
                } else {
                    locate(n.middle, p.skip(1))
                }
            },
        }
    }
}

/// A well-formed tree has well-formed prefix subtrees.
pub(crate) proof fn lemma_locate_wf<T>(link: Link<T>, p: Seq<char>)
    requires
        wf_link(link),
    ensures
        wf_link(locate(link, p)),
    decreases link,
{
    if p.len() == 0 {
    } else {
        match link {
            None => {},
            Some(n) => {
                if (p[0] as u32) < (n.label as u32) {
                    lemma_locate_wf(n.left, p);
                } else if (p[0] as u32) > (n.label as u32) {
                    lemma_locate_wf(n.right, p);
                } else if p.len() == 1 {
                } else {
                    lemma_locate_wf(n.middle, p.skip(1));
                }
            },
        }
    }
}

/// Looking up a strict continuation of `p` in `link` is looking up the
/// continuation alone in the prefix subtree.
pub(crate) proof fn lemma_locate_lookup<T>(link: Link<T>, p: Seq<char>, rest: Seq<char>)
    requires
        rest.len() > 0,
    ensures
        lookup(link, p + rest) == lookup(locate(link, p), rest),
    decreases link,
{
    if p.len() == 0 {
        assert(p + rest =~= rest);
    } else {
        assert((p + rest)[0] == p[0]);
        match link {
            None => {},
            Some(n) => {
                if (p[0] as u32) < (n.label as u32) {
                    lemma_locate_lookup(n.left, p, rest);
                } else if (p[0] as u32) > (n.label as u32) {
                    lemma_locate_lookup(n.right, p, rest);
                } else if p.len() == 1 {
                    assert((p + rest).skip(1) =~= rest);
                    assert(lookup(link, p + rest) == lookup(n.middle, rest));
                } else {
                    lemma_locate_lookup(n.middle, p.skip(1), rest);
                    assert((p + rest).skip(1) =~= p.skip(1) + rest);
                    assert(lookup(link, p + rest) == lookup(n.middle, (p + rest).skip(1)));
                }
            },
        }
    }
}

/// Walks down the spine of `key[i..]` and borrows the link holding all its
/// strict continuations.
pub(crate) fn find_complete_root_r<'a, T>(link: &'a Link<T>, key: &Vec<char>, i: usize) -> (r: &'a
    Link<T>)
    requires
        i < key@.len(),
    ensures
        *r == locate(*link, key@.skip(i as int)),
    decreases link,
{
    let ghost p = key@.skip(i as int);
    let c = key[i];
    let n_len = key.len();
    assert(p[0] == c);
    match link {
        None => link,
        Some(n) => {
            if (c as u32) < (n.label as u32) {
                find_complete_root_r(&n.left, key, i)
            } else if (c as u32) > (n.label as u32) {
                find_complete_root_r(&n.right, key, i)
            } else if i + 1 == n_len {
                assert(p.len() == 1);
                &n.middle
            } else {
                proof {
                    assert(p.skip(1) =~= key@.skip(i + 1));
                }
                find_complete_root_r(&n.middle, key, i + 1)
            }
        },
    }
}

} // verus!
