//! The ternary node shape and the core map operations: insertion, point
//! lookup, and prune-on-removal.
//!
//! A node stores one character (`label`), an optional value, and three child
//! slots.  A key is the sequence of labels met along `middle` moves; `left`
//! and `right` moves stay on the same key position.  The whole structure is
//! interpreted as a `Map<Seq<char>, T>` through the spec function `lookup`.

use vstd::prelude::*;
use vstd::string::StrSliceExecFns;

verus! {

pub(crate) type Link<T> = Option<Box<Node<T>>>;

pub(crate) struct Node<T> {
    pub(crate) label: char,
    pub(crate) value: Option<T>,
    pub(crate) left: Link<T>,
    pub(crate) middle: Link<T>,
    pub(crate) right: Link<T>,
}

/// The value stored under the (never empty) key `k` in the subtree `link`,
/// following the ternary search rule: a first character below the label goes
/// left, above it goes right, equal to it consumes the character.
pub(crate) open spec fn lookup<T>(link: Link<T>, k: Seq<char>) -> Option<T>
    decreases link,
{
    match link {
        None => None,
        Some(n) => {
            if k.len() == 0 {
                None
            } else if (k[0] as u32) < (n.label as u32) {
                lookup(n.left, k)
            } else if (k[0] as u32) > (n.label as u32) {
                lookup(n.right, k)
            } else if k.len() == 1 {
                n.value
            } else {
                lookup(n.middle, k.skip(1))
            }
        },
    }
}

/// Number of values stored in the subtree.
pub(crate) open spec fn num_values<T>(link: Link<T>) -> nat
    decreases link,
{
    match link {
        None => 0,
        Some(n) => (if n.value is Some {
            1nat
        } else {
            0nat
        }) + num_values(n.left) + num_values(n.middle) + num_values(n.right),
    }
}

/// Well-formedness: every key reachable in the left (right) child starts
/// strictly below (above) the node's label, and no node is structurally
/// dead, that is valueless with three empty slots.
pub(crate) open spec fn wf_link<T>(link: Link<T>) -> bool
    decreases link,
{
    match link {
        None => true,
        Some(n) => {
            &&& wf_link(n.left)
            &&& wf_link(n.middle)
            &&& wf_link(n.right)
            &&& forall|k: Seq<char>|
                (#[trigger] lookup(n.left, k)) is Some ==> (k[0] as u32) < (n.label as u32)
            &&& forall|k: Seq<char>|
                (#[trigger] lookup(n.right, k)) is Some ==> (k[0] as u32) > (n.label as u32)
            &&& (n.value is Some || n.left is Some || n.middle is Some || n.right is Some)
        },
    }
}

/// An ordered map from string keys to values of type `T`, stored as a
/// ternary search tree.  The tree shape is exactly the historical insertion
/// order: there is no rebalancing.
pub struct Tst<T> {
    pub(crate) root: Link<T>,
    pub(crate) count: usize,
}

impl<T> Tst<T> {
    /// The mathematical map this tree stores.
    pub closed spec fn map_spec(&self) -> Map<Seq<char>, T> {
        Map::new(|k: Seq<char>| lookup(self.root, k) is Some, |k: Seq<char>| lookup(self.root, k).unwrap())
    }

    /// The structural invariant every operation preserves.
    pub closed spec fn well_formed(&self) -> bool {
        wf_link(self.root) && self.count == num_values(self.root)
    }

    /// The number of stored values.
    pub closed spec fn spec_len(&self) -> nat {
        self.count as nat
    }

    /// The number of nodes of the tree; zero exactly for the empty tree.
    pub closed spec fn spec_node_count(&self) -> nat {
        node_count(self.root)
    }
}

impl<T> View for Tst<T> {
    type V = Map<Seq<char>, T>;

    open spec fn view(&self) -> Map<Seq<char>, T> {
        self.map_spec()
    }
}

/// What the closed interpretation functions mean, for the other modules of
/// the crate.
pub(crate) proof fn lemma_tst_internals<T>(t: &Tst<T>)
    ensures
        forall|k: Seq<char>| #[trigger] t@.contains_key(k) <==> lookup(t.root, k) is Some,
        forall|k: Seq<char>|
            #[trigger] t@.contains_key(k) ==> t@[k] == lookup(t.root, k).unwrap(),
        t.well_formed() <==> (wf_link(t.root) && t.count == num_values(t.root)),
        t.spec_len() == t.count,
        t.spec_node_count() == node_count(t.root),
{
}

/// Number of nodes in the subtree.
pub(crate) open spec fn node_count<T>(link: Link<T>) -> nat
    decreases link,
{
    match link {
        None => 0,
        Some(n) => 1 + node_count(n.left) + node_count(n.middle) + node_count(n.right),
    }
}

/// The characters of a borrowed string slice, as a vector.
pub(crate) fn str_to_chars(s: &str) -> (r: Vec<char>)
    ensures
        r@ == s@,
{
    let n = s.unicode_len();
    let mut r: Vec<char> = Vec::new();
    let mut i: usize = 0;
    while i < n
        invariant
            i <= n,
            n == s@.len(),
            r@ == s@.take(i as int),
        decreases n - i,
    {
        r.push(s.get_char(i));
        proof {
            assert(r@ =~= s@.take(i + 1));
        }
        i = i + 1;
    }
    proof {
        assert(r@ =~= s@);
    }
    r
}

/// Walks the tree along `key[i..]` and borrows the value stored under it.
fn get_r<'a, T>(link: &'a Link<T>, key: &Vec<char>, i: usize) -> (r: Option<&'a T>)
    requires
        i < key@.len(),
    ensures
        match r {
            Some(v) => lookup(*link, key@.skip(i as int)) == Some(*v),
            None => lookup(*link, key@.skip(i as int)) is None,
        },
    decreases link,
{
    match link {
        None => None,
        Some(n) => {
            let c = key[i];
            let n_len = key.len();
            assert(key@.skip(i as int)[0] == c);
            if (c as u32) < (n.label as u32) {
                get_r(&n.left, key, i)
            } else if (c as u32) > (n.label as u32) {
                get_r(&n.right, key, i)
            } else if i + 1 == n_len {
                match &n.value {
                    None => None,
                    Some(v) => Some(v),
                }
            } else {
                proof {
                    assert(key@.skip(i as int).skip(1) =~= key@.skip(i + 1));
                }
                get_r(&n.middle, key, i + 1)
            }
        },
    }
}

/// The cast of a character to its code point is injective.
pub(crate) proof fn lemma_char_cast_inj(a: char, b: char)
    requires
        a as u32 == b as u32,
    ensures
        a == b,
{
}

/// A node without a value and without children stores nothing.
proof fn lemma_dead_lookup<T>(n: Box<Node<T>>, k: Seq<char>)
    requires
        n.value is None,
        n.left is None,
        n.middle is None,
        n.right is None,
    ensures
        lookup(Some(n), k) is None,
{
    assert(lookup(None::<Box<Node<T>>>, k) is None);
    assert(lookup(None::<Box<Node<T>>>, k.skip(1)) is None);
}

/// Two sequences with the same head and the same tail are the same.
proof fn lemma_cons_eq(a: Seq<char>, b: Seq<char>)
    requires
        a.len() >= 1,
        b.len() >= 1,
        a[0] == b[0],
        a.skip(1) == b.skip(1),
    ensures
        a == b,
{
    assert(a.len() == a.skip(1).len() + 1);
    assert(b.len() == b.skip(1).len() + 1);
    assert forall|j: int| 0 <= j < a.len() implies a[j] == b[j] by {
        if j > 0 {
            assert(a.skip(1)[j - 1] == a[j]);
            assert(b.skip(1)[j - 1] == b[j]);
        }
    }
    assert(a =~= b);
}

/// Inserts `value` under `key[i..]` in the subtree `link`, creating at most
/// one node per remaining character, and hands back the value previously
/// stored under that key.
fn insert_r<T>(link: &mut Link<T>, key: &Vec<char>, i: usize, value: T) -> (prev: Option<T>)
    requires
        i < key@.len(),
        wf_link(*old(link)),
    ensures
        wf_link(*final(link)),
        (*final(link)) is Some,
        prev == lookup(*old(link), key@.skip(i as int)),
        forall|k: Seq<char>|
            #[trigger] lookup(*final(link), k) == if k == key@.skip(i as int) {
                Some(value)
            } else {
                lookup(*old(link), k)
            },
        num_values(*final(link)) == num_values(*old(link)) + (if prev is Some {
            0int
        } else {
            1int
        }),
    decreases key@.len() - i, *old(link),
{
    let ghost tail = key@.skip(i as int);
    let c = key[i];
    let n_len = key.len();
    assert(tail[0] == c);
    proof {
        assert(tail.skip(1) =~= key@.skip(i + 1));
    }
    match link.take() {
        None => {
            let mut node = Box::new(
                Node { label: c, value: None, left: None, middle: None, right: None },
            );
            if i + 1 == n_len {
                node.value = Some(value);
                assert(tail.len() == 1);
            } else {
                let r = insert_r(&mut node.middle, key, i + 1, value);
                assert(r is None);
                assert(lookup(node.middle, tail.skip(1)) == Some(value));
            }
            *link = Some(node);
            assert forall|k: Seq<char>|
                #[trigger] lookup(*link, k) == if k == tail {
                    Some(value)
                } else {
                    lookup(None::<Box<Node<T>>>, k)
                } by {
                if k == tail {
                    if tail.len() == 1 {
                        assert(lookup(*link, k) == (*link).unwrap().value);
                    } else {
                        assert(lookup(*link, k) == lookup((*link).unwrap().middle, k.skip(1)));
                    }
                } else if k.len() >= 1 && (k[0] as u32) == (c as u32) {
                    lemma_char_cast_inj(k[0], c);
                    if k.len() == 1 && tail.len() == 1 {
                        assert(k.skip(1) =~= tail.skip(1));
                        lemma_cons_eq(k, tail);
                    } else if k.len() > 1 && tail.len() > 1 && k.skip(1) == tail.skip(1) {
                        lemma_cons_eq(k, tail);
                    }
                }
            }
            None
        },
        Some(mut node) => {
            let prev = if (c as u32) < (node.label as u32) {
                let prev = insert_r(&mut node.left, key, i, value);
                assert(lookup(node.left, tail) == Some(value));
                prev
            } else if (c as u32) > (node.label as u32) {
                let prev = insert_r(&mut node.right, key, i, value);
                assert(lookup(node.right, tail) == Some(value));
                prev
            } else if i + 1 == n_len {
                let prev = node.value.take();
                node.value = Some(value);
                assert(tail.len() == 1);
                prev
            } else {
                let prev = insert_r(&mut node.middle, key, i + 1, value);
                assert(lookup(node.middle, tail.skip(1)) == Some(value));
                prev
            };
            *link = Some(node);
            assert forall|k: Seq<char>|
                #[trigger] lookup(*link, k) == if k == tail {
                    Some(value)
                } else {
                    lookup(*old(link), k)
                } by {
                let nn = (*link).unwrap();
                if k == tail {
                    if (c as u32) < (nn.label as u32) {
                        assert(lookup(*link, k) == lookup(nn.left, k));
                    } else if (c as u32) > (nn.label as u32) {
                        assert(lookup(*link, k) == lookup(nn.right, k));
                    } else if tail.len() == 1 {
                        assert(lookup(*link, k) == nn.value);
                    } else {
                        assert(lookup(*link, k) == lookup(nn.middle, k.skip(1)));
                    }
                } else if k.len() >= 1 && (k[0] as u32) == (tail[0] as u32) {
                    lemma_char_cast_inj(k[0], tail[0]);
                    if k.len() == 1 && tail.len() == 1 {
                        assert(k.skip(1) =~= tail.skip(1));
                        lemma_cons_eq(k, tail);
                    } else if k.len() > 1 && tail.len() > 1 && k.skip(1) == tail.skip(1) {
                        lemma_cons_eq(k, tail);
                    }
                }
            }
            prev
        },
    }
}

/// Walks the tree along `key[i..]` and borrows, mutably, the value stored
/// under it; the subtree after the caller is done with the borrow is the old
/// subtree with that one value replaced.
fn get_mut_r<'a, T>(link: &'a mut Link<T>, key: &Vec<char>, i: usize) -> (r: Option<&'a mut T>)
    requires
        i < key@.len(),
        wf_link(*old(link)),
    ensures
        match r {
            None => *final(link) == *old(link) && lookup(
                *old(link),
                key@.skip(i as int),
            ) is None,
            Some(m) => {
                &&& lookup(*old(link), key@.skip(i as int)) == Some(*m)
                &&& (*final(link)) is Some
                &&& wf_link(*final(link))
                &&& num_values(*final(link)) == num_values(*old(link))
                &&& node_count(*final(link)) == node_count(*old(link))
                &&& forall|k: Seq<char>|
                    #[trigger] lookup(*final(link), k) == if k == key@.skip(i as int) {
                        Some(*final(m))
                    } else {
                        lookup(*old(link), k)
                    }
            },
        },
    decreases *old(link),
{
    let ghost tail = key@.skip(i as int);
    let c = key[i];
    let n_len = key.len();
    assert(tail[0] == c);
    proof {
        assert(tail.skip(1) =~= key@.skip(i + 1));
    }
    match link {
        None => None,
        Some(node) => {
            if (c as u32) < (node.label as u32) {
                let r = get_mut_r(&mut node.left, key, i);
                proof {
                    if r is None {
                        assert(Some(*after_borrow(node)) == *old(link));
                    } else {
                        let nf = *after_borrow(node);
                        assert forall|k: Seq<char>|
                            #[trigger] lookup(Some(nf), k) == if k == tail {
                                Some(*final(r.unwrap()))
                            } else {
                                lookup(*old(link), k)
                            } by {
                            if k == tail {
                                assert(lookup(Some(nf), k) == lookup(nf.left, k));
                            } else if k.len() >= 1 && (k[0] as u32) == (tail[0] as u32) {
                                lemma_char_cast_inj(k[0], tail[0]);
                                if k.len() == 1 && tail.len() == 1 {
                                    assert(k.skip(1) =~= tail.skip(1));
                                    lemma_cons_eq(k, tail);
                                } else if k.len() > 1 && tail.len() > 1 && k.skip(1)
                                    == tail.skip(1) {
                                    lemma_cons_eq(k, tail);
                                }
                            }
                        }
                    }
                }
                r
            } else if (c as u32) > (node.label as u32) {
                let r = get_mut_r(&mut node.right, key, i);
                proof {
                    if r is None {
                        assert(Some(*after_borrow(node)) == *old(link));
                    } else {
                        let nf = *after_borrow(node);
                        assert forall|k: Seq<char>|
                            #[trigger] lookup(Some(nf), k) == if k == tail {
                                Some(*final(r.unwrap()))
                            } else {
                                lookup(*old(link), k)
                            } by {
                            if k == tail {
                                assert(lookup(Some(nf), k) == lookup(nf.right, k));
                            } else if k.len() >= 1 && (k[0] as u32) == (tail[0] as u32) {
                                lemma_char_cast_inj(k[0], tail[0]);
                                if k.len() == 1 && tail.len() == 1 {
                                    assert(k.skip(1) =~= tail.skip(1));
                                    lemma_cons_eq(k, tail);
                                } else if k.len() > 1 && tail.len() > 1 && k.skip(1)
                                    == tail.skip(1) {
                                    lemma_cons_eq(k, tail);
                                }
                            }
                        }
                    }
                }
                r
            } else if i + 1 == n_len {
                assert(tail.len() == 1);
                match &mut node.value {
                    None => None,
                    Some(v) => {
                        proof {
                            let nf = *after_borrow(node);
                            assert forall|k: Seq<char>|
                                #[trigger] lookup(Some(nf), k) == if k == tail {
                                    Some(*final(v))
                                } else {
                                    lookup(*old(link), k)
                                } by {
                                if k == tail {
                                assert(lookup(Some(nf), k) == nf.value);
                            } else if k.len() >= 1 && (k[0] as u32) == (tail[0] as u32) {
                                lemma_char_cast_inj(k[0], tail[0]);
                                if k.len() == 1 && tail.len() == 1 {
                                    assert(k.skip(1) =~= tail.skip(1));
                                    lemma_cons_eq(k, tail);
                                } else if k.len() > 1 && tail.len() > 1 && k.skip(1)
                                    == tail.skip(1) {
                                    lemma_cons_eq(k, tail);
                                }
                            }
                            }
                        }
                        Some(v)
                    },
                }
            } else {
                let r = get_mut_r(&mut node.middle, key, i + 1);
                proof {
                    if r is None {
                        assert(Some(*after_borrow(node)) == *old(link));
                    } else {
                        let nf = *after_borrow(node);
                        assert forall|k: Seq<char>|
                            #[trigger] lookup(Some(nf), k) == if k == tail {
                                Some(*final(r.unwrap()))
                            } else {
                                lookup(*old(link), k)
                            } by {
                            if k == tail {
                                assert(lookup(Some(nf), k) == lookup(nf.middle, k.skip(1)));
                            } else if k.len() >= 1 && (k[0] as u32) == (tail[0] as u32) {
                                lemma_char_cast_inj(k[0], tail[0]);
                                if k.len() == 1 && tail.len() == 1 {
                                    assert(k.skip(1) =~= tail.skip(1));
                                    lemma_cons_eq(k, tail);
                                } else if k.len() > 1 && tail.len() > 1 && k.skip(1)
                                    == tail.skip(1) {
                                    lemma_cons_eq(k, tail);
                                }
                            }
                        }
                    }
                }
                r
            }
        },
    }
}

/// Removes the value stored under `key[i..]` in the subtree `link` and
/// hands it back.  On the way back up, every node left without a value and
/// without children is dropped, so no structurally dead node survives.  A
/// key that stores nothing leaves the subtree exactly as it was.
fn remove_r<T>(link: &mut Link<T>, key: &Vec<char>, i: usize) -> (prev: Option<T>)
    requires
        i < key@.len(),
        wf_link(*old(link)),
    ensures
        wf_link(*final(link)),
        prev is None ==> *final(link) == *old(link),
        prev == lookup(*old(link), key@.skip(i as int)),
        forall|k: Seq<char>|
            #[trigger] lookup(*final(link), k) == if k == key@.skip(i as int) {
                None
            } else {
                lookup(*old(link), k)
            },
        num_values(*old(link)) == num_values(*final(link)) + (if prev is Some {
            1int
        } else {
            0int
        }),
    decreases *old(link),
{
    let ghost tail = key@.skip(i as int);
    let c = key[i];
    let n_len = key.len();
    assert(tail[0] == c);
    proof {
        assert(tail.skip(1) =~= key@.skip(i + 1));
    }
    match link.take() {
        None => None,
        Some(mut node) => {
            let prev = if (c as u32) < (node.label as u32) {
                remove_r(&mut node.left, key, i)
            } else if (c as u32) > (node.label as u32) {
                remove_r(&mut node.right, key, i)
            } else if i + 1 == n_len {
                assert(tail.len() == 1);
                node.value.take()
            } else {
                remove_r(&mut node.middle, key, i + 1)
            };
            let dead = node.value.is_none() && node.left.is_none() && node.middle.is_none()
                && node.right.is_none();
            if !dead {
                *link = Some(node);
            }
            proof {
                let nn = if dead {
                    node
                } else {
                    (*link).unwrap()
                };
                assert forall|k: Seq<char>|
                    #[trigger] lookup(Some(nn), k) == if k == tail {
                        None::<T>
                    } else {
                        lookup(*old(link), k)
                    } by {
                    if k == tail {
                        if (c as u32) < (nn.label as u32) {
                            assert(lookup(Some(nn), k) == lookup(nn.left, k));
                        } else if (c as u32) > (nn.label as u32) {
                            assert(lookup(Some(nn), k) == lookup(nn.right, k));
                        } else if tail.len() == 1 {
                            assert(lookup(Some(nn), k) == nn.value);
                        } else {
                            assert(lookup(Some(nn), k) == lookup(nn.middle, k.skip(1)));
                        }
                    } else if k.len() >= 1 && (k[0] as u32) == (tail[0] as u32) {
                        lemma_char_cast_inj(k[0], tail[0]);
                        if k.len() == 1 && tail.len() == 1 {
                            assert(k.skip(1) =~= tail.skip(1));
                            lemma_cons_eq(k, tail);
                        } else if k.len() > 1 && tail.len() > 1 && k.skip(1) == tail.skip(1) {
                            lemma_cons_eq(k, tail);
                        }
                    }
                }
                if dead {
                    assert forall|k: Seq<char>|
                        #[trigger] lookup(*link, k) == if k == tail {
                            None::<T>
                        } else {
                            lookup(*old(link), k)
                        } by {
                        assert(lookup(Some(nn), k) == if k == tail {
                            None::<T>
                        } else {
                            lookup(*old(link), k)
                        });
                        lemma_dead_lookup(nn, k);
                    }
                }
            }
            prev
        },
    }
}

impl<T> Tst<T> {
    /// Creates an empty tree.
    pub fn new() -> (t: Self)
        ensures
            t.well_formed(),
            t@ == Map::<Seq<char>, T>::empty(),
            t.spec_len() == 0,
            t.spec_node_count() == 0,
    {
        proof {
            assert(Map::new(
                |k: Seq<char>| lookup(None::<Box<Node<T>>>, k) is Some,
                |k: Seq<char>| lookup(None::<Box<Node<T>>>, k).unwrap(),
            ) =~= Map::<Seq<char>, T>::empty());
        }
        Tst { root: None, count: 0 }
    }

    /// The number of stored values (not nodes).
    pub fn len(&self) -> (n: usize)
        ensures
            n == self.spec_len(),
    {
        self.count
    }

    /// Borrows the value stored under `key`; an empty key always reports
    /// absent.
    pub fn get(&self, key: &str) -> (r: Option<&T>)
        ensures
            match r {
                Some(v) => self@.contains_key(key@) && *v == self@[key@],
                None => !self@.contains_key(key@),
            },
    {
        let kv = str_to_chars(key);
        if kv.len() == 0 {
            proof {
                assert(lookup(self.root, key@) is None);
            }
            None
        } else {
            proof {
                assert(kv@.skip(0) =~= key@);
            }
            get_r(&self.root, &kv, 0)
        }
    }

    /// Borrows, mutably, the value stored under `key`; the tree afterwards
    /// holds whatever the caller left in the borrow, under the same key.
    /// An empty key always reports absent.
    pub fn get_mut(&mut self, key: &str) -> (r: Option<&mut T>)
        requires
            old(self).well_formed(),
        ensures
            match r {
                None => *final(self) == *old(self) && !old(self)@.contains_key(key@),
                Some(m) => {
                    &&& old(self)@.contains_key(key@)
                    &&& *m == old(self)@[key@]
                    &&& final(self).well_formed()
                    &&& final(self)@ =~= old(self)@.insert(key@, *final(m))
                    &&& final(self).spec_len() == old(self).spec_len()
                    &&& final(self).spec_node_count() == old(self).spec_node_count()
                },
            },
    {
        let kv = str_to_chars(key);
        if kv.len() == 0 {
            proof {
                assert(lookup(self.root, key@) is None);
            }
            None
        } else {
            proof {
                assert(kv@.skip(0) =~= key@);
            }
            get_mut_r(&mut self.root, &kv, 0)
        }
    }

    /// Borrows, mutably, the value stored under the characters of `kv`.
    pub(crate) fn get_mut_chars(&mut self, kv: &Vec<char>) -> (r: Option<&mut T>)
        requires
            old(self).well_formed(),
            kv@.len() > 0,
        ensures
            match r {
                None => *final(self) == *old(self) && !old(self)@.contains_key(kv@),
                Some(m) => {
                    &&& old(self)@.contains_key(kv@)
                    &&& *m == old(self)@[kv@]
                    &&& final(self).well_formed()
                    &&& final(self)@ =~= old(self)@.insert(kv@, *final(m))
                    &&& final(self).spec_len() == old(self).spec_len()
                    &&& final(self).spec_node_count() == old(self).spec_node_count()
                },
            },
    {
        proof {
            assert(kv@.skip(0) =~= kv@);
        }
        get_mut_r(&mut self.root, kv, 0)
    }

    /// Inserts `value` under `key` and hands back the value previously
    /// stored there.  An empty key is a no-op: nothing is stored, the value
    /// is dropped, and the result is absent.
    pub fn insert(&mut self, key: &str, value: T) -> (prev: Option<T>)
        requires
            old(self).well_formed(),
            key@.len() > 0 && !old(self)@.contains_key(key@) ==> old(self).spec_len()
                < usize::MAX,
        ensures
            final(self).well_formed(),
            key@.len() == 0 ==> prev is None && *final(self) == *old(self),
            key@.len() > 0 ==> {
                &&& prev == (if old(self)@.contains_key(key@) {
                    Some(old(self)@[key@])
                } else {
                    None
                })
                &&& final(self)@ == old(self)@.insert(key@, value)
                &&& final(self).spec_len() == old(self).spec_len() + (if prev is Some {
                    0int
                } else {
                    1int
                })
            },
    {
        let kv = str_to_chars(key);
        if kv.len() == 0 {
            None
        } else {
            proof {
                assert(kv@.skip(0) =~= key@);
            }
            let prev = insert_r(&mut self.root, &kv, 0, value);
            if prev.is_none() {
                self.count = self.count + 1;
            }
            proof {
                assert(self.map_spec() =~= old(self).map_spec().insert(key@, value));
            }
            prev
        }
    }

    /// Removes the value stored under `key`, pruning every node the removal
    /// leaves valueless and childless, and hands the value back.  An empty
    /// key removes nothing.
    pub fn remove(&mut self, key: &str) -> (prev: Option<T>)
        requires
            old(self).well_formed(),
        ensures
            final(self).well_formed(),
            prev == (if old(self)@.contains_key(key@) {
                Some(old(self)@[key@])
            } else {
                None
            }),
            final(self)@ == old(self)@.remove(key@),
            prev is None ==> *final(self) == *old(self),
            final(self).spec_len() + (if prev is Some {
                1int
            } else {
                0int
            }) == old(self).spec_len(),
    {
        let kv = str_to_chars(key);
        if kv.len() == 0 {
            proof {
                assert(self.map_spec() =~= self.map_spec().remove(key@));
            }
            None
        } else {
            proof {
                assert(kv@.skip(0) =~= key@);
            }
            let prev = remove_r(&mut self.root, &kv, 0);
            if prev.is_some() {
                self.count = self.count - 1;
            }
            proof {
                assert(self.map_spec() =~= old(self).map_spec().remove(key@));
            }
            prev
        }
    }

    /// Removes every entry.
    pub fn clear(&mut self)
        ensures
            final(self).well_formed(),
            final(self)@ == Map::<Seq<char>, T>::empty(),
            final(self).spec_len() == 0,
            final(self).spec_node_count() == 0,
    {
        proof {
            assert(Map::new(
                |k: Seq<char>| lookup(None::<Box<Node<T>>>, k) is Some,
                |k: Seq<char>| lookup(None::<Box<Node<T>>>, k).unwrap(),
            ) =~= Map::<Seq<char>, T>::empty());
        }
        self.root = None;
        self.count = 0;
    }
}

} // verus!
