//! Double-ended iterators over the four search policies.  Each iterator
//! fixes, at construction, the ascending sequence of matching entries; a
//! forward cursor and a backward cursor then walk toward each other and
//! stop the moment they would hand out an entry the other side already has,
//! so the two directions together yield every matching value exactly once.
//! `current_key` and `current_key_back` rebuild the key of the entry most
//! recently handed out on their side.

use vstd::prelude::*;
use crate::tree::{Tst, str_to_chars};
use crate::walk::{chars_to_string, clone_chars, kv_views, lemma_prefix_entries_empty};

verus! {

/// A double-ended iterator over every value of a tree, in ascending key
/// order from the front and descending key order from the back.
pub struct TstIterator<'a, T> {
    entries: Vec<(Vec<char>, &'a T)>,
    front: usize,
    back: usize,
    cur_front: Option<usize>,
    cur_back: Option<usize>,
}

impl<'a, T> TstIterator<'a, T> {
    /// The matching entries, in ascending key order.
    pub closed spec fn all_entries(&self) -> Seq<(Seq<char>, T)> {
        kv_views(self.entries@)
    }

    /// The position of the forward cursor: entries before it are spent.
    pub closed spec fn fpos(&self) -> nat {
        self.front as nat
    }

    /// The position of the backward cursor: entries from it on are spent.
    pub closed spec fn bpos(&self) -> nat {
        self.back as nat
    }

    /// The key of the entry the forward side handed out most recently, if
    /// the iterator has not reported exhaustion since.
    pub closed spec fn front_key(&self) -> Option<Seq<char>> {
        match self.cur_front {
            None => None,
            Some(i) => Some(self.all_entries()[i as int].0),
        }
    }

    /// The key of the entry the backward side handed out most recently, if
    /// the iterator has not reported exhaustion since.
    pub closed spec fn back_key(&self) -> Option<Seq<char>> {
        match self.cur_back {
            None => None,
            Some(i) => Some(self.all_entries()[i as int].0),
        }
    }

    /// The cursors stand between 0 and the number of entries, never
    /// crossed, and the remembered positions are in range.
    pub closed spec fn wf(&self) -> bool {
        &&& self.front <= self.back <= self.entries@.len()
        &&& match self.cur_front {
            None => true,
            Some(i) => i < self.entries@.len(),
        }
        &&& match self.cur_back {
            None => true,
            Some(i) => i < self.entries@.len(),
        }
    }

    /// An iterator over every value of `tst`.
    pub fn new(tst: &'a Tst<T>) -> (it: Self)
        ensures
            it.wf(),
            it.all_entries() == tst.entries_spec(),
            it.fpos() == 0,
            it.bpos() == it.all_entries().len(),
            it.front_key() is None,
            it.back_key() is None,
    {
        let entries = tst.collect_prefix(Vec::new());
        proof {
            lemma_prefix_entries_empty(tst);
        }
        Self::from_entries(entries)
    }

    /// An iterator over an already collected ascending entry sequence.
    pub(crate) fn from_entries(entries: Vec<(Vec<char>, &'a T)>) -> (it: Self)
        ensures
            it.wf(),
            it.all_entries() == kv_views(entries@),
            it.fpos() == 0,
            it.bpos() == it.all_entries().len(),
            it.front_key() is None,
            it.back_key() is None,
    {
        let back = entries.len();
        TstIterator { entries, front: 0, back, cur_front: None, cur_back: None }
    }

    /// Hands out the next value from the front, or reports that the two
    /// cursors have met; afterwards `current_key` rebuilds the key of what
    /// was handed out.
    pub fn next(&mut self) -> (r: Option<&'a T>)
        requires
            old(self).wf(),
        ensures
            final(self).wf(),
            final(self).all_entries() == old(self).all_entries(),
            old(self).fpos() < old(self).bpos() ==> {
                &&& r is Some
                &&& *r.unwrap() == old(self).all_entries()[old(self).fpos() as int].1
                &&& final(self).fpos() == old(self).fpos() + 1
                &&& final(self).bpos() == old(self).bpos()
                &&& final(self).front_key() == Some(
                    old(self).all_entries()[old(self).fpos() as int].0,
                )
                &&& final(self).back_key() == old(self).back_key()
            },
            old(self).fpos() >= old(self).bpos() ==> {
                &&& r is None
                &&& final(self).fpos() == old(self).fpos()
                &&& final(self).bpos() == old(self).bpos()
                &&& final(self).front_key() is None
                &&& final(self).back_key() is None
            },
    {
        if self.front < self.back {
            let i = self.front;
            self.front = i + 1;
            self.cur_front = Some(i);
            let e = &self.entries[i];
            Some(e.1)
        } else {
            self.cur_front = None;
            self.cur_back = None;
            None
        }
    }

    /// Hands out the next value from the back, or reports that the two
    /// cursors have met; afterwards `current_key_back` rebuilds the key of
    /// what was handed out.
    pub fn next_back(&mut self) -> (r: Option<&'a T>)
        requires
            old(self).wf(),
        ensures
            final(self).wf(),
            final(self).all_entries() == old(self).all_entries(),
            old(self).fpos() < old(self).bpos() ==> {
                &&& r is Some
                &&& *r.unwrap() == old(self).all_entries()[old(self).bpos() - 1].1
                &&& final(self).bpos() == old(self).bpos() - 1
                &&& final(self).fpos() == old(self).fpos()
                &&& final(self).back_key() == Some(
                    old(self).all_entries()[old(self).bpos() - 1].0,
                )
                &&& final(self).front_key() == old(self).front_key()
            },
            old(self).fpos() >= old(self).bpos() ==> {
                &&& r is None
                &&& final(self).fpos() == old(self).fpos()
                &&& final(self).bpos() == old(self).bpos()
                &&& final(self).front_key() is None
                &&& final(self).back_key() is None
            },
    {
        if self.front < self.back {
            let i = self.back - 1;
            self.back = i;
            self.cur_back = Some(i);
            let e = &self.entries[i];
            Some(e.1)
        } else {
            self.cur_front = None;
            self.cur_back = None;
            None
        }
    }

    /// Whether the forward side has a key pending.
    pub fn has_front_key(&self) -> (b: bool)
        ensures
            b == (self.front_key() is Some),
    {
        self.cur_front.is_some()
    }

    /// Whether the backward side has a key pending.
    pub fn has_back_key(&self) -> (b: bool)
        ensures
            b == (self.back_key() is Some),
    {
        self.cur_back.is_some()
    }

    /// The key of the value most recently handed out from the front, or the
    /// empty string before the first value and after exhaustion.
    pub fn current_key(&self) -> (r: String)
        requires
            self.wf(),
        ensures
            r@ == match self.front_key() {
                Some(k) => k,
                None => Seq::<char>::empty(),
            },
    {
        match self.cur_front {
            None => String::new(),
            Some(i) => chars_to_string(&self.entries[i].0),
        }
    }

    /// The key of the value most recently handed out from the back, or the
    /// empty string before the first value and after exhaustion.
    pub fn current_key_back(&self) -> (r: String)
        requires
            self.wf(),
        ensures
            r@ == match self.back_key() {
                Some(k) => k,
                None => Seq::<char>::empty(),
            },
    {
        match self.cur_back {
            None => String::new(),
            Some(i) => chars_to_string(&self.entries[i].0),
        }
    }
}

/// Where the two cursors have met, the forward side has handed out exactly
/// the entries before the meeting point and the backward side exactly those
/// after it: together, every matching value exactly once, none repeated and
/// none skipped.
pub proof fn lemma_two_ended_partition<'a, T>(it: &TstIterator<'a, T>)
    requires
        it.wf(),
        it.fpos() == it.bpos(),
    ensures
        it.all_entries() == it.all_entries().take(it.fpos() as int) + it.all_entries().skip(
            it.bpos() as int,
        ),
{
    assert(it.all_entries() =~= it.all_entries().take(it.fpos() as int) + it.all_entries().skip(
        it.bpos() as int,
    ));
}

impl<T> Tst<T> {
    /// An iterator over every stored value, in key order from either end.
    pub fn iter(&self) -> (it: TstIterator<T>)
        ensures
            it.wf(),
            it.all_entries() == self.entries_spec(),
            it.fpos() == 0,
            it.bpos() == it.all_entries().len(),
            it.front_key() is None,
            it.back_key() is None,
    {
        TstIterator::new(self)
    }
}


/// A double-ended iterator over the values stored under keys strictly
/// extending a prefix; the keys it rebuilds carry the prefix.
pub struct TstCompleteIterator<'a, T> {
    it: TstIterator<'a, T>,
    prefix: Vec<char>,
}

impl<'a, T> TstCompleteIterator<'a, T> {
    /// The prefix the iterator was built with.
    pub closed spec fn prefix_spec(&self) -> Seq<char> {
        self.prefix@
    }

    /// The matching entries, in ascending key order.
    pub closed spec fn all_entries(&self) -> Seq<(Seq<char>, T)> {
        self.it.all_entries()
    }

    /// The position of the forward cursor: entries before it are spent.
    pub closed spec fn fpos(&self) -> nat {
        self.it.fpos()
    }

    /// The position of the backward cursor: entries from it on are spent.
    pub closed spec fn bpos(&self) -> nat {
        self.it.bpos()
    }

    /// The key of the entry the forward side handed out most recently.
    pub closed spec fn front_key(&self) -> Option<Seq<char>> {
        self.it.front_key()
    }

    /// The key of the entry the backward side handed out most recently.
    pub closed spec fn back_key(&self) -> Option<Seq<char>> {
        self.it.back_key()
    }

    /// The cursors stand in range and never cross.
    pub closed spec fn wf(&self) -> bool {
        self.it.wf()
    }

    /// An iterator over the values stored under keys strictly extending
    /// `prefix`; a value stored under the exact prefix is skipped, and an
    /// empty prefix takes in the whole tree.
    pub fn new(tst: &'a Tst<T>, prefix: &str) -> (it: Self)
        ensures
            it.wf(),
            it.prefix_spec() == prefix@,
            it.all_entries() == tst.prefix_entries(prefix@),
            it.fpos() == 0,
            it.bpos() == it.all_entries().len(),
            it.front_key() is None,
            it.back_key() is None,
    {
        let kv = str_to_chars(prefix);
        let run = clone_chars(&kv);
        let entries = tst.collect_prefix(run);
        TstCompleteIterator { it: TstIterator::from_entries(entries), prefix: kv }
    }

    /// Hands out the next value from the front, or reports that the two
    /// cursors have met.
    pub fn next(&mut self) -> (r: Option<&'a T>)
        requires
            old(self).wf(),
        ensures
            final(self).wf(),
            final(self).prefix_spec() == old(self).prefix_spec(),
            final(self).all_entries() == old(self).all_entries(),
            old(self).fpos() < old(self).bpos() ==> {
                &&& r is Some
                &&& *r.unwrap() == old(self).all_entries()[old(self).fpos() as int].1
                &&& final(self).fpos() == old(self).fpos() + 1
                &&& final(self).bpos() == old(self).bpos()
                &&& final(self).front_key() == Some(
                    old(self).all_entries()[old(self).fpos() as int].0,
                )
                &&& final(self).back_key() == old(self).back_key()
            },
            old(self).fpos() >= old(self).bpos() ==> {
                &&& r is None
                &&& final(self).fpos() == old(self).fpos()
                &&& final(self).bpos() == old(self).bpos()
                &&& final(self).front_key() is None
                &&& final(self).back_key() is None
            },
    {
        self.it.next()
    }

    /// Hands out the next value from the back, or reports that the two
    /// cursors have met.
    pub fn next_back(&mut self) -> (r: Option<&'a T>)
        requires
            old(self).wf(),
        ensures
            final(self).wf(),
            final(self).prefix_spec() == old(self).prefix_spec(),
            final(self).all_entries() == old(self).all_entries(),
            old(self).fpos() < old(self).bpos() ==> {
                &&& r is Some
                &&& *r.unwrap() == old(self).all_entries()[old(self).bpos() - 1].1
                &&& final(self).bpos() == old(self).bpos() - 1
                &&& final(self).fpos() == old(self).fpos()
                &&& final(self).back_key() == Some(
                    old(self).all_entries()[old(self).bpos() - 1].0,
                )
                &&& final(self).front_key() == old(self).front_key()
            },
            old(self).fpos() >= old(self).bpos() ==> {
                &&& r is None
                &&& final(self).fpos() == old(self).fpos()
                &&& final(self).bpos() == old(self).bpos()
                &&& final(self).front_key() is None
                &&& final(self).back_key() is None
            },
    {
        self.it.next_back()
    }

    /// The key of the value most recently handed out from the front, or
    /// the bare prefix before the first value and after exhaustion.
    pub fn current_key(&self) -> (r: String)
        requires
            self.wf(),
        ensures
            r@ == match self.front_key() {
                Some(k) => k,
                None => self.prefix_spec(),
            },
    {
        match self.it.has_front_key() {
            true => self.it.current_key(),
            false => chars_to_string(&self.prefix),
        }
    }

    /// The key of the value most recently handed out from the back, or the
    /// bare prefix before the first value and after exhaustion.
    pub fn current_key_back(&self) -> (r: String)
        requires
            self.wf(),
        ensures
            r@ == match self.back_key() {
                Some(k) => k,
                None => self.prefix_spec(),
            },
    {
        match self.it.has_back_key() {
            true => self.it.current_key_back(),
            false => chars_to_string(&self.prefix),
        }
    }
}

/// A double-ended iterator over the values whose key differs from a
/// reference key in at most a budgeted number of positions, a length
/// difference counting one mismatch per extra position.
pub struct TstNeighborIterator<'a, T> {
    it: TstIterator<'a, T>,
}

impl<'a, T> TstNeighborIterator<'a, T> {
    /// The matching entries, in ascending key order.
    pub closed spec fn all_entries(&self) -> Seq<(Seq<char>, T)> {
        self.it.all_entries()
    }

    /// The position of the forward cursor: entries before it are spent.
    pub closed spec fn fpos(&self) -> nat {
        self.it.fpos()
    }

    /// The position of the backward cursor: entries from it on are spent.
    pub closed spec fn bpos(&self) -> nat {
        self.it.bpos()
    }

    /// The key of the entry the forward side handed out most recently.
    pub closed spec fn front_key(&self) -> Option<Seq<char>> {
        self.it.front_key()
    }

    /// The key of the entry the backward side handed out most recently.
    pub closed spec fn back_key(&self) -> Option<Seq<char>> {
        self.it.back_key()
    }

    /// The cursors stand in range and never cross.
    pub closed spec fn wf(&self) -> bool {
        self.it.wf()
    }

    /// An iterator over the values within distance `range` of `key`.
    pub fn new(tst: &'a Tst<T>, key: &str, range: usize) -> (it: Self)
        ensures
            it.wf(),
            it.all_entries() == tst.neighbor_entries(key@, range as nat),
            it.fpos() == 0,
            it.bpos() == it.all_entries().len(),
            it.front_key() is None,
            it.back_key() is None,
    {
        let kv = str_to_chars(key);
        let entries = tst.collect_neighbor(&kv, range);
        TstNeighborIterator { it: TstIterator::from_entries(entries) }
    }

    /// Hands out the next value from the front, or reports that the two
    /// cursors have met.
    pub fn next(&mut self) -> (r: Option<&'a T>)
        requires
            old(self).wf(),
        ensures
            final(self).wf(),
            final(self).all_entries() == old(self).all_entries(),
            old(self).fpos() < old(self).bpos() ==> {
                &&& r is Some
                &&& *r.unwrap() == old(self).all_entries()[old(self).fpos() as int].1
                &&& final(self).fpos() == old(self).fpos() + 1
                &&& final(self).bpos() == old(self).bpos()
                &&& final(self).front_key() == Some(
                    old(self).all_entries()[old(self).fpos() as int].0,
                )
                &&& final(self).back_key() == old(self).back_key()
            },
            old(self).fpos() >= old(self).bpos() ==> {
                &&& r is None
                &&& final(self).fpos() == old(self).fpos()
                &&& final(self).bpos() == old(self).bpos()
                &&& final(self).front_key() is None
                &&& final(self).back_key() is None
            },
    {
        self.it.next()
    }

    /// Hands out the next value from the back, or reports that the two
    /// cursors have met.
    pub fn next_back(&mut self) -> (r: Option<&'a T>)
        requires
            old(self).wf(),
        ensures
            final(self).wf(),
            final(self).all_entries() == old(self).all_entries(),
            old(self).fpos() < old(self).bpos() ==> {
                &&& r is Some
                &&& *r.unwrap() == old(self).all_entries()[old(self).bpos() - 1].1
                &&& final(self).bpos() == old(self).bpos() - 1
                &&& final(self).fpos() == old(self).fpos()
                &&& final(self).back_key() == Some(
                    old(self).all_entries()[old(self).bpos() - 1].0,
                )
                &&& final(self).front_key() == old(self).front_key()
            },
            old(self).fpos() >= old(self).bpos() ==> {
                &&& r is None
                &&& final(self).fpos() == old(self).fpos()
                &&& final(self).bpos() == old(self).bpos()
                &&& final(self).front_key() is None
                &&& final(self).back_key() is None
            },
    {
        self.it.next_back()
    }

    /// The key of the value most recently handed out from the front, or the
    /// empty string before the first value and after exhaustion.
    pub fn current_key(&self) -> (r: String)
        requires
            self.wf(),
        ensures
            r@ == match self.front_key() {
                Some(k) => k,
                None => Seq::<char>::empty(),
            },
    {
        self.it.current_key()
    }

    /// The key of the value most recently handed out from the back, or the
    /// empty string before the first value and after exhaustion.
    pub fn current_key_back(&self) -> (r: String)
        requires
            self.wf(),
        ensures
            r@ == match self.back_key() {
                Some(k) => k,
                None => Seq::<char>::empty(),
            },
    {
        self.it.current_key_back()
    }
}

/// A double-ended iterator over the values whose key matches a pattern
/// position by position, a designated wildcard character matching any
/// label.
pub struct TstCrosswordIterator<'a, T> {
    it: TstIterator<'a, T>,
}

impl<'a, T> TstCrosswordIterator<'a, T> {
    /// The matching entries, in ascending key order.
    pub closed spec fn all_entries(&self) -> Seq<(Seq<char>, T)> {
        self.it.all_entries()
    }

    /// The position of the forward cursor: entries before it are spent.
    pub closed spec fn fpos(&self) -> nat {
        self.it.fpos()
    }

    /// The position of the backward cursor: entries from it on are spent.
    pub closed spec fn bpos(&self) -> nat {
        self.it.bpos()
    }

    /// The key of the entry the forward side handed out most recently.
    pub closed spec fn front_key(&self) -> Option<Seq<char>> {
        self.it.front_key()
    }

    /// The key of the entry the backward side handed out most recently.
    pub closed spec fn back_key(&self) -> Option<Seq<char>> {
        self.it.back_key()
    }

    /// The cursors stand in range and never cross.
    pub closed spec fn wf(&self) -> bool {
        self.it.wf()
    }

    /// An iterator over the values matching `key` under the wildcard
    /// `joker`.
    pub fn new(tst: &'a Tst<T>, key: &str, joker: char) -> (it: Self)
        ensures
            it.wf(),
            it.all_entries() == tst.crossword_entries(key@, joker),
            it.fpos() == 0,
            it.bpos() == it.all_entries().len(),
            it.front_key() is None,
            it.back_key() is None,
    {
        let kv = str_to_chars(key);
        let entries = tst.collect_crossword(&kv, joker);
        TstCrosswordIterator { it: TstIterator::from_entries(entries) }
    }

    /// Hands out the next value from the front, or reports that the two
    /// cursors have met.
    pub fn next(&mut self) -> (r: Option<&'a T>)
        requires
            old(self).wf(),
        ensures
            final(self).wf(),
            final(self).all_entries() == old(self).all_entries(),
            old(self).fpos() < old(self).bpos() ==> {
                &&& r is Some
                &&& *r.unwrap() == old(self).all_entries()[old(self).fpos() as int].1
                &&& final(self).fpos() == old(self).fpos() + 1
                &&& final(self).bpos() == old(self).bpos()
                &&& final(self).front_key() == Some(
                    old(self).all_entries()[old(self).fpos() as int].0,
                )
                &&& final(self).back_key() == old(self).back_key()
            },
            old(self).fpos() >= old(self).bpos() ==> {
                &&& r is None
                &&& final(self).fpos() == old(self).fpos()
                &&& final(self).bpos() == old(self).bpos()
                &&& final(self).front_key() is None
                &&& final(self).back_key() is None
            },
    {
        self.it.next()
    }

    /// Hands out the next value from the back, or reports that the two
    /// cursors have met.
    pub fn next_back(&mut self) -> (r: Option<&'a T>)
        requires
            old(self).wf(),
        ensures
            final(self).wf(),
            final(self).all_entries() == old(self).all_entries(),
            old(self).fpos() < old(self).bpos() ==> {
                &&& r is Some
                &&& *r.unwrap() == old(self).all_entries()[old(self).bpos() - 1].1
                &&& final(self).bpos() == old(self).bpos() - 1
                &&& final(self).fpos() == old(self).fpos()
                &&& final(self).back_key() == Some(
                    old(self).all_entries()[old(self).bpos() - 1].0,
                )
                &&& final(self).front_key() == old(self).front_key()
            },
            old(self).fpos() >= old(self).bpos() ==> {
                &&& r is None
                &&& final(self).fpos() == old(self).fpos()
                &&& final(self).bpos() == old(self).bpos()
                &&& final(self).front_key() is None
                &&& final(self).back_key() is None
            },
    {
        self.it.next_back()
    }

    /// The key of the value most recently handed out from the front, or the
    /// empty string before the first value and after exhaustion.
    pub fn current_key(&self) -> (r: String)
        requires
            self.wf(),
        ensures
            r@ == match self.front_key() {
                Some(k) => k,
                None => Seq::<char>::empty(),
            },
    {
        self.it.current_key()
    }

    /// The key of the value most recently handed out from the back, or the
    /// empty string before the first value and after exhaustion.
    pub fn current_key_back(&self) -> (r: String)
        requires
            self.wf(),
        ensures
            r@ == match self.back_key() {
                Some(k) => k,
                None => Seq::<char>::empty(),
            },
    {
        self.it.current_key_back()
    }
}

impl<T> Tst<T> {
    /// An iterator over the values stored under keys strictly extending
    /// `prefix`, in key order from either end.
    pub fn iter_complete(&self, prefix: &str) -> (it: TstCompleteIterator<T>)
        ensures
            it.wf(),
            it.prefix_spec() == prefix@,
            it.all_entries() == self.prefix_entries(prefix@),
            it.fpos() == 0,
            it.bpos() == it.all_entries().len(),
            it.front_key() is None,
            it.back_key() is None,
    {
        TstCompleteIterator::new(self, prefix)
    }

    /// An iterator over the values within distance `range` of `key`, in key
    /// order from either end.
    pub fn iter_neighbor(&self, key: &str, range: usize) -> (it: TstNeighborIterator<T>)
        ensures
            it.wf(),
            it.all_entries() == self.neighbor_entries(key@, range as nat),
            it.fpos() == 0,
            it.bpos() == it.all_entries().len(),
            it.front_key() is None,
            it.back_key() is None,
    {
        TstNeighborIterator::new(self, key, range)
    }

    /// An iterator over the values matching `key` under the wildcard
    /// `joker`, in key order from either end.
    pub fn iter_crossword(&self, key: &str, joker: char) -> (it: TstCrosswordIterator<T>)
        ensures
            it.wf(),
            it.all_entries() == self.crossword_entries(key@, joker),
            it.fpos() == 0,
            it.bpos() == it.all_entries().len(),
            it.front_key() is None,
            it.back_key() is None,
    {
        TstCrosswordIterator::new(self, key, joker)
    }
}

} // verus!
