//! Lexicographic ordering of keys, the order in which the exhaustive walk
//! yields values.

use vstd::prelude::*;

verus! {

/// Strict lexicographic order on keys: the empty key comes first, and
/// otherwise the first differing character decides.
pub open spec fn key_lt(a: Seq<char>, b: Seq<char>) -> bool
    decreases a.len(),
{
    if b.len() == 0 {
        false
    } else if a.len() == 0 {
        true
    } else if (a[0] as u32) < (b[0] as u32) {
        true
    } else if (a[0] as u32) > (b[0] as u32) {
        false
    } else {
        key_lt(a.skip(1), b.skip(1))
    }
}

/// Keys that agree up to position `m` and differ there are ordered by the
/// characters at `m`.
pub proof fn lemma_key_lt_from_diff(a: Seq<char>, b: Seq<char>, m: int)
    requires
        0 <= m < a.len(),
        m < b.len(),
        a.take(m) == b.take(m),
        (a[m] as u32) < (b[m] as u32),
    ensures
        key_lt(a, b),
    decreases m,
{
    if m == 0 {
    } else {
        assert(a.take(m)[0] == a[0]);
        assert(b.take(m)[0] == b[0]);
        assert(a.skip(1).take(m - 1) =~= a.take(m).skip(1));
        assert(b.skip(1).take(m - 1) =~= b.take(m).skip(1));
        assert(a.skip(1)[m - 1] == a[m]);
        assert(b.skip(1)[m - 1] == b[m]);
        lemma_key_lt_from_diff(a.skip(1), b.skip(1), m - 1);
    }
}

/// A proper prefix of a key comes strictly before it.
pub proof fn lemma_key_lt_prefix(a: Seq<char>, b: Seq<char>)
    requires
        a.len() < b.len(),
        b.take(a.len() as int) == a,
    ensures
        key_lt(a, b),
    decreases a.len(),
{
    if a.len() == 0 {
    } else {
        assert(b.take(a.len() as int)[0] == b[0]);
        assert(b.skip(1).take(a.len() - 1) =~= b.take(a.len() as int).skip(1));
        assert(a.skip(1) =~= b.take(a.len() as int).skip(1).take(a.len() - 1));
        lemma_key_lt_prefix(a.skip(1), b.skip(1));
    }
}

/// The order is irreflexive.
pub proof fn lemma_key_lt_irrefl(a: Seq<char>)
    ensures
        !key_lt(a, a),
    decreases a.len(),
{
    if a.len() > 0 {
        lemma_key_lt_irrefl(a.skip(1));
    }
}

/// The order is transitive.
pub proof fn lemma_key_lt_trans(a: Seq<char>, b: Seq<char>, c: Seq<char>)
    requires
        key_lt(a, b),
        key_lt(b, c),
    ensures
        key_lt(a, c),
    decreases a.len(),
{
    if a.len() > 0 && b.len() > 0 && c.len() > 0 {
        if (a[0] as u32) == (b[0] as u32) && (b[0] as u32) == (c[0] as u32) {
            lemma_key_lt_trans(a.skip(1), b.skip(1), c.skip(1));
        }
    }
}

} // verus!
