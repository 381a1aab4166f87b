//! Diagnostic passes: aggregate size and shape statistics, and a textual
//! graph export of the tree structure.  Both are single read-only walks
//! with no search policy; tallies that could exceed the machine word
//! saturate instead of overflowing.

use vstd::prelude::*;
use crate::tree::{Link, Node, Tst, node_count};
use crate::walk::kv_views;
use vstd::string::{StrSliceExecFns, StringExecFns};

verus! {

/// Per-bucket tallies of the value distribution: how many values sit at a
/// given key length (`matches`), number of side steps (`sides`), and node
/// depth (`depth`).
#[derive(Default, PartialEq, Debug)]
pub struct DistStat {
    pub matches: usize,
    pub sides: usize,
    pub depth: usize,
}

/// The shortest and longest stored key length; both zero for an empty tree.
#[derive(Default, PartialEq, Debug)]
pub struct KeyLenStat {
    pub min: usize,
    pub max: usize,
}

/// How many nodes the tree has, and how many of them hold a value.
#[derive(Default, PartialEq, Debug)]
pub struct CountStat {
    pub nodes: usize,
    pub values: usize,
}

/// The size of one node and an estimate of the whole tree's footprint.
#[derive(Default, PartialEq, Debug)]
pub struct BytesStat {
    pub node: usize,
    pub total: usize,
}

/// Aggregate statistics over a tree.
#[derive(Default, PartialEq, Debug)]
pub struct Stats {
    pub dist: Vec<DistStat>,
    pub key_len: KeyLenStat,
    pub count: CountStat,
    pub bytes: BytesStat,
}

/// Counts the nodes of the subtree, saturating at the machine word.
fn count_nodes_r<T>(link: &Link<T>) -> (r: usize)
    ensures
        node_count(*link) > usize::MAX ==> r == usize::MAX,
        node_count(*link) <= usize::MAX ==> r == node_count(*link),
    decreases link,
{
    match link {
        None => 0,
        Some(n) => {
            let a = count_nodes_r(&n.left);
            let b = count_nodes_r(&n.middle);
            let c = count_nodes_r(&n.right);
            1usize.saturating_add(a).saturating_add(b).saturating_add(c)
        },
    }
}

/// Fills the per-bucket distribution tallies, walking every node once;
/// `matches`, `sides` and `depth` describe the path to `link` and each
/// tally saturates rather than overflowing.
fn stat_dist_r<T>(link: &Link<T>, dist: &mut Vec<DistStat>, matches: usize, sides: usize, depth: usize)
    requires
        matches <= depth,
        sides <= depth,
    decreases link,
{
    match link {
        None => {},
        Some(n) => {
            let d1 = depth.saturating_add(1);
            stat_dist_r(&n.left, dist, matches, sides.saturating_add(1), d1);
            if n.value.is_some() {
                let m1 = matches.saturating_add(1);
                while dist.len() <= d1
                    decreases d1 + 1 - dist@.len(),
                {
                    dist.push(DistStat { matches: 0, sides: 0, depth: 0 });
                }
                let e = &mut dist[m1];
                e.matches = e.matches.saturating_add(1);
                let e = &mut dist[sides];
                e.sides = e.sides.saturating_add(1);
                let e = &mut dist[d1];
                e.depth = e.depth.saturating_add(1);
            }
            stat_dist_r(&n.middle, dist, matches.saturating_add(1), sides, d1);
            stat_dist_r(&n.right, dist, matches, sides.saturating_add(1), d1);
        },
    }
}

impl<T> Tst<T> {
    /// One read-only pass computing aggregate statistics: value and node
    /// counts, stored key length extrema, an approximate memory footprint,
    /// and the per-bucket value distribution.
    pub fn stat(&self) -> (r: Stats)
        requires
            self.well_formed(),
        ensures
            r.count.values == self.spec_len(),
            self.spec_node_count() <= usize::MAX ==> r.count.nodes == self.spec_node_count(),
            r.count.nodes * r.bytes.node <= usize::MAX ==> r.bytes.total >= r.count.nodes
                * r.bytes.node,
            self.spec_len() == 0 ==> r.key_len.min == 0 && r.key_len.max == 0,
            self.spec_len() > 0 ==> {
                &&& forall|j: int|
                    0 <= j < self.entries_spec().len() ==> r.key_len.min <= (
                    #[trigger] self.entries_spec()[j]).0.len() <= r.key_len.max
                &&& exists|j: int|
                    0 <= j < self.entries_spec().len() && (#[trigger] self.entries_spec()[j]).0.len()
                        == r.key_len.min
                &&& exists|j: int|
                    0 <= j < self.entries_spec().len() && (#[trigger] self.entries_spec()[j]).0.len()
                        == r.key_len.max
            },
    {
        proof {
            crate::walk::lemma_prefix_entries_empty(self);
            crate::walk::lemma_entries_agree_with_map(self);
        }
        let entries = self.collect_prefix(Vec::new());
        let values = self.len();
        let nodes = count_nodes_r(&self.root);
        proof {
            crate::tree::lemma_tst_internals(self);
        }
        let mut min: usize = 0;
        let mut max: usize = 0;
        let ghost es = self.entries_spec();
        let mut i: usize = 0;
        while i < entries.len()
            invariant
                i <= entries@.len(),
                kv_views(entries@) == es,
                i == 0 ==> min == 0 && max == 0,
                i > 0 ==> {
                    &&& forall|j: int| 0 <= j < i ==> min <= (#[trigger] es[j]).0.len() <= max
                    &&& exists|j: int| 0 <= j < i && (#[trigger] es[j]).0.len() == min
                    &&& exists|j: int| 0 <= j < i && (#[trigger] es[j]).0.len() == max
                },
            decreases entries@.len() - i,
        {
            let l = entries[i].0.len();
            proof {
                assert(es[i as int].0 == entries@[i as int].0@);
            }
            if i == 0 {
                min = l;
                max = l;
            } else {
                if l < min {
                    min = l;
                }
                if l > max {
                    max = l;
                }
            }
            i = i + 1;
        }
        let mut dist: Vec<DistStat> = Vec::new();
        stat_dist_r(&self.root, &mut dist, 0, 0, 0);
        let node_bytes = core::mem::size_of::<Node<T>>();
        let node_total = match nodes.checked_mul(node_bytes) {
            Some(p) => p,
            None => usize::MAX,
        };
        let total = core::mem::size_of::<Tst<T>>().saturating_add(node_total);
        Stats {
            dist,
            key_len: KeyLenStat { min, max },
            count: CountStat { nodes, values },
            bytes: BytesStat { node: node_bytes, total },
        }
    }
}

/// The decimal digits of a number, for the graph export's node names.
fn usize_to_string(n: usize) -> (r: String)
    ensures
        r@.len() > 0,
{
    let mut digits: Vec<char> = Vec::new();
    if n == 0 {
        digits.push('0');
    } else {
        let mut m = n;
        while m > 0
            decreases m,
        {
            let d = m % 10;
            let c = if d == 0 {
                '0'
            } else if d == 1 {
                '1'
            } else if d == 2 {
                '2'
            } else if d == 3 {
                '3'
            } else if d == 4 {
                '4'
            } else if d == 5 {
                '5'
            } else if d == 6 {
                '6'
            } else if d == 7 {
                '7'
            } else if d == 8 {
                '8'
            } else {
                '9'
            };
            digits.push(c);
            m = m / 10;
        }
    }
    let mut rev: Vec<char> = Vec::new();
    let mut i: usize = digits.len();
    while i > 0
        invariant
            i <= digits@.len(),
            rev@.len() == digits@.len() - i,
        decreases i,
    {
        i = i - 1;
        rev.push(digits[i]);
    }
    proof {
        reveal_strlit("0");
    }
    if rev.len() == 0 {
        String::from_str("0")
    } else {
        crate::walk::chars_to_string(&rev)
    }
}

/// Appends one graph edge from node `from` to node `to`, if there is one.
fn dot_edge(out: &mut String, from: &String, to: Option<usize>, style: &str)
    ensures
        final(out)@.len() >= old(out)@.len(),
{
    match to {
        None => {},
        Some(c) => {
            let cs = usize_to_string(c);
            out.append("n");
            out.append(from.as_str());
            out.append(" -> n");
            out.append(cs.as_str());
            out.append(" [style=");
            out.append(style);
            out.append("]\n");
        },
    }
}

/// Appends one node statement and the edges to its children, walking the
/// subtree; numbers the nodes in visiting order and hands back this node's
/// number.
fn dot_r<T>(link: &Link<T>, out: &mut String, next: &mut usize) -> (r: Option<usize>)
    ensures
        final(out)@.len() >= old(out)@.len(),
    decreases link,
{
    match link {
        None => None,
        Some(n) => {
            let id = *next;
            *next = id.saturating_add(1);
            let idstr = usize_to_string(id);
            let mut cv: Vec<char> = Vec::new();
            cv.push(n.label);
            let cs = crate::walk::chars_to_string(&cv);
            out.append("n");
            out.append(idstr.as_str());
            out.append(" [label=\"");
            out.append(if n.value.is_some() {
                "[x]"
            } else {
                "[ ]"
            });
            out.append(" ");
            out.append(cs.as_str());
            out.append("\"]\n");
            let li = dot_r(&n.left, out, next);
            let mi = dot_r(&n.middle, out, next);
            let ri = dot_r(&n.right, out, next);
            dot_edge(out, &idstr, li, "solid");
            dot_edge(out, &idstr, mi, "bold");
            dot_edge(out, &idstr, ri, "solid");
            Some(id)
        },
    }
}

impl<T> Tst<T> {
    /// A textual graph description of the tree's structure, one statement
    /// per node, each labelled with its character and whether it stores a
    /// value, and one edge per child link, the `middle` edges bold.  The
    /// text is a graph block: it opens with a `digraph` line and closes
    /// with the matching brace.
    pub fn pretty_print(&self) -> (r: String)
        ensures
            r@.len() > 2,
            r@.take(("digraph {\n"@).len() as int) == "digraph {\n"@,
            r@.skip(r@.len() - 2) == "}\n"@,
    {
        let mut body = String::new();
        let mut next: usize = 0;
        dot_r(&self.root, &mut body, &mut next);
        proof {
            reveal_strlit("digraph {\nnode [shape=plaintext]\n");
            reveal_strlit("digraph {\n");
            reveal_strlit("}\n");
        }
        let mut out = String::from_str("digraph {\nnode [shape=plaintext]\n");
        out.append(body.as_str());
        out.append("}\n");
        proof {
            assert(out@.take(("digraph {\n"@).len() as int) =~= "digraph {\n"@);
            assert(out@.skip(out@.len() - 2) =~= "}\n"@);
        }
        out
    }
}

} // verus!
