//! A verified ternary search tree: an ordered associative container mapping
//! string keys to values, with four search policies — exhaustive,
//! prefix-restricted, bounded-mismatch ("neighbor") and wildcard-pattern
//! ("crossword") — each available as a one-shot visitor and as a
//! double-ended, resumable iterator.

mod diag;
mod iter;
mod matchers;
mod order;
mod prefix;
mod tree;
mod visit_mut;
mod walk;

pub use tree::Tst;
pub use diag::{DistStat, KeyLenStat, CountStat, BytesStat, Stats};
pub use iter::{TstIterator, TstCompleteIterator, TstNeighborIterator, TstCrosswordIterator};
pub use iter::lemma_two_ended_partition;
pub use matchers::{hamming, cw_match, lemma_neighbor_entries_agree, lemma_crossword_entries_agree};
pub use order::{key_lt, lemma_key_lt_from_diff, lemma_key_lt_prefix, lemma_key_lt_irrefl, lemma_key_lt_trans};
pub use walk::{lemma_entries_agree_with_map, lemma_empty_tree, lemma_len_is_key_count, lemma_prefix_entries_agree, lemma_prefix_entries_empty};
