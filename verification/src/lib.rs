//! Classic data structures for algorithmic problem solving: Fenwick trees
//! (point and range variants), a generic segment tree, a disjoint-set
//! structure, and a fixed-size bit vector, all with verified contracts.

mod binary_search;
mod bit;
mod bit_array;
mod grid;
mod permutation;
mod random;
mod segment_tree;
mod union_find;

pub use bit::{sum_range, sums_fit, seq_add_on, in_i64, lemma_sum_split, lemma_sum_zero,
    lemma_sum_update, lemma_sum_bound, lemma_bounded_sums_fit, BIT, BITRange};
pub use bit_array::{nth_bit, BitArray};
pub use segment_tree::{reduce, lemma_reduce_empty, lemma_reduce_unchanged, Monoid, MinOp, MaxOp,
    SegmentTree, RMQ};
pub use binary_search::{sorted, lower_bound, upper_bound};
pub use grid::{dir4, dir4_ok, next_dir4, try_adj, adj4_iter, Adj4};
pub use permutation::{non_increasing, non_decreasing, lex_gt, next_permutation, prev_permutation};
pub use random::XorShift;
pub use union_find::{connected, class_of, merged, lemma_class_bounds, lemma_connected_equivalence,
    UnionFind};
