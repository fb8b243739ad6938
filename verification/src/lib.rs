//! Letters, keys and keyboards for designing keyboard layouts with fewer keys
//! than letters, and the bit-level sets they are built on.

pub mod bitset;
pub mod letter;
pub mod text;
pub mod set32;
pub mod popcount;
pub mod subsets;
pub mod util;
pub mod bits;
pub mod u5;
pub mod u6;
pub mod random;
pub mod key;
pub mod collections;
pub mod prohibited;
pub mod arrange;
pub mod tally;
pub mod partitions;
pub mod key_sizes_tree;
pub mod keyboard;
pub mod key_set;
pub mod letter_pair;
pub mod letter_pair_set;
pub mod trie;
pub mod letter_map;
pub mod item_count;
pub mod partitionable;
pub mod utility;
pub mod distribute;
pub mod search;
pub mod spelling;
pub mod tally2;
pub mod fill_in;
pub mod genetic;
pub mod penalty_goal;
pub mod lazy_tree;
pub mod word_overlap;
pub mod text_order;
