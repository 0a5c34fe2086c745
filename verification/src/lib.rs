//! Subway is a skip list: an ordered associative container built from stacked
//! linked levels, an alternative to self-balancing trees such as AVL or
//! red-black trees.
//!
//! It supports insertion, exact-key lookup, nearest-key lookup (bisection),
//! deletion and in-order enumeration, with expected logarithmic cost from
//! randomized structural balancing.
pub mod skiplist;
