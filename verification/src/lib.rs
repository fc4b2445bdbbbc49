//! Exact substring search with the Knuth-Morris-Pratt automaton.
//!
//! The library has two components. The failure-function builder turns a
//! pattern into its partial-match table: for every pattern position `q`,
//! the length of the longest proper prefix of `pattern[0 ..= q]` that is
//! also a suffix of it, stored as that length minus one (`-1` meaning
//! "no reusable prefix"). The matcher then scans a search text once,
//! left to right, and reports the start offset of every occurrence of
//! the pattern, overlapping ones included.
//!
//! Both components are proved against the mathematical definitions in
//! [`borders`]: every reported offset is a real occurrence, every
//! occurrence is reported exactly once, and the offsets come out in
//! increasing order.

pub mod borders;
pub mod kmp;
