//! Traces and the set of traces seen so far.

pub mod trace_trie;
