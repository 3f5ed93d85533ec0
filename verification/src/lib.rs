//! A fuzzy regular expression engine: lazy DFA for exact patterns,
//! Bitap and Damerau-Levenshtein machinery for approximate literals,
//! and capture-group bookkeeping.

pub mod hash;
pub mod nfa;
pub mod state_set;
pub mod text;
pub mod bytesearch;
pub mod simd_class;
pub mod prefilter;
pub mod dfa;
pub mod captures;
pub mod damlev;
pub mod osa;
pub mod bitap;
pub mod fuzzy_nfa;
pub mod edit_scan;
pub mod cached;
pub mod guard_nfa;
