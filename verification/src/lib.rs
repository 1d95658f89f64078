//! A regular-expression engine built on labeled directed multigraphs.
//!
//! A pattern is compiled by a recursive-descent parser into a
//! nondeterministic finite automaton (NFA), represented as a multigraph
//! whose edges carry arrow labels.  The NFA can be executed directly as a
//! multi-state simulation, or through a lazily built, memoized subset
//! construction (a DFA overlay).  Matching is an unanchored search: the
//! pattern matches if it occurs anywhere in the input, unless anchored
//! with `^` or `$`.

pub mod dfa;
pub mod graph;
pub mod nfa;
pub mod parser;
