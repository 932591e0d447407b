//! Finite-automaton construction and determinization for regular expressions.
//!
//! Expressions are assembled by combinators: a single-character fragment is the
//! only leaf, and concatenation, alternation and the three closure operators
//! rewrite fragment graphs in place.  A completed fragment is determinized by
//! subset construction into a DFA, which answers literal string matches.

pub mod model;
pub mod nfa;
pub mod closure;
pub mod dfa;
pub mod language;
