//! Regular expressions compiled to nondeterministic finite automata.
//!
//! The pattern text is split into tokens, parsed into a syntax tree, and the
//! tree is compiled into an arena of states that can be simulated against
//! text or walked at random to produce strings the pattern accepts.
pub mod text;
pub mod tokenizer;
pub mod parser;
pub mod nfa;
pub mod thompson;
pub mod semantics;
pub mod laws;
