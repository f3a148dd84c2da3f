//! A lexer generator core: terminal rules written as regular expressions are
//! compiled into one deterministic automaton over a partition of the code
//! point range.
//!
//! A rule file is read into rules ([`parser`], after the grammar in
//! [`grammar`]). The code points that the terminal rules name cut the code
//! point range into an alphabet of intervals ([`alphabet`]). Over it the
//! rules become an automaton with empty moves ([`nfa`]), whose sets of
//! states become the states of a deterministic automaton ([`dfa`]). The
//! [`lexer`] holds that automaton; [`scanner`] reads text with it, and
//! [`codegen`] gives the writers of lexer source what they need of it.
//!
//! What the automata accept is said in [`language`], what the elements of
//! rules match in [`meaning`]. The lexer accepts a word under a name where a
//! terminal rule of that name matches it, and nowhere else ([`exact`]).
pub mod alphabet;
pub mod codegen;
pub mod dfa;
pub mod error;
pub mod exact;
pub mod flags;
pub mod grammar;
pub mod language;
pub mod lexer;
pub mod meaning;
pub mod nfa;
pub mod parser;
pub mod rules;
pub mod scanner;
pub mod text;
