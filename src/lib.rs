//! FIRST and FOLLOW sets, the canonical LR(0) automaton and SLR(1) parsing
//! tables of context-free grammars.
//!
//! A [`grammar::Grammar`] is numbered into a [`grammar::IndexedGrammar`];
//! FIRST ([`first`]) and FOLLOW ([`follow`]) are least fixpoints over it, the
//! automaton ([`lr0`]) is built from an augmented grammar, and [`slr`]
//! assembles the table, refusing grammars that are not SLR(1).
pub mod symbol;
pub mod grammar;
mod rule_index;
pub mod rows;
pub mod first;
pub mod follow;
pub mod lr0;
pub mod counting;
pub mod slr;
pub mod table;
