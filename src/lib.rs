//! Canonical LR(0) item-set collection and shift/reduce/goto table
//! construction for context-free grammars.
//!
//! `gramatica` holds the grammar model and the reader of production lines,
//! `fecho` the items and their closure, `transicoes` the grouping of items
//! into transitions and the transition pool, `automato` the construction of
//! the states, and `tabela` the action/goto table of a finished automaton.
pub mod automato;
pub mod fecho;
pub mod gramatica;
pub mod tabela;
pub mod transicoes;
