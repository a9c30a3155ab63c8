//! A Game-of-Life automaton with an afterglow on cells that have just died,
//! which reports after each generation only the cells whose colour changed.

pub mod automata;
pub mod board;
pub mod color;
pub mod laws;
