//! An SLR(1) parser-table generator: it reads a context-free grammar, computes
//! FIRST and FOLLOW sets as least fixed points, builds the canonical collection of
//! LR(0) states of the augmented grammar, and fills the SLR(1) ACTION/GOTO table,
//! marking conflicts.

pub mod automaton;
pub mod bits;
pub mod first_follow;
pub mod grammar;
pub mod reader;
pub mod render;
pub mod slr;
pub mod table;
