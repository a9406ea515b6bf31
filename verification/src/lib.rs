//! Two-state cellular automata of the Life family on a bit-packed grid.
//!
//! A generation is computed from the previous one through a table that maps
//! every 4x3 window of cells to the next state of the two cells in the middle
//! of it. The mathematical model of the automaton lives in [`life`]; the
//! other modules are proved against it.

pub mod automata;
pub mod collector;
pub mod engine;
pub mod error;
pub mod field;
pub mod life;
pub mod rule;
pub mod scheduler;
pub mod seed;
pub mod table;
