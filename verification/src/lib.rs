//! A solver for Sudoku-variant puzzles.
//!
//! A puzzle is a 9-by-9 grid of optional given digits plus a list of
//! configurable rules (cages, thermometers, renban lines, Kropki dots and so
//! on).  Every rule compiles itself into assertions over a pool of integer
//! and boolean expression nodes owned by a per-solve session; the assertions
//! are then handed to an external satisfiability engine, and a model read
//! back from the engine is checked, cell by cell, against the compiled
//! assertions before it is reported as a solution.

pub mod arena;
pub mod constraint;
pub mod engine;
pub mod expr;
pub mod parse;
pub mod solver;
pub mod sudoku;
