//! A Sudoku hint engine: candidate bookkeeping, the Naked Single and Hidden
//! Single techniques, and a backtracking search that decides solvability.
pub mod advice;
pub mod diagnosis;
pub mod engine;
pub mod grid;
pub mod mask;
pub mod solution;
pub mod strategies;
pub mod strategy;
pub mod sudoku;
pub mod text;
