//! A 9×9 Sudoku solver: bit sets of digits and cells, a lazy subset enumerator, constraint
//! propagation and backtracking search.
pub mod bitset;
pub mod combination;
pub mod utils;
pub mod sudoku;
