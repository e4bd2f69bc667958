//! A solver for Flow Free puzzles: a rectangular grid holds pairs of colored endpoints, and
//! every color must be joined by a simple path so that the paths together cover the grid.
//!
//! - `grid`: the grid, reading it from a puzzle text, and drawing it.
//! - `point`: colored points and how a color's second endpoint is found.
//! - `paths`: the enumeration of each color's candidate paths.
//! - `propagate`: the forced-cell and exclusive-region filters and the coverage check.
//! - `search`: the fixpoint loop, the backtracking search and the painted solution.
pub mod grid;
pub mod paths;
pub mod point;
pub mod propagate;
pub mod search;
