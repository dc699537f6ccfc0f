//! Conway's Game of Life in a tree of nested squares: each block of cells is
//! one cell or four blocks of half its side, and a block that is not touched
//! is shared from one generation to the next.
//!
//! A [`world::World`] holds the tree, counts the generations and advances by
//! Conway's rule; [`node::CC`] is the tree; [`table::LookupTable`] holds the
//! rule, one entry for each window of three cells by three; [`grid::Grid`]
//! is the set of cells that a world starts from, and [`loader`] reads one
//! from text. What each function returns is stated over the set of live
//! cells, and [`life::life_step`] says what one generation of the rule does
//! to such a set.

pub mod cell;
pub mod generation;
pub mod geometry;
pub mod grid;
pub mod life;
pub mod loader;
pub mod node;
pub mod node_lemmas;
pub mod table;
pub mod windows;
pub mod world;
