//! Solvers for a collection of small puzzles, with a tile jigsaw at the
//! centre: square bitmaps are placed on a plane so that touching edges agree,
//! the interiors are stitched into one image, and a fixed motif is searched in
//! it under all eight orientations.
//!
//! The jigsaw: `grid`, `manipulation`, `tile`, `edge`, `catalog`, `solution`,
//! `solver`, `assemble`, `symmetry`, `motif`, `error`, and `jigsaw` for the
//! whole way from the texts of the tiles to the answers.  `text` and
//! `pattern` serve every puzzle that reads text.  Each of the other modules
//! is one smaller puzzle.
pub mod grid;
pub mod manipulation;
pub mod error;
pub mod tile;
pub mod edge;
pub mod catalog;
pub mod solution;
pub mod solver;
pub mod assemble;
pub mod motif;
pub mod symmetry;
pub mod jigsaw;
pub mod text;
pub mod pattern;
pub mod adapters;
pub mod allergen;
pub mod bags;
pub mod bus;
pub mod combat;
pub mod console;
pub mod cups;
pub mod customs;
pub mod docking;
pub mod expense;
pub mod expr;
pub mod grammar;
pub mod handshake;
pub mod hexfloor;
pub mod lattice;
pub mod memory;
pub mod passport;
pub mod password;
pub mod seat;
pub mod seating;
pub mod ship;
pub mod slope;
pub mod ticket;
pub mod xmas;
