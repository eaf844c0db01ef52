//! Verified solvers for a collection of small, independent puzzles.
//!
//! Each module solves one puzzle: it reads the text of the puzzle, and its
//! solvers state in their contracts what they compute from it. The modules
//! `text`, `shapes`, `counting`, `marks` and `grid_walk` are shared by the
//! others.

pub mod int_ops;
pub mod antennas;
pub mod calibration;
pub mod circuit;
pub mod claw;
pub mod computer;
pub mod counting;
pub mod disk;
pub mod garden;
pub mod grid_walk;
pub mod reports;
pub mod robots;
pub mod secrets;
pub mod shapes;
pub mod stones;
pub mod text;
pub mod towels;
pub mod trails;
pub mod warehouse;
pub mod wiring;
pub mod word_search;
pub mod keypads;
pub mod location_lists;
pub mod locks;
pub mod marks;
pub mod maze;
pub mod memory_grid;
pub mod mul_scan;
pub mod network;
pub mod pages;
pub mod patrol;
pub mod race_track;
