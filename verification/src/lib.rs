//! Verified grid puzzles: a maze engine with weighted turns at its core,
//! and a collection of smaller grid, arithmetic and simulation routines.

pub mod antennas;
pub mod calibration;
pub mod claw;
pub mod computer;
pub mod garden;
pub mod graph;
pub mod keypad;
pub mod lattice;
pub mod lists;
pub mod locks;
pub mod machine;
pub mod marks;
pub mod maze;
pub mod memory;
pub mod memory_scan;
pub mod network;
pub mod patrol;
pub mod queue;
pub mod race;
pub mod regions;
pub mod reindeer;
pub mod reports;
pub mod robots;
pub mod secrets;
pub mod stones;
pub mod text;
pub mod towels;
pub mod trails;
pub mod warehouse;
pub mod wordsearch;
