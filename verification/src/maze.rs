//! The maze engine: a grid with walls, a walker that moves forward or turns
//! in place, the cheapest way from start to end, and every tile that lies on
//! some cheapest way.

pub mod grid;
pub mod heading;
pub mod route;
pub mod table;
pub mod laws;
pub mod solve;
pub mod search;
pub mod tiles;
pub mod frontier;
