//! Layout of a room graph: classifies the exits between rooms, splits the
//! rooms into planes joined by cardinal exits, and places every room of a
//! plane on an integer grid.

pub mod model;
pub mod order;
pub mod parser;
