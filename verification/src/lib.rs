//! Rule engine of a five-in-a-row marble game: a square board of coloured
//! balls, reachability of a move, detection of runs of five or more, and the
//! turn sequence that ties them together.

pub mod ball;
pub mod board;
pub mod chance;
pub mod grid;
pub mod lines;
pub mod solver;
pub mod pathfinding;
pub mod scoring;
pub mod game;
