pub mod generator;
pub mod grid;
pub mod paths;
pub mod rng;
pub mod solver;
