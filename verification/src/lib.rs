pub mod errors;
pub mod grid;
pub mod solver;
pub mod text;
