pub mod bits;
pub mod board;
pub mod movegen;
pub mod eval;
pub mod counts;
pub mod clock;
pub mod search;
pub mod game;
pub mod symmetry;
