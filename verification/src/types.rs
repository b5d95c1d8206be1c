pub mod board;
pub mod dice;
pub mod prim;
