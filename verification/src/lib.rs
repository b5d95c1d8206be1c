//! Legal-move generation for backgammon positions.
//!
//! The board is a fixed 26-slot signed occupancy vector (24 points and two
//! bars); two interchangeable generators — a scalar point-by-point scan and
//! a wide-lane rotate-and-mask pass — derive the single-die moves and
//! compose them into the complete, deduplicated set of positions reachable
//! from a dice roll, doubles included. Both generators are verified against
//! the same exact specification of the movement rules (forced bar entry,
//! capture, blocking, bear-off eligibility), so they agree by contract; the
//! laws module states and proves the further properties generation obeys.

pub mod decision;
pub mod game;
pub mod laws;
pub mod movegen;
pub mod types;
pub mod util;

pub use crate::game::Game;
pub use crate::game::GameState;
pub use crate::movegen::basic::BasicMoveGenerator;
pub use crate::movegen::simd::Simd1MoveGenerator;
pub use crate::movegen::MoveGen;
pub use crate::types::board::Board;
pub use crate::types::board::BoardCoord;
pub use crate::types::dice::Dice;
pub use crate::types::dice::Die;
pub use crate::types::prim::BAndW;
pub use crate::types::prim::BOrW;
pub use crate::types::prim::Bw;
