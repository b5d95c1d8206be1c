//! Move-selection policies: a pure choice from a generated move list.

use rand::seq::SliceRandom;

use vstd::prelude::*;

use crate::types::board::Board;
use crate::types::prim::Bw;

verus! {

/// A policy that picks one board out of a non-empty list of legal moves.
pub trait MoveDecision {
    /// Picks the move to play; the result is one of the offered boards.
    fn choose_move(&mut self, player: Bw, moves: Vec<Board>) -> (r: Board)
        requires
            moves@.len() > 0,
        ensures
            exists|i: int| 0 <= i < moves@.len() && r == moves@[i],
    ;
}

/// The policy that picks a move uniformly at random, carrying its own
/// generator.
pub struct RandomMoveDecision<R>(pub R);

/// rand's standard seedable generator, opaque to the verifier.
#[verifier::external_type_specification]
#[verifier::external_body]
pub struct ExStdRng(rand::rngs::StdRng);

/// Relies on rand's `SliceRandom::choose`: nothing for an empty slice, some
/// element of the slice otherwise, drawn with the given generator.
#[verifier::external_body]
fn choose_board(moves: &Vec<Board>, rng: &mut rand::rngs::StdRng) -> (r: Option<Board>)
    ensures
        r is None <==> moves@.len() == 0,
        r is Some ==> exists|i: int| 0 <= i < moves@.len() && r == Some(moves@[i]),
{
    moves.choose(rng).copied()
}

impl MoveDecision for RandomMoveDecision<rand::rngs::StdRng> {
    fn choose_move(&mut self, _player: Bw, moves: Vec<Board>) -> (r: Board) {
        match choose_board(&moves, &mut self.0) {
            Some(b) => b,
            None => {
                proof {
                    assert(false);
                }
                Board::empty()
            },
        }
    }
}

} // verus!
