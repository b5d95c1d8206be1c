//! The turn-level game state: a board plus whose roll is pending.
//!
//! A surrounding game loop rolls the dice, asks for the legal moves, has a
//! policy pick one, and hands board and dice back here; this module holds
//! the verified transitions between turns.

use vstd::prelude::*;

use crate::movegen::{unique_moves_post, MoveGen};
use crate::types::board::{spec_winner, starting_board, Board};
use crate::types::dice::Dice;
use crate::types::prim::Bw;

verus! {

/// A running game: the current board and the pending turn.
#[derive(Debug, Clone)]
pub struct Game {
    pub board: Board,
    pub state: GameState,
}

/// Either a player holding a fresh roll, or a finished game with its winner.
#[derive(Debug, Clone)]
pub enum GameState {
    Dice(Bw, Dice),
    Finished(Bw),
}

impl Game {
    /// A well-formed game: the board keeps the checker invariants and a
    /// pending roll is a real roll.
    pub open spec fn wf(self) -> bool {
        &&& self.board.wf()
        &&& match self.state {
            GameState::Dice(_, dice) => dice.valid(),
            GameState::Finished(_) => true,
        }
    }

    /// Opens a game on the starting board with a non-double opening roll:
    /// the higher die picks the player to move first.
    pub fn new(dice: Dice) -> (r: Game)
        requires
            dice.valid(),
            dice.0 != dice.1,
        ensures
            r.wf(),
            r.board@ == starting_board(),
            r.state == GameState::Dice(
                if dice.0.0 > dice.1.0 {
                    Bw::White
                } else {
                    Bw::Black
                },
                dice,
            ),
    {
        let player = if dice.0.0 > dice.1.0 {
            Bw::White
        } else {
            Bw::Black
        };
        Game { board: Board::default(), state: GameState::Dice(player, dice) }
    }

    /// All boards the player to move can reach with the pending roll; empty
    /// means a forced pass.
    pub fn next_moves<Generator: MoveGen>(&self) -> (r: Vec<Board>)
        requires
            self.wf(),
            self.state is Dice,
        ensures
            self.state matches GameState::Dice(player, dice) ==> unique_moves_post(
                self.board@,
                dice,
                player,
                r@,
            ),
    {
        match self.state {
            GameState::Dice(player, dice) => Generator::gen_unique_moves(
                &self.board,
                dice,
                player,
            ),
            GameState::Finished(_) => {
                proof {
                    assert(false);
                }
                Vec::new()
            },
        }
    }

    /// Installs the chosen board without checking its legality, then either
    /// finishes the game if that board has a winner or passes the turn to
    /// the opponent with the next roll.
    pub fn make_move_unchecked(&mut self, dice: Dice, new_board: Board)
        requires
            old(self).state is Dice,
            dice.valid(),
            new_board.wf(),
        ensures
            final(self).wf(),
            final(self).board == new_board,
            old(self).state matches GameState::Dice(player, prev) ==> final(self).state == match
                spec_winner(new_board@) {
                Some(w) => GameState::Finished(w),
                None => GameState::Dice(player.spec_opponent(), dice),
            },
    {
        let player = match self.state {
            GameState::Dice(p, _) => p,
            GameState::Finished(_) => {
                proof {
                    assert(false);
                }
                Bw::White
            },
        };
        self.board = new_board;
        match self.board.winner() {
            Some(w) => {
                self.state = GameState::Finished(w);
            },
            None => {
                self.state = GameState::Dice(player.opponent(), dice);
            },
        }
    }

    /// Passes the turn to the opponent with the next roll, leaving the board
    /// as it stands: the move a player must make when no move is legal.
    pub fn skip_move_by_necessity(&mut self, dice: Dice)
        requires
            old(self).wf(),
            old(self).state is Dice,
            dice.valid(),
        ensures
            final(self).wf(),
            final(self).board == old(self).board,
            old(self).state matches GameState::Dice(player, prev) ==> final(self).state
                == GameState::Dice(player.spec_opponent(), dice),
    {
        let player = match self.state {
            GameState::Dice(p, _) => p,
            GameState::Finished(_) => {
                proof {
                    assert(false);
                }
                Bw::White
            },
        };
        self.state = GameState::Dice(player.opponent(), dice);
    }

    /// Whether the game has ended with a winner.
    pub fn is_finished(&self) -> (r: bool)
        ensures
            r <==> self.state is Finished,
    {
        match self.state {
            GameState::Finished(_) => true,
            GameState::Dice(_, _) => false,
        }
    }
}

} // verus!
