//! The game controller: owns the root board and the mark to move, sequences
//! turns, and answers terminal-state queries.

use crate::board::lemma_move_check_cases;
use crate::board::spec_all_empty;
use crate::board::spec_move_check;
use crate::board::spec_moved;
use crate::board::spec_path_ok;
use crate::board::spec_state;
use crate::board::spec_wf;
use crate::board::Board;
use crate::board::BoardState;
use crate::board::MoveError;
use crate::board::Player;
use vstd::prelude::*;

verus! {

/// A game in play: the root board tree and the mark whose turn it is. The
/// mark to move alternates exactly once per accepted move and is untouched
/// by rejected ones; once the root board resolves, the game is finished and
/// every further move is rejected.
#[derive(Debug, PartialEq, Eq)]
pub struct Game {
    pub board: Board,
    pub mark_to_move: Player,
}

impl Game {
    /// Well-formedness: the root tree keeps its fixed 3x3-per-level shape.
    pub open spec fn wf(self) -> bool {
        spec_wf(self.board)
    }

    /// Whether the game has reached a final outcome.
    pub open spec fn spec_finished(self) -> bool {
        !(spec_state(self.board) is Running)
    }

    /// Starts a game on an empty tree of the given depth; `First` moves
    /// first.
    pub fn new(depth: u8) -> (g: Game)
        ensures
            g.wf(),
            g.board.depth == depth,
            spec_all_empty(g.board),
            spec_state(g.board) == BoardState::Running,
            g.mark_to_move == Player::First,
    {
        let board = Board::new(depth);
        Game { board, mark_to_move: Player::First }
    }

    /// The final outcome as a winner query: `None` while the game runs,
    /// `Some(Some(p))` once `p` has won, `Some(None)` once drawn.
    pub fn winner(&self) -> (w: Option<Option<Player>>)
        requires
            self.wf(),
        ensures
            w == (match spec_state(self.board) {
                BoardState::Complete(x) => Some(x),
                BoardState::Running => None::<Option<Player>>,
            }),
    {
        match self.board.state() {
            BoardState::Complete(x) => Some(x),
            BoardState::Running => None,
        }
    }

    /// The current outcome of the root board.
    pub fn outcome(&self) -> (o: BoardState)
        requires
            self.wf(),
        ensures
            o == spec_state(self.board),
    {
        self.board.state()
    }

    /// The mark that moves next, `None` once the game is finished.
    pub fn current_player(&self) -> (r: Option<Player>)
        requires
            self.wf(),
        ensures
            r == (if self.spec_finished() {
                None::<Player>
            } else {
                Some(self.mark_to_move)
            }),
    {
        match self.board.state() {
            BoardState::Running => Some(self.mark_to_move),
            BoardState::Complete(_) => None,
        }
    }

    /// Submits a move for the mark to move, addressed by one 1-indexed
    /// `(row, col)` pair per tree level. On acceptance the addressed empty
    /// leaf cell takes the mark and the mark to move alternates; on any
    /// rejection — a finished game, a wrong path length, a resolved
    /// sub-board on the way down, or an occupied cell — the whole
    /// controller state is left exactly as it was.
    pub fn submit_move(&mut self, path: &Vec<(u8, u8)>) -> (r: Result<(), MoveError>)
        requires
            old(self).wf(),
            spec_path_ok(path@),
        ensures
            final(self).wf(),
            final(self).board.depth == old(self).board.depth,
            match r {
                Ok(()) => {
                    &&& !old(self).spec_finished()
                    &&& spec_move_check(old(self).board, path@) is None
                    &&& spec_moved(
                        old(self).board,
                        final(self).board,
                        path@,
                        old(self).mark_to_move,
                    )
                    &&& final(self).mark_to_move == old(self).mark_to_move.spec_swap()
                },
                Err(e) => {
                    &&& *final(self) == *old(self)
                    &&& if e == MoveError::GameOver {
                        old(self).spec_finished()
                    } else {
                        !old(self).spec_finished() && spec_move_check(old(self).board, path@)
                            == Some(e)
                    }
                },
            },
    {
        match self.board.state() {
            BoardState::Complete(_) => {
                return Err(MoveError::GameOver);
            },
            BoardState::Running => {
            },
        }
        let r = self.board.make_move(self.mark_to_move, path);
        match r {
            Ok(()) => {
                self.mark_to_move = self.mark_to_move.swap();
                Ok(())
            },
            Err(e) => {
                proof {
                    lemma_move_check_cases(old(self).board, path@);
                }
                Err(e)
            },
        }
    }
}

} // verus!
