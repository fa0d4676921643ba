//! Pure evaluation functions for the tree-search opponent.
//!
//! The search itself drives playouts through an external engine; what it
//! needs from the game — scoring a position and reading a score from one
//! player's viewpoint — is pure arithmetic over piece counts and lives
//! here, verified.

use vstd::prelude::*;

use crate::chess::{count_of, lemma_count_pre_bounds, status_spec, Chess, Chessboard, Status, Turn};

verus! {

/// What a position is worth before interpretation: a decided game, or a
/// heuristic score.
#[derive(Clone, Copy, Debug, PartialEq, Eq, Structural)]
pub enum StateEval {
    Win(Turn),
    Eval(i32),
}

/// The evaluation of a board for the side the search plays: the winner
/// where the game is decided, else the piece-count heuristic.
pub open spec fn eval_spec(b: Chessboard, computer: Turn) -> StateEval {
    match status_spec(b) {
        Status::Win(t) => StateEval::Win(t),
        Status::Free(_) => {
            let num_comp = if computer == Turn::A {
                count_of(b.grid(), Chess::A)
            } else {
                count_of(b.grid(), Chess::B)
            };
            let num_player = if computer == Turn::A {
                count_of(b.grid(), Chess::B)
            } else {
                count_of(b.grid(), Chess::A)
            };
            StateEval::Eval((num_player - num_comp + 5) as i32)
        },
    }
}

/// Score a position for the computer's side.  A decided game reports its
/// winner; otherwise the score rewards the computer for holding fewer
/// pieces than its opponent (the win condition inverts the usual aim),
/// plus a fixed offset.
pub fn evaluate_board(board: &Chessboard, computer: &Turn) -> (ev: StateEval)
    requires
        board.wf(),
    ensures
        ev == eval_spec(*board, *computer),
{
    match board.check() {
        Status::Win(who) => StateEval::Win(who),
        Status::Free(_) => {
            let (num_a, num_b) = board.state();
            proof {
                lemma_count_pre_bounds(board.grid(), Chess::A, board.grid().len() as int);
                lemma_count_pre_bounds(board.grid(), Chess::B, board.grid().len() as int);
            }
            let (num_comp, num_player) = match computer {
                Turn::A => (num_a, num_b),
                Turn::B => (num_b, num_a),
            };
            StateEval::Eval(num_player - num_comp + 5)
        },
    }
}

/// The score of an evaluation seen from one player's side: negated when
/// that player is not the computer.  A decided game is worth an extremal
/// magnitude, far beyond any heuristic score.
pub open spec fn interpret_spec(ev: StateEval, player: Turn, computer: Turn) -> int {
    let factor: int = if player == computer {
        1
    } else {
        -1
    };
    let magnitude: int = match ev {
        StateEval::Win(_) => 1000000000,
        StateEval::Eval(x) => x as int,
    };
    factor * magnitude
}

/// Read an evaluation from one player's viewpoint during backpropagation.
pub fn interpret_evaluation_for_player(
    evaluation: &StateEval,
    player: &Turn,
    computer: &Turn,
) -> (score: i64)
    ensures
        score as int == interpret_spec(*evaluation, *player, *computer),
{
    let factor: i64 = if *player == *computer {
        1
    } else {
        -1
    };
    let magnitude: i64 = match evaluation {
        StateEval::Win(_) => 1000000000,
        StateEval::Eval(x) => *x as i64,
    };
    factor * magnitude
}

} // verus!
