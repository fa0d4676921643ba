use flipchess::chess::{Chess, Chessboard, Status, Turn};
use flipchess::mcts::{evaluate_board, interpret_evaluation_for_player, StateEval};

fn board_of(rows: [&str; 6], turn: Turn) -> Chessboard {
    let mut cells: Vec<Chess> = Vec::new();
    for row in rows.iter() {
        for ch in row.chars() {
            match ch {
                'A' => cells.push(Chess::A),
                'B' => cells.push(Chess::B),
                '.' => cells.push(Chess::Void),
                _ => panic!("unexpected cell character"),
            }
        }
    }
    assert_eq!(cells.len(), 36);
    Chessboard { cells, next_turn: turn }
}

#[test]
fn win_for_b_when_a_is_gone() {
    // Zero side-A cells and at least one side-B cell: side B wins.
    let b = board_of(
        ["......", "..B...", "......", "....B.", "......", "......"],
        Turn::A,
    );
    assert_eq!(b.check(), Status::Win(Turn::B));
}

#[test]
fn win_for_a_when_b_is_gone() {
    let b = board_of(
        ["A.....", "......", "......", "......", "......", ".A...."],
        Turn::B,
    );
    assert_eq!(b.check(), Status::Win(Turn::A));
}

#[test]
fn free_while_both_sides_have_pieces() {
    let b = Chessboard::new();
    assert_eq!(b.check(), Status::Free(Turn::A));
    let c = board_of(
        ["A....B", "......", "......", "......", "......", "......"],
        Turn::B,
    );
    assert_eq!(c.check(), Status::Free(Turn::B));
}

#[test]
fn empty_board_is_free() {
    let b = board_of(
        ["......", "......", "......", "......", "......", "......"],
        Turn::B,
    );
    assert_eq!(b.check(), Status::Free(Turn::B));
}

#[test]
fn state_counts_pieces() {
    let b = Chessboard::new();
    assert_eq!(b.state(), (5, 5));
    let c = board_of(
        ["AAB...", "......", "B.....", "......", "......", "....B."],
        Turn::A,
    );
    assert_eq!(c.state(), (2, 3));
}

#[test]
fn evaluation_of_open_position() {
    let b = Chessboard::new();
    assert_eq!(evaluate_board(&b, &Turn::A), StateEval::Eval(5));
    let c = board_of(
        ["AAB...", "......", "B.....", "......", "......", "....B."],
        Turn::A,
    );
    // Two A pieces, three B pieces: the heuristic rewards the computer
    // for holding fewer pieces than its opponent.
    assert_eq!(evaluate_board(&c, &Turn::A), StateEval::Eval(3 - 2 + 5));
    assert_eq!(evaluate_board(&c, &Turn::B), StateEval::Eval(2 - 3 + 5));
}

#[test]
fn evaluation_of_decided_position() {
    let b = board_of(
        ["......", "..B...", "......", "......", "......", "......"],
        Turn::A,
    );
    assert_eq!(evaluate_board(&b, &Turn::A), StateEval::Win(Turn::B));
}

#[test]
fn interpretation_flips_sign_for_the_opponent() {
    let win = StateEval::Win(Turn::A);
    assert_eq!(interpret_evaluation_for_player(&win, &Turn::A, &Turn::A), 1_000_000_000);
    assert_eq!(interpret_evaluation_for_player(&win, &Turn::B, &Turn::A), -1_000_000_000);
    let ev = StateEval::Eval(7);
    assert_eq!(interpret_evaluation_for_player(&ev, &Turn::B, &Turn::B), 7);
    assert_eq!(interpret_evaluation_for_player(&ev, &Turn::A, &Turn::B), -7);
}
