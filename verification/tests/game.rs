use flipchess::chess::{Chess, Chessboard, Errors, Operation, Status, Turn};

fn board_of(rows: [&str; 6], turn: Turn) -> Chessboard {
    let mut cells: Vec<Chess> = Vec::new();
    for row in rows.iter() {
        for ch in row.chars() {
            match ch {
                'A' => cells.push(Chess::A),
                'B' => cells.push(Chess::B),
                '.' => cells.push(Chess::Void),
                _ => panic!("unexpected cell character"),
            }
        }
    }
    assert_eq!(cells.len(), 36);
    Chessboard { cells, next_turn: turn }
}

fn cells_of(b: &Chessboard) -> Vec<Chess> {
    let mut out: Vec<Chess> = Vec::new();
    for r in 0..6 {
        for c in 0..6 {
            out.push(b.get(r, c));
        }
    }
    out
}

#[test]
fn opening_layout() {
    let b = Chessboard::new();
    assert_eq!(b.next_turn, Turn::A);
    assert_eq!(b.get(2, 0), Chess::A);
    assert_eq!(b.get(1, 0), Chess::A);
    assert_eq!(b.get(0, 0), Chess::A);
    assert_eq!(b.get(0, 1), Chess::A);
    assert_eq!(b.get(0, 2), Chess::A);
    assert_eq!(b.get(3, 5), Chess::B);
    assert_eq!(b.get(4, 5), Chess::B);
    assert_eq!(b.get(5, 5), Chess::B);
    assert_eq!(b.get(5, 4), Chess::B);
    assert_eq!(b.get(5, 3), Chess::B);
    let expect = board_of(
        ["AAA...", "A.....", "A.....", ".....B", ".....B", "...BBB"],
        Turn::A,
    );
    assert_eq!(cells_of(&b), cells_of(&expect));
}

#[test]
fn cell_ownership_check() {
    assert!(Chess::A.check(&Turn::A));
    assert!(Chess::B.check(&Turn::B));
    assert!(!Chess::B.check(&Turn::A));
    assert!(!Chess::A.check(&Turn::B));
    assert!(!Chess::Void.check(&Turn::A));
    assert!(!Chess::Void.check(&Turn::B));
}

#[test]
fn opening_move_right_into_empty() {
    // Opening grid, piece at (2,0) moved right into (2,1): the destination
    // was empty, becomes side A, and nothing else changes but the move.
    let b = Chessboard::new();
    assert_eq!(b.get(2, 1), Chess::Void);
    let nb = b.next(2, 0, Operation::Right).expect("legal move");
    assert_eq!(nb.get(2, 0), Chess::Void);
    assert_eq!(nb.get(2, 1), Chess::A);
    assert_eq!(nb.next_turn, Turn::B);
    let expect = board_of(
        ["AAA...", "A.....", ".A....", ".....B", ".....B", "...BBB"],
        Turn::B,
    );
    assert_eq!(cells_of(&nb), cells_of(&expect));
}

#[test]
fn error_out_of_bound_origin() {
    let b = Chessboard::new();
    match b.next(-1, 0, Operation::Up) {
        Err(Errors::OutOfBound) => {}
        other => panic!("expected OutOfBound, got {:?}", other),
    }
}

#[test]
fn error_out_of_bound_destination() {
    let b = Chessboard::new();
    match b.next(0, 0, Operation::Up) {
        Err(Errors::OutOfBound) => {}
        other => panic!("expected OutOfBound, got {:?}", other),
    }
}

#[test]
fn error_wrong_turn() {
    let b = Chessboard::new();
    match b.next(3, 5, Operation::Left) {
        Err(Errors::WrongTurn) => {}
        other => panic!("expected WrongTurn, got {:?}", other),
    }
}

#[test]
fn error_stuck_destination_occupied() {
    let b = Chessboard::new();
    match b.next(1, 0, Operation::Up) {
        Err(Errors::Stuck) => {}
        other => panic!("expected Stuck, got {:?}", other),
    }
}

#[test]
fn conservation_across_moves() {
    // The total piece count stays at ten across a sequence of moves,
    // including one that resolves a cross and flips pieces.
    let mut b = Chessboard::new();
    let (a0, b0) = b.state();
    assert_eq!(a0 + b0, 10);
    for (r, c, op) in [
        (2, 0, Operation::Right),
        (3, 5, Operation::Left),
        (2, 1, Operation::Down),
        (3, 4, Operation::Left),
    ] {
        b = b.next(r, c, op).expect("legal move");
        let (na, nb) = b.state();
        assert_eq!(na + nb, 10);
    }
}

#[test]
fn flip_conserves_pieces() {
    let pre = board_of(
        ["..A...", "..B...", ".BABA.", "A.....", "......", "......"],
        Turn::A,
    );
    let (a0, b0) = pre.state();
    let post = pre.next(3, 0, Operation::Up).expect("legal move");
    let (a1, b1) = post.state();
    assert_eq!(a0 + b0, a1 + b1);
}

#[test]
fn determinism_of_apply_move() {
    let b = Chessboard::new();
    let n1 = b.next(2, 0, Operation::Right).expect("legal move");
    let n2 = b.next(2, 0, Operation::Right).expect("legal move");
    assert_eq!(cells_of(&n1), cells_of(&n2));
    assert_eq!(n1.next_turn, n2.next_turn);
    let stuck = board_of(
        ["......", "......", "BABAB.", ".B....", ".A....", "......"],
        Turn::B,
    );
    let m1 = stuck.next(2, 4, Operation::Down).expect("legal move");
    let m2 = stuck.next(2, 4, Operation::Down).expect("legal move");
    assert_eq!(cells_of(&m1), cells_of(&m2));
}

#[test]
fn available_on_opening() {
    let b = Chessboard::new();
    let moves = b.available();
    let expected: Vec<(i32, i32, Operation)> = vec![
        (0, 1, Operation::Down),
        (0, 2, Operation::Down),
        (0, 2, Operation::Right),
        (1, 0, Operation::Right),
        (2, 0, Operation::Down),
        (2, 0, Operation::Right),
    ];
    assert_eq!(moves.len(), expected.len());
    for m in expected.iter() {
        assert!(moves.contains(m), "missing move {:?}", m);
    }
}

#[test]
fn available_moves_are_playable() {
    let b = Chessboard::new();
    for (r, c, op) in b.available() {
        assert!(b.next(r, c, op).is_ok());
    }
}
