use flipchess::chess::rules::{count_cross, count_snake, Axis, Tense};
use flipchess::chess::{flip, Chess, Chessboard, Operation, Turn};

fn board_of(rows: [&str; 6], turn: Turn) -> Chessboard {
    let mut cells: Vec<Chess> = Vec::new();
    for row in rows.iter() {
        for ch in row.chars() {
            match ch {
                'A' => cells.push(Chess::A),
                'B' => cells.push(Chess::B),
                '.' => cells.push(Chess::Void),
                _ => panic!("unexpected cell character"),
            }
        }
    }
    assert_eq!(cells.len(), 36);
    Chessboard { cells, next_turn: turn }
}

fn cells_of(b: &Chessboard) -> Vec<Chess> {
    let mut out: Vec<Chess> = Vec::new();
    for r in 0..6 {
        for c in 0..6 {
            out.push(b.get(r, c));
        }
    }
    out
}

#[test]
fn snake_in_one_row() {
    let b = board_of(
        ["......", "......", "ABABA.", "......", "......", "......"],
        Turn::A,
    );
    let snakes = count_snake(&b);
    assert_eq!(snakes.len(), 1);
    let s = &snakes[0];
    assert_eq!(s.axis, Axis::Row);
    assert_eq!(s.index, 2);
    assert_eq!(s.slice, (0, 5));
    assert_eq!(*s.tense(), Tense::A);
}

#[test]
fn snake_split_at_equal_neighbours() {
    // In "AABA" the leading "A" cannot alternate with the second "A":
    // the only snake is the trailing "ABA".
    let b = board_of(
        ["AABA..", "......", "......", "......", "......", "......"],
        Turn::A,
    );
    let snakes = count_snake(&b);
    assert_eq!(snakes.len(), 1);
    let s = &snakes[0];
    assert_eq!(s.axis, Axis::Row);
    assert_eq!(s.index, 0);
    assert_eq!(s.slice, (1, 4));
    assert_eq!(*s.tense(), Tense::A);
}

#[test]
fn snake_of_two_is_neutral() {
    let b = board_of(
        ["......", "......", "......", "AB....", "......", "......"],
        Turn::A,
    );
    let snakes = count_snake(&b);
    assert_eq!(snakes.len(), 1);
    assert_eq!(*snakes[0].tense(), Tense::Neutral);
    // A neutral snake alone resolves cleanly but flips nothing.
    let flipped = flip(b.clone());
    assert_eq!(cells_of(&flipped), cells_of(&b));
}

#[test]
fn monochrome_run_is_no_snake() {
    let b = board_of(
        ["AAA...", "......", "......", "......", "......", "......"],
        Turn::A,
    );
    assert_eq!(count_snake(&b).len(), 0);
}

#[test]
fn crosses_group_intersecting_snakes() {
    // A row snake and a column snake meeting at (2,2) form one cross; a
    // separate two-cell snake at the bottom forms its own.
    let b = board_of(
        ["..A...", "..B...", ".BABA.", "......", "......", "AB...."],
        Turn::A,
    );
    let snakes = count_snake(&b);
    assert_eq!(snakes.len(), 3);
    let crosses = count_cross(&snakes);
    assert_eq!(crosses.len(), 2);
    let mut sizes: Vec<usize> = crosses.iter().map(|c| c.snakes().len()).collect();
    sizes.sort();
    assert_eq!(sizes, vec![1, 2]);
}

#[test]
fn resolving_cross_flips_multiple_cells() {
    // The column snake A-B-A through (0..2, 2) and the row snake ABABA in
    // row 2 form one cross whose tendencies agree on A: resolving it flips
    // the two row Bs and the column B in one move.
    let pre = board_of(
        ["..A...", "..B...", ".BABA.", "A.....", "......", "......"],
        Turn::A,
    );
    let post = pre.next(3, 0, Operation::Up).expect("legal move");
    let expect = board_of(
        ["..A...", "..A...", "AAAAA.", "......", "......", "......"],
        Turn::B,
    );
    assert_eq!(cells_of(&post), cells_of(&expect));
    assert_eq!(post.next_turn, Turn::B);
}

#[test]
fn stuck_cross_flips_nothing() {
    // Row BABAB tends to B, the perpendicular column A-B-A tends to A:
    // the cross is stuck and no cell changes despite both snakes having
    // tendencies of their own.
    let b = board_of(
        ["......", "......", "BABAB.", ".B....", ".A....", "......"],
        Turn::A,
    );
    let snakes = count_snake(&b);
    assert_eq!(snakes.len(), 2);
    let crosses = count_cross(&snakes);
    assert_eq!(crosses.len(), 1);
    assert_eq!(crosses[0].snakes().len(), 2);
    let flipped = flip(b.clone());
    assert_eq!(cells_of(&flipped), cells_of(&b));
}

#[test]
fn lone_snake_resolves_to_its_own_tendency() {
    let b = board_of(
        ["......", "......", "..BAB.", "......", "......", "......"],
        Turn::A,
    );
    let flipped = flip(b);
    let expect = board_of(
        ["......", "......", "..BBB.", "......", "......", "......"],
        Turn::A,
    );
    assert_eq!(cells_of(&flipped), cells_of(&expect));
}

#[test]
fn neutral_member_of_resolving_cross_stays_untouched() {
    // The neutral row snake B-A-B-A crosses the column snake A-B-A, whose
    // tendency A resolves the cross.  Only the column snake flips its
    // span: the cells the neutral snake alone covers keep their colours.
    let b = board_of(
        [".A....", ".B....", "....A.", "..BABA", "....A.", "......"],
        Turn::A,
    );
    let snakes = count_snake(&b);
    assert_eq!(snakes.len(), 3);
    let flipped = flip(b);
    let expect = board_of(
        [".A....", ".B....", "....A.", "..BAAA", "....A.", "......"],
        Turn::A,
    );
    assert_eq!(cells_of(&flipped), cells_of(&expect));
}

#[test]
fn second_pass_can_differ_from_first() {
    // The pipeline runs once per move on purpose: re-running it on its own
    // output can undo a flip when the flipped span forms a new snake with
    // its neighbours.
    let b = board_of(
        [".A....", "BBB...", ".A....", "......", "......", "......"],
        Turn::A,
    );
    let once = flip(b);
    let expect = board_of(
        [".A....", "BAB...", ".A....", "......", "......", "......"],
        Turn::A,
    );
    assert_eq!(cells_of(&once), cells_of(&expect));
    let twice = flip(once.clone());
    assert_ne!(cells_of(&twice), cells_of(&once));
}
