//! The grid state, move validation and the flip-resolution pipeline.

use vstd::prelude::*;

pub mod link;
pub mod rules;
pub mod uf;

use crate::chess::rules::{
    count_cross, count_snake, covers, flip_cell, flipped_by_members, flipped_by_prefix,
    in_same_cross, is_snake, lemma_append_keeps, lemma_flip_cell_covered,
    lemma_same_cross_in_board, lemma_spec_flip_cell, same_cross_in, snake_in_bounds, spec_flip,
    spec_flips, spec_stuck, Snake, Tense,
};

verus! {

/// Side length of the (square) board.
pub const N: usize = 6;

/// The contents of one cell.
#[derive(Clone, Copy, Debug, PartialEq, Eq, Structural, Hash)]
pub enum Chess {
    A,
    B,
    Void,
}

/// Whose move it is.
#[derive(Clone, Copy, Debug, PartialEq, Eq, Structural, Hash)]
pub enum Turn {
    A,
    B,
}

/// A unit offset in row/column space.
#[derive(Clone, Copy, Debug, PartialEq, Eq, Structural)]
pub enum Operation {
    Up,
    Down,
    Left,
    Right,
}

/// Whether the game is decided.  `Win(t)` reports the side that still owns
/// pieces once the other side has none left.
#[derive(Clone, Copy, Debug, PartialEq, Eq, Structural)]
pub enum Status {
    Win(Turn),
    Free(Turn),
}

/// The three recoverable ways a proposed move can be rejected.
#[derive(Clone, Copy, Debug, PartialEq, Eq, Structural)]
pub enum Errors {
    OutOfBound,
    WrongTurn,
    Stuck,
}

/// The full game state: a row-major 6x6 cell array plus the side to move.
#[derive(Clone, Debug, Hash)]
pub struct Chessboard {
    pub cells: Vec<Chess>,
    pub next_turn: Turn,
}

/// Position of cell (r, c) in the row-major cell array.
pub open spec fn idx_of(r: int, c: int) -> int {
    r * (N as int) + c
}

/// Is (r, c) a cell of the board?
pub open spec fn on_board(r: int, c: int) -> bool {
    0 <= r < N && 0 <= c < N
}

/// The cell at (r, c) of a row-major grid sequence.
pub open spec fn cell_at(g: Seq<Chess>, r: int, c: int) -> Chess {
    g[idx_of(r, c)]
}

/// The piece colour of a side.
pub open spec fn turn_chess(t: Turn) -> Chess {
    match t {
        Turn::A => Chess::A,
        Turn::B => Chess::B,
    }
}

/// The opposing side.
pub open spec fn other_turn(t: Turn) -> Turn {
    match t {
        Turn::A => Turn::B,
        Turn::B => Turn::A,
    }
}

/// How many of the first `n` cells hold `ch`.
pub open spec fn count_pre(g: Seq<Chess>, ch: Chess, n: int) -> int
    decreases n,
{
    if n <= 0 {
        0
    } else {
        count_pre(g, ch, n - 1) + if g[n - 1] == ch {
            1int
        } else {
            0int
        }
    }
}

/// How many cells of the grid hold `ch`.
pub open spec fn count_of(g: Seq<Chess>, ch: Chess) -> int {
    count_pre(g, ch, g.len() as int)
}

/// The fixed symmetric opening layout: five pieces of each side, clustered
/// in the upper-left and lower-right corners.
pub open spec fn opening_grid() -> Seq<Chess> {
    Seq::new((N * N) as nat, |i: int| Chess::Void)
        .update(idx_of(2, 0), Chess::A)
        .update(idx_of(1, 0), Chess::A)
        .update(idx_of(0, 0), Chess::A)
        .update(idx_of(0, 1), Chess::A)
        .update(idx_of(0, 2), Chess::A)
        .update(idx_of(N as int - 3, N as int - 1), Chess::B)
        .update(idx_of(N as int - 2, N as int - 1), Chess::B)
        .update(idx_of(N as int - 1, N as int - 1), Chess::B)
        .update(idx_of(N as int - 1, N as int - 2), Chess::B)
        .update(idx_of(N as int - 1, N as int - 3), Chess::B)
}

/// The game status determined by the piece counts, per the win condition:
/// a side whose opponent has no pieces left (while it still has some) wins.
pub open spec fn status_spec(b: Chessboard) -> Status {
    if count_of(b.grid(), Chess::A) == 0 && count_of(b.grid(), Chess::B) > 0 {
        Status::Win(Turn::B)
    } else if count_of(b.grid(), Chess::B) == 0 && count_of(b.grid(), Chess::A) > 0 {
        Status::Win(Turn::A)
    } else {
        Status::Free(b.next_turn)
    }
}

impl Chess {
    /// Does this cell hold a piece of the given side?
    pub fn check(&self, turn: &Turn) -> (r: bool)
        ensures
            r == (*self == turn_chess(*turn)),
    {
        *self == match turn {
            Turn::A => Chess::A,
            Turn::B => Chess::B,
        }
    }
}

impl Chessboard {
    /// The board's cells as a row-major sequence.
    pub open spec fn grid(&self) -> Seq<Chess> {
        self.cells@
    }

    /// The cell array has exactly one entry per board cell.
    pub open spec fn wf(&self) -> bool {
        self.cells.len() == N * N
    }

    /// A fresh game: the opening layout, side A to move.
    pub fn new() -> (b: Chessboard)
        ensures
            b.wf(),
            b.grid() == opening_grid(),
            b.next_turn == Turn::A,
    {
        let mut cells: Vec<Chess> = Vec::new();
        let mut i: usize = 0;
        while i < N * N
            invariant
                i <= N * N,
                cells@ =~= Seq::new(i as nat, |j: int| Chess::Void),
            decreases N * N - i,
        {
            cells.push(Chess::Void);
            i = i + 1;
        }
        cells[2 * N] = Chess::A;
        cells[1 * N] = Chess::A;
        cells[0] = Chess::A;
        cells[1] = Chess::A;
        cells[2] = Chess::A;
        cells[(N - 3) * N + (N - 1)] = Chess::B;
        cells[(N - 2) * N + (N - 1)] = Chess::B;
        cells[(N - 1) * N + (N - 1)] = Chess::B;
        cells[(N - 1) * N + (N - 2)] = Chess::B;
        cells[(N - 1) * N + (N - 3)] = Chess::B;
        let b = Chessboard { cells, next_turn: Turn::A };
        proof {
            assert(b.grid() =~= opening_grid());
        }
        b
    }

    /// Read one cell.
    pub fn get(&self, r: usize, c: usize) -> (ch: Chess)
        requires
            self.wf(),
            r < N,
            c < N,
        ensures
            ch == cell_at(self.grid(), r as int, c as int),
    {
        self.cells[r * N + c]
    }

    /// The number of pieces of each side, as `(side A, side B)`.
    pub fn state(&self) -> (r: (i32, i32))
        requires
            self.wf(),
        ensures
            r.0 as int == count_of(self.grid(), Chess::A),
            r.1 as int == count_of(self.grid(), Chess::B),
    {
        let mut num_a: i32 = 0;
        let mut num_b: i32 = 0;
        let mut i: usize = 0;
        while i < N * N
            invariant
                self.wf(),
                i <= N * N,
                num_a as int == count_pre(self.grid(), Chess::A, i as int),
                num_b as int == count_pre(self.grid(), Chess::B, i as int),
            decreases N * N - i,
        {
            proof {
                lemma_count_pre_bounds(self.grid(), Chess::A, i as int + 1);
                lemma_count_pre_bounds(self.grid(), Chess::B, i as int + 1);
            }
            match self.cells[i] {
                Chess::A => {
                    num_a = num_a + 1;
                },
                Chess::B => {
                    num_b = num_b + 1;
                },
                Chess::Void => {},
            }
            i = i + 1;
        }
        (num_a, num_b)
    }

    /// Validate and perform one move: relocate the piece one cell in the
    /// given direction, hand the turn over, and run the flip-resolution
    /// pass on the result.  The input board is untouched.
    pub fn next(&self, r: i32, c: i32, op: Operation) -> (res: Result<Chessboard, Errors>)
        requires
            self.wf(),
        ensures
            next_spec(*self, r as int, c as int, op, res),
    {
        if r < 0 || r >= N as i32 || c < 0 || c >= N as i32 {
            return Err(Errors::OutOfBound);
        }
        let (r2, c2) = match op {
            Operation::Up => (r - 1, c),
            Operation::Down => (r + 1, c),
            Operation::Left => (r, c - 1),
            Operation::Right => (r, c + 1),
        };
        if r2 < 0 || r2 >= N as i32 || c2 < 0 || c2 >= N as i32 {
            return Err(Errors::OutOfBound);
        }
        let orig_idx = (r as usize) * N + (c as usize);
        let dest_idx = (r2 as usize) * N + (c2 as usize);
        let colour = match self.next_turn {
            Turn::A => Chess::A,
            Turn::B => Chess::B,
        };
        if self.cells[orig_idx] != colour {
            return Err(Errors::WrongTurn);
        }
        if self.cells[dest_idx] != Chess::Void {
            return Err(Errors::Stuck);
        }
        let mut cells: Vec<Chess> = Vec::new();
        let mut i: usize = 0;
        while i < N * N
            invariant
                self.wf(),
                i <= N * N,
                cells@ =~= self.grid().subrange(0, i as int),
            decreases N * N - i,
        {
            cells.push(self.cells[i]);
            i = i + 1;
        }
        proof {
            assert(cells@ =~= self.grid());
        }
        let mut nb = Chessboard {
            cells,
            next_turn: match self.next_turn {
                Turn::A => Turn::B,
                Turn::B => Turn::A,
            },
        };
        nb.cells[orig_idx] = Chess::Void;
        nb.cells[dest_idx] = colour;
        proof {
            assert(nb.grid() == moved_grid(
                self.grid(),
                r as int,
                c as int,
                r2 as int,
                c2 as int,
                self.next_turn,
            ));
        }
        Ok(flip(nb))
    }

    /// The legal moves that start from the cell (rr, cc).
    fn cell_moves(&self, rr: usize, cc: usize) -> (res: Vec<(i32, i32, Operation)>)
        requires
            self.wf(),
            rr < N,
            cc < N,
        ensures
            forall|m: (i32, i32, Operation)|
                #[trigger] res@.contains(m) <==> (move_ok(*self, m.0 as int, m.1 as int, m.2)
                    && m.0 == rr as i32 && m.1 == cc as i32),
            forall|k1: int, k2: int| 0 <= k1 < k2 < res@.len() ==> res@[k1] != res@[k2],
    {
        let mut res: Vec<(i32, i32, Operation)> = Vec::new();
        let ghost mut iu: int = -1;
        let ghost mut id: int = -1;
        let ghost mut il: int = -1;
        let ghost mut ir: int = -1;
        let colour = match self.next_turn {
            Turn::A => Chess::A,
            Turn::B => Chess::B,
        };
        if self.cells[rr * N + cc] == colour {
            if rr >= 1 && self.cells[(rr - 1) * N + cc] == Chess::Void {
                proof {
                    iu = res@.len() as int;
                }
                res.push((rr as i32, cc as i32, Operation::Up));
            }
            if rr + 1 < N && self.cells[(rr + 1) * N + cc] == Chess::Void {
                proof {
                    id = res@.len() as int;
                }
                res.push((rr as i32, cc as i32, Operation::Down));
            }
            if cc >= 1 && self.cells[rr * N + (cc - 1)] == Chess::Void {
                proof {
                    il = res@.len() as int;
                }
                res.push((rr as i32, cc as i32, Operation::Left));
            }
            if cc + 1 < N && self.cells[rr * N + (cc + 1)] == Chess::Void {
                proof {
                    ir = res@.len() as int;
                }
                res.push((rr as i32, cc as i32, Operation::Right));
            }
        }
        proof {
            assert forall|m: (i32, i32, Operation)| #[trigger] res@.contains(m) implies (move_ok(
                *self,
                m.0 as int,
                m.1 as int,
                m.2,
            ) && m.0 == rr as i32 && m.1 == cc as i32) by {
                let i = choose|i: int| 0 <= i < res@.len() && res@[i] == m;
            }
            assert forall|m: (i32, i32, Operation)|
                move_ok(*self, m.0 as int, m.1 as int, m.2) && m.0 == rr as i32 && m.1 == cc as i32
                implies #[trigger] res@.contains(m) by {
                if m.2 == Operation::Up {
                    assert(res@[iu] == m);
                } else if m.2 == Operation::Down {
                    assert(res@[id] == m);
                } else if m.2 == Operation::Left {
                    assert(res@[il] == m);
                } else {
                    assert(res@[ir] == m);
                }
            }
        }
        res
    }

    /// Every legal move of the side to move, each as (row, column,
    /// direction).  The list is empty only at or beyond a decided game.
    #[verifier::loop_isolation(false)]
    pub fn available(&self) -> (res: Vec<(i32, i32, Operation)>)
        requires
            self.wf(),
        ensures
            forall|m: (i32, i32, Operation)|
                #[trigger] res@.contains(m) <==> move_ok(*self, m.0 as int, m.1 as int, m.2),
            forall|k1: int, k2: int| 0 <= k1 < k2 < res@.len() ==> res@[k1] != res@[k2],
    {
        let mut res: Vec<(i32, i32, Operation)> = Vec::new();
        let mut rr: usize = 0;
        while rr < N
            invariant
                rr <= N,
                forall|m: (i32, i32, Operation)|
                    #[trigger] res@.contains(m) <==> (move_ok(*self, m.0 as int, m.1 as int, m.2)
                        && (m.0 as int) < rr as int),
                forall|k1: int, k2: int| 0 <= k1 < k2 < res@.len() ==> res@[k1] != res@[k2],
            decreases N - rr,
        {
            let mut cc: usize = 0;
            while cc < N
                invariant
                    cc <= N,
                    forall|m: (i32, i32, Operation)|
                        #[trigger] res@.contains(m) <==> (move_ok(
                            *self,
                            m.0 as int,
                            m.1 as int,
                            m.2,
                        ) && ((m.0 as int) < rr as int || (m.0 as int == rr as int && (m.1 as int)
                            < cc as int))),
                    forall|k1: int, k2: int| 0 <= k1 < k2 < res@.len() ==> res@[k1] != res@[k2],
                decreases N - cc,
            {
                let mut part = self.cell_moves(rr, cc);
                let ghost old_res: Seq<(i32, i32, Operation)> = res@;
                let ghost part_seq: Seq<(i32, i32, Operation)> = part@;
                res.append(&mut part);
                proof {
                    lemma_append_keeps(old_res, part_seq, res@);
                    assert forall|m: (i32, i32, Operation)| #[trigger] res@.contains(m) implies (
                    move_ok(*self, m.0 as int, m.1 as int, m.2) && ((m.0 as int) < rr as int || (
                    m.0 as int == rr as int && (m.1 as int) < cc as int + 1))) by {
                        let i = choose|i: int| 0 <= i < res@.len() && res@[i] == m;
                        if i < old_res.len() {
                            assert(old_res[i] == m);
                            assert(old_res.contains(m));
                        } else {
                            assert(part_seq[i - old_res.len()] == m);
                            assert(part_seq.contains(m));
                        }
                    }
                    assert forall|m: (i32, i32, Operation)|
                        move_ok(*self, m.0 as int, m.1 as int, m.2) && ((m.0 as int) < rr as int
                            || (m.0 as int == rr as int && (m.1 as int) < cc as int + 1)) implies #[trigger]
                    res@.contains(m) by {
                        if (m.0 as int) < rr as int || (m.0 as int == rr as int && (m.1 as int)
                            < cc as int) {
                            assert(old_res.contains(m));
                        } else {
                            assert(m.0 == rr as i32 && m.1 == cc as i32);
                            assert(part_seq.contains(m));
                        }
                    }
                    assert forall|k1: int, k2: int| 0 <= k1 < k2 < res@.len() implies res@[k1]
                        != res@[k2] by {
                        if k1 < old_res.len() && k2 >= old_res.len() {
                            assert(old_res.contains(old_res[k1]));
                            assert(part_seq.contains(part_seq[k2 - old_res.len()]));
                            assert(res@[k1] == old_res[k1]);
                            assert(res@[k2] == part_seq[k2 - old_res.len()]);
                        }
                    }
                }
                cc = cc + 1;
            }
            rr = rr + 1;
        }
        res
    }

    /// The game status of this board, per the win condition.
    pub fn check(&self) -> (st: Status)
        requires
            self.wf(),
        ensures
            st == status_spec(*self),
    {
        let (num_a, num_b) = self.state();
        if num_a == 0 && num_b > 0 {
            Status::Win(Turn::B)
        } else if num_b == 0 && num_a > 0 {
            Status::Win(Turn::A)
        } else {
            Status::Free(self.next_turn)
        }
    }
}

/// The destination cell of a move from (r, c).
pub open spec fn dest_of(r: int, c: int, op: Operation) -> (int, int) {
    match op {
        Operation::Up => (r - 1, c),
        Operation::Down => (r + 1, c),
        Operation::Left => (r, c - 1),
        Operation::Right => (r, c + 1),
    }
}

/// The provisional grid after relocating a piece of side `t` from (r, c)
/// to (r2, c2), before flip resolution.
pub open spec fn moved_grid(g: Seq<Chess>, r: int, c: int, r2: int, c2: int, t: Turn) -> Seq<
    Chess,
> {
    g.update(idx_of(r, c), Chess::Void).update(idx_of(r2, c2), turn_chess(t))
}

/// The move's origin and destination lie on the board, the origin holds a
/// piece of the side to move, and the destination is empty.
pub open spec fn move_ok(b: Chessboard, r: int, c: int, op: Operation) -> bool {
    let (r2, c2) = dest_of(r, c, op);
    &&& on_board(r, c)
    &&& on_board(r2, c2)
    &&& cell_at(b.grid(), r, c) == turn_chess(b.next_turn)
    &&& cell_at(b.grid(), r2, c2) == Chess::Void
}

/// Everything `next` promises: on success, the board one flip-resolution
/// pass after the relocation, with the turn handed over; otherwise the
/// error naming the first failed check.
pub open spec fn next_spec(
    b: Chessboard,
    r: int,
    c: int,
    op: Operation,
    res: Result<Chessboard, Errors>,
) -> bool {
    let (r2, c2) = dest_of(r, c, op);
    match res {
        Ok(nb) => {
            &&& move_ok(b, r, c, op)
            &&& nb.wf()
            &&& nb.next_turn == other_turn(b.next_turn)
            &&& nb.grid() == spec_flip(moved_grid(b.grid(), r, c, r2, c2, b.next_turn))
        },
        Err(e) => match e {
            Errors::OutOfBound => !(on_board(r, c) && on_board(r2, c2)),
            Errors::WrongTurn => on_board(r, c) && on_board(r2, c2) && cell_at(b.grid(), r, c)
                != turn_chess(b.next_turn),
            Errors::Stuck => on_board(r, c) && on_board(r2, c2) && cell_at(b.grid(), r, c)
                == turn_chess(b.next_turn) && cell_at(b.grid(), r2, c2) != Chess::Void,
        },
    }
}

/// Two grids that agree on every board cell are equal.
pub proof fn lemma_grid_pointwise(g1: Seq<Chess>, g2: Seq<Chess>)
    requires
        g1.len() == N * N,
        g2.len() == N * N,
        forall|r: int, c: int| on_board(r, c) ==> cell_at(g1, r, c) == cell_at(g2, r, c),
    ensures
        g1 == g2,
{
    assert forall|i: int| 0 <= i < g1.len() implies g1[i] == g2[i] by {
        let r = i / (N as int);
        let c = i % (N as int);
        assert(0 <= r < 6 && 0 <= c < 6 && r * 6 + c == i) by (nonlinear_arith)
            requires
                0 <= i < 36,
                r == i / 6,
                c == i % 6,
        ;
        assert(on_board(r, c));
        assert(cell_at(g1, r, c) == cell_at(g2, r, c));
    }
    assert(g1 =~= g2);
}

/// One full flip-resolution pass: find the snakes, group them into
/// crosses, resolve each cross, and relabel the spans of the snakes with a
/// tendency in every cleanly resolving cross.  Exactly one pass: cells
/// relabeled here are not re-scanned for new snakes.
#[verifier::loop_isolation(false)]
#[verifier::rlimit(100)]
pub fn flip(board: Chessboard) -> (out: Chessboard)
    requires
        board.wf(),
    ensures
        out.wf(),
        out.next_turn == board.next_turn,
        out.grid() == spec_flip(board.grid()),
{
    let ghost g: Seq<Chess> = board.grid();
    let snakes = count_snake(&board);
    proof {
        assert forall|k: int| 0 <= k < snakes@.len() implies snake_in_bounds(
            #[trigger] snakes@[k],
        ) by {
            assert(is_snake(g, snakes@[k]));
        }
    }
    let crosses = count_cross(&snakes);
    let mut b = board;
    let mut ci: usize = 0;
    while ci < crosses.len()
        invariant
            b.wf(),
            b.next_turn == board.next_turn,
            forall|r: int, c: int|
                on_board(r, c) ==> cell_at(b.grid(), r, c) == (if flipped_by_prefix(
                    g,
                    crosses@,
                    ci as int,
                    r,
                    c,
                ) {
                    flip_cell(g, r, c)
                } else {
                    cell_at(g, r, c)
                }),
        decreases crosses@.len() - ci,
    {
        let members_len = crosses[ci].elements.len();
        let mut resolved: Tense = Tense::Neutral;
        let mut conflict: bool = false;
        let mut k: usize = 0;
        while k < members_len
            invariant
                k <= members_len,
                resolved == Tense::Neutral ==> forall|kk: int|
                    0 <= kk < k ==> (#[trigger] crosses@[ci as int].elements@[kk]).tense
                        == Tense::Neutral,
                resolved != Tense::Neutral ==> exists|kk: int|
                    0 <= kk < k && (#[trigger] crosses@[ci as int].elements@[kk]).tense == resolved,
                !conflict ==> forall|kk: int|
                    0 <= kk < k ==> ((#[trigger] crosses@[ci as int].elements@[kk]).tense
                        == Tense::Neutral || crosses@[ci as int].elements@[kk].tense == resolved),
                conflict ==> exists|k1: int, k2: int|
                    #![trigger crosses@[ci as int].elements@[k1], crosses@[ci as int].elements@[k2]]
                    0 <= k1 < k && 0 <= k2 < k && crosses@[ci as int].elements@[k1].tense
                        == Tense::A && crosses@[ci as int].elements@[k2].tense == Tense::B,
            decreases members_len - k,
        {
            let tk = crosses[ci].elements[k].tense;
            if tk != Tense::Neutral {
                if resolved == Tense::Neutral {
                    resolved = tk;
                } else if resolved != tk {
                    conflict = true;
                }
            }
            k = k + 1;
        }
        if !conflict {
            let mut k2: usize = 0;
            while k2 < members_len
                invariant
                    k2 <= members_len,
                    b.wf(),
                    b.next_turn == board.next_turn,
                    forall|r: int, c: int|
                        on_board(r, c) ==> cell_at(b.grid(), r, c) == (if flipped_by_prefix(
                            g,
                            crosses@,
                            ci as int,
                            r,
                            c,
                        ) || flipped_by_members(
                            g,
                            crosses@[ci as int].elements@,
                            k2 as int,
                            r,
                            c,
                        ) {
                            flip_cell(g, r, c)
                        } else {
                            cell_at(g, r, c)
                        }),
                decreases members_len - k2,
            {
                let member = crosses[ci].elements[k2];
                let ghost before: Seq<Chess> = b.grid();
                if member.tense != Tense::Neutral {
                    proof {
                        assert(snakes@.contains(member));
                        let wi = choose|i: int| 0 <= i < snakes@.len() && snakes@[i] == member;
                        assert(is_snake(g, snakes@[wi]));
                        if spec_stuck(g, member) {
                            let (s1, s2) = choose|s1: Snake, s2: Snake|
                                #[trigger] in_same_cross(g, member, s1) && #[trigger] in_same_cross(
                                    g,
                                    member,
                                    s2,
                                ) && s1.tense == Tense::A && s2.tense == Tense::B;
                            assert(is_snake(g, s1) && is_snake(g, s2));
                            assert(snakes@.contains(s1) && snakes@.contains(s2));
                            let (j1, kk1) = choose|j: int, kk: int|
                                0 <= j < crosses@.len() && 0 <= kk < crosses@[j].elements@.len()
                                    && crosses@[j].elements@[kk] == s1;
                            let (j2, kk2) = choose|j: int, kk: int|
                                0 <= j < crosses@.len() && 0 <= kk < crosses@[j].elements@.len()
                                    && crosses@[j].elements@[kk] == s2;
                            lemma_same_cross_in_board(g, snakes@, member, s1);
                            lemma_same_cross_in_board(g, snakes@, member, s2);
                            assert(same_cross_in(
                                snakes@,
                                crosses@[ci as int].elements@[k2 as int],
                                crosses@[j1].elements@[kk1],
                            ));
                            assert(same_cross_in(
                                snakes@,
                                crosses@[ci as int].elements@[k2 as int],
                                crosses@[j2].elements@[kk2],
                            ));
                            assert(j1 == ci as int && j2 == ci as int);
                            assert(crosses@[ci as int].elements@[kk1].tense == Tense::A);
                            assert(crosses@[ci as int].elements@[kk2].tense == Tense::B);
                            assert(false);
                        }
                        assert(spec_flips(g, member));
                    }
                    member.flip(&mut b);
                    proof {
                        assert forall|r: int, c: int| on_board(r, c) implies cell_at(
                            b.grid(),
                            r,
                            c,
                        ) == (if flipped_by_prefix(g, crosses@, ci as int, r, c)
                            || flipped_by_members(
                            g,
                            crosses@[ci as int].elements@,
                            k2 as int + 1,
                            r,
                            c,
                        ) {
                            flip_cell(g, r, c)
                        } else {
                            cell_at(g, r, c)
                        }) by {
                            if covers(member, r, c) {
                                lemma_flip_cell_covered(g, member, r, c);
                                assert(crosses@[ci as int].elements@[k2 as int] == member);
                                assert(flipped_by_members(
                                    g,
                                    crosses@[ci as int].elements@,
                                    k2 as int + 1,
                                    r,
                                    c,
                                ));
                            } else {
                                assert(cell_at(b.grid(), r, c) == cell_at(before, r, c));
                                if flipped_by_members(
                                    g,
                                    crosses@[ci as int].elements@,
                                    k2 as int + 1,
                                    r,
                                    c,
                                ) && !flipped_by_members(
                                    g,
                                    crosses@[ci as int].elements@,
                                    k2 as int,
                                    r,
                                    c,
                                ) {
                                    let kk = choose|kk: int|
                                        0 <= kk < k2 as int + 1 && spec_flips(
                                            g,
                                            #[trigger] crosses@[ci as int].elements@[kk],
                                        ) && covers(crosses@[ci as int].elements@[kk], r, c);
                                    assert(kk == k2 as int);
                                    assert(false);
                                }
                            }
                        }
                    }
                } else {
                    proof {
                        assert forall|r: int, c: int| on_board(r, c) implies cell_at(
                            b.grid(),
                            r,
                            c,
                        ) == (if flipped_by_prefix(g, crosses@, ci as int, r, c)
                            || flipped_by_members(
                            g,
                            crosses@[ci as int].elements@,
                            k2 as int + 1,
                            r,
                            c,
                        ) {
                            flip_cell(g, r, c)
                        } else {
                            cell_at(g, r, c)
                        }) by {
                            if flipped_by_members(
                                g,
                                crosses@[ci as int].elements@,
                                k2 as int + 1,
                                r,
                                c,
                            ) && !flipped_by_members(g, crosses@[ci as int].elements@, k2 as int, r, c) {
                                let kk = choose|kk: int|
                                    0 <= kk < k2 as int + 1 && spec_flips(
                                        g,
                                        #[trigger] crosses@[ci as int].elements@[kk],
                                    ) && covers(crosses@[ci as int].elements@[kk], r, c);
                                assert(kk == k2 as int);
                                assert(crosses@[ci as int].elements@[kk].tense == Tense::Neutral);
                                assert(false);
                            }
                        }
                    }
                }
                k2 = k2 + 1;
            }
            proof {
                assert forall|r: int, c: int| on_board(r, c) implies cell_at(b.grid(), r, c) == (
                if flipped_by_prefix(g, crosses@, ci as int + 1, r, c) {
                    flip_cell(g, r, c)
                } else {
                    cell_at(g, r, c)
                }) by {
                    if flipped_by_prefix(g, crosses@, ci as int + 1, r, c) {
                        let (j, kk) = choose|j: int, kk: int|
                            0 <= j < ci as int + 1 && 0 <= kk < crosses@[j].elements@.len()
                                && spec_flips(g, #[trigger] crosses@[j].elements@[kk]) && covers(
                                crosses@[j].elements@[kk],
                                r,
                                c,
                            );
                        if j == ci as int {
                            assert(flipped_by_members(
                                g,
                                crosses@[ci as int].elements@,
                                members_len as int,
                                r,
                                c,
                            ));
                        } else {
                            assert(flipped_by_prefix(g, crosses@, ci as int, r, c));
                        }
                    } else {
                        assert(!flipped_by_prefix(g, crosses@, ci as int, r, c));
                        if flipped_by_members(
                            g,
                            crosses@[ci as int].elements@,
                            members_len as int,
                            r,
                            c,
                        ) {
                            let kk = choose|kk: int|
                                0 <= kk < members_len as int && spec_flips(
                                    g,
                                    #[trigger] crosses@[ci as int].elements@[kk],
                                ) && covers(crosses@[ci as int].elements@[kk], r, c);
                            assert(flipped_by_prefix(g, crosses@, ci as int + 1, r, c));
                            assert(false);
                        }
                    }
                }
            }
        } else {
            proof {
                assert forall|kk: int| 0 <= kk < members_len implies !spec_flips(
                    g,
                    #[trigger] crosses@[ci as int].elements@[kk],
                ) by {
                    let e = crosses@[ci as int].elements@[kk];
                    if e.tense != Tense::Neutral {
                        let (k1, k2x) = choose|k1: int, k2x: int|
                            #![trigger crosses@[ci as int].elements@[k1], crosses@[ci as int].elements@[k2x]]
                            0 <= k1 < members_len as int && 0 <= k2x < members_len as int
                                && crosses@[ci as int].elements@[k1].tense == Tense::A
                                && crosses@[ci as int].elements@[k2x].tense == Tense::B;
                        let e1 = crosses@[ci as int].elements@[k1];
                        let e2 = crosses@[ci as int].elements@[k2x];
                        assert(same_cross_in(snakes@, e, e1) && same_cross_in(snakes@, e, e2));
                        lemma_same_cross_in_board(g, snakes@, e, e1);
                        lemma_same_cross_in_board(g, snakes@, e, e2);
                        assert(in_same_cross(g, e, e1) && in_same_cross(g, e, e2));
                        assert(spec_stuck(g, e));
                    }
                }
                assert forall|r: int, c: int| on_board(r, c) implies cell_at(b.grid(), r, c) == (
                if flipped_by_prefix(g, crosses@, ci as int + 1, r, c) {
                    flip_cell(g, r, c)
                } else {
                    cell_at(g, r, c)
                }) by {
                    if flipped_by_prefix(g, crosses@, ci as int + 1, r, c) && !flipped_by_prefix(
                        g,
                        crosses@,
                        ci as int,
                        r,
                        c,
                    ) {
                        let (j, kk) = choose|j: int, kk: int|
                            0 <= j < ci as int + 1 && 0 <= kk < crosses@[j].elements@.len()
                                && spec_flips(g, #[trigger] crosses@[j].elements@[kk]) && covers(
                                crosses@[j].elements@[kk],
                                r,
                                c,
                            );
                        assert(j == ci as int);
                        assert(false);
                    }
                }
            }
        }
        ci = ci + 1;
    }
    proof {
        assert forall|r: int, c: int| on_board(r, c) implies cell_at(b.grid(), r, c) == flip_cell(
            g,
            r,
            c,
        ) by {
            if !flipped_by_prefix(g, crosses@, crosses@.len() as int, r, c) {
                assert forall|s: Snake| spec_flips(g, s) implies !#[trigger] covers(s, r, c) by {
                    if covers(s, r, c) {
                        assert(snakes@.contains(s));
                        let (j, kk) = choose|j: int, kk: int|
                            0 <= j < crosses@.len() && 0 <= kk < crosses@[j].elements@.len()
                                && crosses@[j].elements@[kk] == s;
                        assert(spec_flips(g, crosses@[j].elements@[kk]));
                        assert(flipped_by_prefix(g, crosses@, crosses@.len() as int, r, c));
                        assert(false);
                    }
                }
                assert(!(exists|s: Snake| spec_flips(g, s) && #[trigger] covers(s, r, c)));
                assert(flip_cell(g, r, c) == cell_at(g, r, c));
            }
        }
        assert(spec_flip(g).len() == N * N);
        assert forall|r: int, c: int| on_board(r, c) implies cell_at(b.grid(), r, c) == cell_at(
            spec_flip(g),
            r,
            c,
        ) by {
            lemma_spec_flip_cell(g, r, c);
        }
        lemma_grid_pointwise(b.grid(), spec_flip(g));
    }
    b
}

/// Updating one cell shifts a colour's prefix count by the difference of
/// the new and old contributions of that cell.
proof fn lemma_count_pre_update(g: Seq<Chess>, ch: Chess, n: int, j: int, v: Chess)
    requires
        0 <= j < g.len(),
        n <= g.len(),
    ensures
        count_pre(g.update(j, v), ch, n) == count_pre(g, ch, n) + if j < n {
            (if v == ch {
                1int
            } else {
                0int
            }) - (if g[j] == ch {
                1int
            } else {
                0int
            })
        } else {
            0int
        },
    decreases n,
{
    if n > 0 {
        lemma_count_pre_update(g, ch, n - 1, j, v);
    }
}

/// Two grids that are empty in exactly the same cells hold the same total
/// number of pieces.
proof fn lemma_total_pointwise(g1: Seq<Chess>, g2: Seq<Chess>, n: int)
    requires
        g1.len() == g2.len(),
        n <= g1.len(),
        forall|i: int| 0 <= i < g1.len() ==> ((g1[i] == Chess::Void) <==> (g2[i] == Chess::Void)),
    ensures
        count_pre(g1, Chess::A, n) + count_pre(g1, Chess::B, n) == count_pre(g2, Chess::A, n)
            + count_pre(g2, Chess::B, n),
    decreases n,
{
    if n > 0 {
        lemma_total_pointwise(g1, g2, n - 1);
    }
}

/// Conservation: an accepted move relocates one piece, and the flip pass
/// only relabels pieces, so the total piece count never changes.
pub proof fn lemma_next_conserves(b: Chessboard, r: int, c: int, op: Operation, nb: Chessboard)
    requires
        b.wf(),
        next_spec(b, r, c, op, Ok(nb)),
    ensures
        count_of(nb.grid(), Chess::A) + count_of(nb.grid(), Chess::B) == count_of(
            b.grid(),
            Chess::A,
        ) + count_of(b.grid(), Chess::B),
{
    let (r2, c2) = dest_of(r, c, op);
    let g = b.grid();
    let len = g.len() as int;
    let m1 = g.update(idx_of(r, c), Chess::Void);
    let m2 = moved_grid(g, r, c, r2, c2, b.next_turn);
    assert(idx_of(r, c) != idx_of(r2, c2));
    lemma_count_pre_update(g, Chess::A, len, idx_of(r, c), Chess::Void);
    lemma_count_pre_update(g, Chess::B, len, idx_of(r, c), Chess::Void);
    lemma_count_pre_update(m1, Chess::A, len, idx_of(r2, c2), turn_chess(b.next_turn));
    lemma_count_pre_update(m1, Chess::B, len, idx_of(r2, c2), turn_chess(b.next_turn));
    assert(count_pre(m2, Chess::A, len) + count_pre(m2, Chess::B, len) == count_pre(
        g,
        Chess::A,
        len,
    ) + count_pre(g, Chess::B, len));
    assert forall|i: int| 0 <= i < m2.len() implies ((nb.grid()[i] == Chess::Void) <==> (m2[i]
        == Chess::Void)) by {
        let rr = i / (N as int);
        let cc = i % (N as int);
        assert(0 <= rr < 6 && 0 <= cc < 6 && rr * 6 + cc == i) by (nonlinear_arith)
            requires
                0 <= i < 36,
                rr == i / 6,
                cc == i % 6,
        ;
        crate::chess::rules::lemma_flip_cell_keeps_void(m2, rr, cc);
        lemma_spec_flip_cell(m2, rr, cc);
        assert(cell_at(nb.grid(), rr, cc) == flip_cell(m2, rr, cc));
    }
    lemma_total_pointwise(nb.grid(), m2, len);
}

/// Determinism: the outcome of a move is a function of the board and the
/// move alone, so any two accepted results coincide, and any two
/// rejections name the same error.
pub proof fn lemma_next_deterministic(
    b: Chessboard,
    r: int,
    c: int,
    op: Operation,
    res1: Result<Chessboard, Errors>,
    res2: Result<Chessboard, Errors>,
)
    requires
        b.wf(),
        next_spec(b, r, c, op, res1),
        next_spec(b, r, c, op, res2),
    ensures
        match (res1, res2) {
            (Ok(n1), Ok(n2)) => n1.grid() == n2.grid() && n1.next_turn == n2.next_turn,
            (Err(e1), Err(e2)) => e1 == e2,
            _ => false,
        },
{
}

/// A move that `available` lists is never rejected: every legal move is
/// accepted and produces a successor board.
pub proof fn lemma_legal_move_accepted(
    b: Chessboard,
    r: int,
    c: int,
    op: Operation,
    res: Result<Chessboard, Errors>,
)
    requires
        b.wf(),
        next_spec(b, r, c, op, res),
        move_ok(b, r, c, op),
    ensures
        res is Ok,
{
}

/// The opening layout holds five pieces of each side.
pub proof fn lemma_opening_counts()
    ensures
        count_of(opening_grid(), Chess::A) == 5,
        count_of(opening_grid(), Chess::B) == 5,
{
    reveal_with_fuel(count_pre, 40);
}

/// A prefix count is between 0 and the prefix length.
pub proof fn lemma_count_pre_bounds(g: Seq<Chess>, ch: Chess, n: int)
    ensures
        0 <= count_pre(g, ch, n) <= if n <= 0 {
            0int
        } else {
            n
        },
    decreases n,
{
    if n > 0 {
        lemma_count_pre_bounds(g, ch, n - 1);
    }
}

} // verus!
