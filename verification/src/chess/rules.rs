//! Snakes, crosses, and the flip rules.
//!
//! A *snake* is a maximal run of at least two consecutive non-empty cells
//! along one row or column in which adjacent cells alternate colour.  Since
//! there are exactly two piece colours, a run alternates precisely when no
//! two adjacent cells of it are equal, so maximality is a local condition on
//! the two cells bordering the span.

use vstd::prelude::*;

use crate::chess::link::{
    is_path, joined, lemma_joined_refl, lemma_joined_step, lemma_joined_sym, lemma_joined_trans,
};
use crate::chess::uf::{rel_member, rel_step, uf_groups, uf_new, uf_pairs, uf_union};
use crate::chess::{cell_at, Chess, Chessboard, N};

verus! {

/// The flip tendency of a snake, derived from its two endpoint colours:
/// the endpoint colour if both ends agree, `Neutral` otherwise.
#[derive(Clone, Copy, Debug, PartialEq, Eq, Structural, Hash)]
pub enum Tense {
    A,
    B,
    Neutral,
}

/// Whether a snake runs along a row or along a column.
#[derive(Clone, Copy, Debug, PartialEq, Eq, Structural, Hash)]
pub enum Axis {
    Row,
    Column,
}

/// A maximal alternating run: its tendency, axis, fixed index on the other
/// axis, and the half-open span `[slice.0, slice.1)` along its own axis.
#[derive(Clone, Copy, Debug)]
pub struct Snake {
    pub tense: Tense,
    pub axis: Axis,
    pub index: usize,
    pub slice: (usize, usize),
}

/// The cell at position `pos` of the line (row or column) `index`.
pub open spec fn lcell(g: Seq<Chess>, axis: Axis, index: int, pos: int) -> Chess {
    match axis {
        Axis::Row => cell_at(g, index, pos),
        Axis::Column => cell_at(g, pos, index),
    }
}

/// Positions `p` and `p + 1` of the line hold different contents.
pub open spec fn step_differs(g: Seq<Chess>, axis: Axis, index: int, p: int) -> bool {
    lcell(g, axis, index, p) != lcell(g, axis, index, p + 1)
}

/// The snake's coordinates lie on the board and span at least two cells.
pub open spec fn snake_in_bounds(s: Snake) -> bool {
    &&& 0 <= s.index < N
    &&& s.slice.0 + 2 <= s.slice.1 <= N
}

/// The tendency dictated by the two endpoint colours of the span.
pub open spec fn spec_tense(g: Seq<Chess>, s: Snake) -> Tense {
    let cb = lcell(g, s.axis, s.index as int, s.slice.0 as int);
    let ce = lcell(g, s.axis, s.index as int, s.slice.1 - 1);
    if cb == ce {
        if cb == Chess::A {
            Tense::A
        } else {
            Tense::B
        }
    } else {
        Tense::Neutral
    }
}

/// `s` is a snake of the grid `g`: a span of length at least two of
/// non-empty cells in which adjacent cells differ, extendable in neither
/// direction, carrying the tendency of its endpoints.
pub open spec fn is_snake(g: Seq<Chess>, s: Snake) -> bool {
    &&& snake_in_bounds(s)
    &&& forall|p: int|
        s.slice.0 <= p < s.slice.1 ==> lcell(g, s.axis, s.index as int, p) != Chess::Void
    &&& forall|p: int| s.slice.0 <= p < s.slice.1 - 1 ==> step_differs(g, s.axis, s.index as int, p)
    &&& (s.slice.0 == 0 || lcell(g, s.axis, s.index as int, s.slice.0 - 1) == Chess::Void
        || lcell(g, s.axis, s.index as int, s.slice.0 - 1) == lcell(
        g,
        s.axis,
        s.index as int,
        s.slice.0 as int,
    ))
    &&& (s.slice.1 == N || lcell(g, s.axis, s.index as int, s.slice.1 as int) == Chess::Void
        || lcell(g, s.axis, s.index as int, s.slice.1 as int) == lcell(
        g,
        s.axis,
        s.index as int,
        s.slice.1 - 1,
    ))
    &&& s.tense == spec_tense(g, s)
}

/// The coordinate of (r, c) that runs along the snake's own axis.
pub open spec fn line_pos(s: Snake, r: int, c: int) -> int {
    match s.axis {
        Axis::Row => c,
        Axis::Column => r,
    }
}

impl Snake {
    /// The snake's flip tendency.
    pub fn tense(&self) -> (t: &Tense)
        ensures
            t == &self.tense,
    {
        &self.tense
    }

    /// Relabel every cell of this snake's span to its tendency's colour; a
    /// neutral snake changes nothing.
    #[verifier::loop_isolation(false)]
    pub fn flip(&self, board: &mut Chessboard)
        requires
            old(board).wf(),
            snake_in_bounds(*self),
        ensures
            final(board).wf(),
            final(board).next_turn == old(board).next_turn,
            self.tense == Tense::Neutral ==> final(board).grid() == old(board).grid(),
            self.tense != Tense::Neutral ==> forall|r: int, c: int|
                crate::chess::on_board(r, c) ==> cell_at(final(board).grid(), r, c) == (if covers(
                    *self,
                    r,
                    c,
                ) {
                    flip_colour(self.tense)
                } else {
                    cell_at(old(board).grid(), r, c)
                }),
    {
        if self.tense != Tense::Neutral {
            let colour = if self.tense == Tense::A {
                Chess::A
            } else {
                Chess::B
            };
            let mut i: usize = self.slice.0;
            while i < self.slice.1
                invariant
                    self.slice.0 <= i <= self.slice.1,
                    board.wf(),
                    board.next_turn == old(board).next_turn,
                    forall|r: int, c: int|
                        crate::chess::on_board(r, c) ==> cell_at(board.grid(), r, c) == (if covers(
                            *self,
                            r,
                            c,
                        ) && line_pos(*self, r, c) < i {
                            flip_colour(self.tense)
                        } else {
                            cell_at(old(board).grid(), r, c)
                        }),
                decreases self.slice.1 - i,
            {
                let ghost before: Seq<Chess> = board.grid();
                match self.axis {
                    Axis::Row => {
                        board.cells[self.index * N + i] = colour;
                    },
                    Axis::Column => {
                        board.cells[i * N + self.index] = colour;
                    },
                }
                proof {
                    assert forall|r: int, c: int|
                        crate::chess::on_board(r, c) implies cell_at(board.grid(), r, c) == (
                    if covers(*self, r, c) && line_pos(*self, r, c) < i + 1 {
                        flip_colour(self.tense)
                    } else {
                        cell_at(before, r, c)
                    }) by {
                        let w = match self.axis {
                            Axis::Row => crate::chess::idx_of(self.index as int, i as int),
                            Axis::Column => crate::chess::idx_of(i as int, self.index as int),
                        };
                        assert(board.grid() == before.update(w, colour));
                        if crate::chess::idx_of(r, c) != w {
                            assert(cell_at(board.grid(), r, c) == cell_at(before, r, c));
                        }
                    }
                }
                i = i + 1;
            }
        }
    }
}

/// Read the cell at position `pos` of line `index` of the given axis.
fn line_get(board: &Chessboard, axis: Axis, index: usize, pos: usize) -> (ch: Chess)
    requires
        board.wf(),
        index < N,
        pos < N,
    ensures
        ch == lcell(board.grid(), axis, index as int, pos as int),
{
    match axis {
        Axis::Row => board.cells[index * N + pos],
        Axis::Column => board.cells[pos * N + index],
    }
}

/// All snakes lying on one line: each span of non-empty cells is split at
/// equal-coloured neighbours, and the maximal alternating pieces of length
/// at least two are kept.
#[verifier::rlimit(100)]
fn scan_line(board: &Chessboard, axis: Axis, index: usize) -> (out: Vec<Snake>)
    requires
        board.wf(),
        index < N,
    ensures
        forall|k: int|
            0 <= k < out@.len() ==> (#[trigger] out@[k]).axis == axis && out@[k].index == index
                && is_snake(board.grid(), out@[k]),
        forall|s: Snake|
            is_snake(board.grid(), s) && s.axis == axis && s.index == index ==> out@.contains(s),
        forall|k1: int, k2: int| 0 <= k1 < k2 < out@.len() ==> out@[k1].slice.0 < out@[k2].slice.0,
{
    let ghost g: Seq<Chess> = board.grid();
    let mut out: Vec<Snake> = Vec::new();
    let mut start: usize = 0;
    while start < N
        invariant
            board.wf(),
            index < N,
            start <= N,
            g == board.grid(),
            forall|k: int|
                0 <= k < out@.len() ==> (#[trigger] out@[k]).axis == axis && out@[k].index == index
                    && is_snake(g, out@[k]) && out@[k].slice.0 < start,
            forall|s: Snake|
                is_snake(g, s) && s.axis == axis && s.index == index && s.slice.0 < start
                    ==> out@.contains(s),
            forall|k1: int, k2: int|
                0 <= k1 < k2 < out@.len() ==> out@[k1].slice.0 < out@[k2].slice.0,
        decreases N - start,
    {
        let cur = line_get(board, axis, index, start);
        if cur != Chess::Void {
            let mut headed: bool = start == 0;
            if !headed {
                let prev = line_get(board, axis, index, start - 1);
                headed = prev == Chess::Void || prev == cur;
            }
            if headed {
                let mut e: usize = start;
                let mut stop: bool = false;
                while !stop && e + 1 < N
                    invariant
                        board.wf(),
                        index < N,
                        g == board.grid(),
                        start <= e < N,
                        forall|p: int|
                            start <= p <= e ==> lcell(g, axis, index as int, p) != Chess::Void,
                        forall|p: int| start <= p < e ==> step_differs(g, axis, index as int, p),
                        stop ==> e + 1 < N && (lcell(g, axis, index as int, e + 1) == Chess::Void
                            || lcell(g, axis, index as int, e + 1) == lcell(
                            g,
                            axis,
                            index as int,
                            e as int,
                        )),
                    decreases N - e + if stop {
                        0int
                    } else {
                        1int
                    },
                {
                    let nxt = line_get(board, axis, index, e + 1);
                    let herecell = line_get(board, axis, index, e);
                    if nxt == Chess::Void || nxt == herecell {
                        stop = true;
                    } else {
                        proof {
                            assert(step_differs(g, axis, index as int, e as int));
                        }
                        e = e + 1;
                    }
                }
                proof {
                    assert forall|s: Snake|
                        is_snake(g, s) && s.axis == axis && s.index == index && s.slice.0 == start
                        implies s.slice.1 == e + 1 by {
                        if s.slice.1 - 1 > e {
                            assert(lcell(g, axis, index as int, e + 1) != Chess::Void);
                            assert(step_differs(g, axis, index as int, e as int));
                        }
                        if s.slice.1 - 1 < e {
                            let q = s.slice.1 - 1;
                            assert(lcell(g, axis, index as int, q + 1) != Chess::Void);
                            assert(step_differs(g, axis, index as int, q));
                        }
                    }
                }
                if e > start {
                    let cb = line_get(board, axis, index, start);
                    let ce = line_get(board, axis, index, e);
                    let t = if cb == ce {
                        if cb == Chess::A {
                            Tense::A
                        } else {
                            Tense::B
                        }
                    } else {
                        Tense::Neutral
                    };
                    let s_new = Snake { tense: t, axis, index, slice: (start, e + 1) };
                    let ghost old_out: Seq<Snake> = out@;
                    proof {
                        assert(is_snake(g, s_new));
                    }
                    out.push(s_new);
                    proof {
                        assert forall|s: Snake| old_out.contains(s) implies out@.contains(s) by {
                            let i = choose|i: int| 0 <= i < old_out.len() && old_out[i] == s;
                            assert(out@[i] == s);
                        }
                        assert forall|s: Snake|
                            is_snake(g, s) && s.axis == axis && s.index == index && s.slice.0
                                == start implies out@.contains(s) by {
                            assert(s.slice.1 == e + 1);
                            assert(s == s_new);
                            assert(out@[out@.len() - 1] == s);
                        }
                    }
                } else {
                    proof {
                        assert forall|s: Snake|
                            is_snake(g, s) && s.axis == axis && s.index == index && s.slice.0
                                == start implies out@.contains(s) by {
                            assert(s.slice.1 == e + 1);
                        }
                    }
                }
            } else {
                proof {
                    assert forall|s: Snake|
                        is_snake(g, s) && s.axis == axis && s.index == index && s.slice.0 == start
                        implies out@.contains(s) by {
                        assert(lcell(g, axis, index as int, start - 1) == lcell(
                            g,
                            axis,
                            index as int,
                            start as int,
                        ) || lcell(g, axis, index as int, start - 1) == Chess::Void);
                    }
                }
            }
        } else {
            proof {
                assert forall|s: Snake|
                    is_snake(g, s) && s.axis == axis && s.index == index && s.slice.0 == start
                    implies out@.contains(s) by {
                    assert(lcell(g, axis, index as int, start as int) != Chess::Void);
                }
            }
        }
        start = start + 1;
    }
    out
}

/// All snakes of the board, across both axes and every line.
pub fn count_snake(board: &Chessboard) -> (snakes: Vec<Snake>)
    requires
        board.wf(),
    ensures
        forall|k: int| 0 <= k < snakes@.len() ==> is_snake(board.grid(), #[trigger] snakes@[k]),
        forall|s: Snake| is_snake(board.grid(), s) ==> snakes@.contains(s),
        forall|k1: int, k2: int| 0 <= k1 < k2 < snakes@.len() ==> snakes@[k1] != snakes@[k2],
{
    let ghost g: Seq<Chess> = board.grid();
    let mut snakes: Vec<Snake> = Vec::new();
    let mut idx: usize = 0;
    while idx < N
        invariant
            board.wf(),
            idx <= N,
            g == board.grid(),
            forall|k: int|
                0 <= k < snakes@.len() ==> is_snake(g, #[trigger] snakes@[k]) && snakes@[k].axis
                    == Axis::Row && snakes@[k].index < idx,
            forall|s: Snake|
                is_snake(g, s) && s.axis == Axis::Row && s.index < idx ==> snakes@.contains(s),
            forall|k1: int, k2: int| 0 <= k1 < k2 < snakes@.len() ==> snakes@[k1] != snakes@[k2],
        decreases N - idx,
    {
        let mut part = scan_line(board, Axis::Row, idx);
        let ghost old_snakes: Seq<Snake> = snakes@;
        let ghost part_seq: Seq<Snake> = part@;
        snakes.append(&mut part);
        proof {
            lemma_append_keeps(old_snakes, part_seq, snakes@);
        }
        idx = idx + 1;
    }
    let mut idx2: usize = 0;
    while idx2 < N
        invariant
            board.wf(),
            idx2 <= N,
            g == board.grid(),
            forall|k: int|
                0 <= k < snakes@.len() ==> is_snake(g, #[trigger] snakes@[k])
                    && (snakes@[k].axis == Axis::Row || (snakes@[k].axis == Axis::Column
                    && snakes@[k].index < idx2)),
            forall|s: Snake|
                is_snake(g, s) && s.axis == Axis::Row ==> snakes@.contains(s),
            forall|s: Snake|
                is_snake(g, s) && s.axis == Axis::Column && s.index < idx2 ==> snakes@.contains(s),
            forall|k1: int, k2: int| 0 <= k1 < k2 < snakes@.len() ==> snakes@[k1] != snakes@[k2],
        decreases N - idx2,
    {
        let mut part = scan_line(board, Axis::Column, idx2);
        let ghost old_snakes: Seq<Snake> = snakes@;
        let ghost part_seq: Seq<Snake> = part@;
        snakes.append(&mut part);
        proof {
            lemma_append_keeps(old_snakes, part_seq, snakes@);
        }
        idx2 = idx2 + 1;
    }
    snakes
}

/// `s` runs through the cell (r, c).
pub open spec fn covers(s: Snake, r: int, c: int) -> bool {
    match s.axis {
        Axis::Row => s.index == r && s.slice.0 <= c < s.slice.1,
        Axis::Column => s.index == c && s.slice.0 <= r < s.slice.1,
    }
}

/// A row snake and a column snake intersect when each one's fixed index
/// falls inside the other's span; snakes of one axis never intersect.
pub open spec fn intersects(s1: Snake, s2: Snake) -> bool {
    match (s1.axis, s2.axis) {
        (Axis::Row, Axis::Column) => s1.slice.0 <= s2.index < s1.slice.1 && s2.slice.0 <= s1.index
            < s2.slice.1,
        (Axis::Column, Axis::Row) => s2.slice.0 <= s1.index < s2.slice.1 && s1.slice.0 <= s2.index
            < s1.slice.1,
        _ => false,
    }
}

/// One step of the relation whose connected components are the crosses:
/// two (equal or intersecting) snakes of the grid.
pub open spec fn snake_step(g: Seq<Chess>) -> spec_fn(Snake, Snake) -> bool {
    |x: Snake, y: Snake| is_snake(g, x) && is_snake(g, y) && (x == y || intersects(x, y))
}

/// `x` and `y` are member snakes of one cross of `g`.
pub open spec fn in_same_cross(g: Seq<Chess>, x: Snake, y: Snake) -> bool {
    is_snake(g, x) && is_snake(g, y) && joined(snake_step(g), x, y)
}

/// The cross containing `s` has member snakes of both non-neutral
/// tendencies, so it is stuck and flips nothing.
pub open spec fn spec_stuck(g: Seq<Chess>, s: Snake) -> bool {
    exists|s1: Snake, s2: Snake|
        #[trigger] in_same_cross(g, s, s1) && #[trigger] in_same_cross(g, s, s2) && s1.tense
            == Tense::A && s2.tense == Tense::B
}

/// The snake `s` relabels its span: it has a tendency of its own and its
/// cross is not stuck.
pub open spec fn spec_flips(g: Seq<Chess>, s: Snake) -> bool {
    is_snake(g, s) && s.tense != Tense::Neutral && !spec_stuck(g, s)
}

/// The colour a non-neutral tendency writes.
pub open spec fn flip_colour(t: Tense) -> Chess {
    if t == Tense::A {
        Chess::A
    } else {
        Chess::B
    }
}

/// The cell (r, c) after one resolution pass: relabeled if some snake of a
/// cleanly resolving cross runs through it, otherwise unchanged.
pub open spec fn flip_cell(g: Seq<Chess>, r: int, c: int) -> Chess {
    if exists|s: Snake| spec_flips(g, s) && #[trigger] covers(s, r, c) {
        flip_colour((choose|s: Snake| spec_flips(g, s) && #[trigger] covers(s, r, c)).tense)
    } else {
        cell_at(g, r, c)
    }
}

/// The grid after one full resolution pass.
pub open spec fn spec_flip(g: Seq<Chess>) -> Seq<Chess> {
    Seq::new((N * N) as nat, |i: int| flip_cell(g, i / (N as int), i % (N as int)))
}

/// The resolution pass, cell by cell: `spec_flip` agrees with `flip_cell`
/// on every board coordinate.
pub proof fn lemma_spec_flip_cell(g: Seq<Chess>, r: int, c: int)
    requires
        0 <= r < N,
        0 <= c < N,
    ensures
        cell_at(spec_flip(g), r, c) == flip_cell(g, r, c),
{
    let i = r * (N as int) + c;
    assert(0 <= i < (N * N) as int);
    assert(i / (N as int) == r && i % (N as int) == c) by (nonlinear_arith)
        requires
            0 <= r < 6,
            0 <= c < 6,
            i == r * 6 + c,
            N == 6,
    ;
}

/// Two snakes on the same line sharing a position are the same snake: a
/// maximal alternating span is determined by any one of its cells.
pub proof fn lemma_snake_overlap_equal(g: Seq<Chess>, s1: Snake, s2: Snake, p: int)
    requires
        is_snake(g, s1),
        is_snake(g, s2),
        s1.axis == s2.axis,
        s1.index == s2.index,
        s1.slice.0 <= p < s1.slice.1,
        s2.slice.0 <= p < s2.slice.1,
    ensures
        s1 == s2,
{
    let axis = s1.axis;
    let index = s1.index as int;
    assert forall|t1: Snake, t2: Snake|
        is_snake(g, t1) && is_snake(g, t2) && t1.axis == axis && t2.axis == axis && t1.index
            == s1.index && t2.index == s1.index && t1.slice.0 <= p < t1.slice.1 && t2.slice.0 <= p
            < t2.slice.1 implies t1.slice.0 >= t2.slice.0 by {
        if t1.slice.0 < t2.slice.0 {
            let q = t2.slice.0 as int;
            assert(lcell(g, axis, index, q - 1) != Chess::Void);
            assert(step_differs(g, axis, index, q - 1));
        }
    }
    assert(s1.slice.0 == s2.slice.0);
    assert forall|t1: Snake, t2: Snake|
        is_snake(g, t1) && is_snake(g, t2) && t1.axis == axis && t2.axis == axis && t1.index
            == s1.index && t2.index == s1.index && t1.slice.0 <= p < t1.slice.1 && t2.slice.0 <= p
            < t2.slice.1 implies t1.slice.1 <= t2.slice.1 by {
        if t1.slice.1 > t2.slice.1 {
            let q = t2.slice.1 as int;
            assert(lcell(g, axis, index, q) != Chess::Void);
            assert(step_differs(g, axis, index, q - 1));
        }
    }
    assert(s1.slice.1 == s2.slice.1);
    assert(s1.tense == spec_tense(g, s1) && s2.tense == spec_tense(g, s2));
}

/// Two snakes running through one cell are equal or intersect, so they
/// always belong to the same cross.
pub proof fn lemma_covers_linked(g: Seq<Chess>, s1: Snake, s2: Snake, r: int, c: int)
    requires
        is_snake(g, s1),
        is_snake(g, s2),
        covers(s1, r, c),
        covers(s2, r, c),
    ensures
        s1 == s2 || intersects(s1, s2),
        in_same_cross(g, s1, s2),
{
    if s1.axis == s2.axis {
        let p = if s1.axis == Axis::Row {
            c
        } else {
            r
        };
        lemma_snake_overlap_equal(g, s1, s2, p);
        lemma_joined_refl(snake_step(g), s1);
    } else {
        assert(intersects(s1, s2));
        assert(snake_step(g)(s1, s2));
        lemma_joined_step(snake_step(g), s1, s2);
    }
}

/// Stuckness is a property of the whole cross: it carries over to every
/// member snake.
pub proof fn lemma_stuck_same_cross(g: Seq<Chess>, x: Snake, y: Snake)
    requires
        in_same_cross(g, x, y),
        spec_stuck(g, x),
    ensures
        spec_stuck(g, y),
{
    let (s1, s2) = choose|s1: Snake, s2: Snake|
        #[trigger] in_same_cross(g, x, s1) && #[trigger] in_same_cross(g, x, s2) && s1.tense
            == Tense::A && s2.tense == Tense::B;
    assert forall|u: Snake, v: Snake| #[trigger] snake_step(g)(u, v) implies snake_step(g)(v, u) by {
    }
    lemma_joined_sym(snake_step(g), x, y);
    lemma_joined_trans(snake_step(g), y, x, s1);
    lemma_joined_trans(snake_step(g), y, x, s2);
    assert(in_same_cross(g, y, s1) && in_same_cross(g, y, s2));
}

/// Two flipping snakes through one cell agree on the colour they write.
pub proof fn lemma_flip_agree(g: Seq<Chess>, s1: Snake, s2: Snake, r: int, c: int)
    requires
        spec_flips(g, s1),
        spec_flips(g, s2),
        covers(s1, r, c),
        covers(s2, r, c),
    ensures
        s1.tense == s2.tense,
{
    lemma_covers_linked(g, s1, s2, r, c);
    if s1.tense != s2.tense {
        assert forall|u: Snake, v: Snake| #[trigger] snake_step(g)(u, v) implies snake_step(
            g,
        )(v, u) by {}
        lemma_joined_refl(snake_step(g), s1);
        assert(in_same_cross(g, s1, s1));
        if s1.tense == Tense::A {
            assert(s2.tense == Tense::B);
            assert(in_same_cross(g, s1, s1) && in_same_cross(g, s1, s2));
            assert(spec_stuck(g, s1));
        } else {
            assert(s1.tense == Tense::B && s2.tense == Tense::A);
            assert(in_same_cross(g, s1, s2) && in_same_cross(g, s1, s1));
            assert(spec_stuck(g, s1));
        }
    }
}

/// What the resolution pass writes into a cell some flipping snake covers.
pub proof fn lemma_flip_cell_covered(g: Seq<Chess>, s: Snake, r: int, c: int)
    requires
        spec_flips(g, s),
        covers(s, r, c),
    ensures
        flip_cell(g, r, c) == flip_colour(s.tense),
{
    assert(exists|t: Snake| spec_flips(g, t) && #[trigger] covers(t, r, c));
    let t = choose|t: Snake| spec_flips(g, t) && #[trigger] covers(t, r, c);
    lemma_flip_agree(g, s, t, r, c);
}

/// One step between (equal or intersecting) snakes named by their position
/// in a list.
pub open spec fn idx_step(list: Seq<Snake>) -> spec_fn(int, int) -> bool {
    |a: int, b: int|
        0 <= a < list.len() && 0 <= b < list.len() && (a == b || intersects(list[a], list[b]))
}

/// One step between (equal or intersecting) snakes drawn from a list.
pub open spec fn list_step(list: Seq<Snake>) -> spec_fn(Snake, Snake) -> bool {
    |x: Snake, y: Snake| list.contains(x) && list.contains(y) && (x == y || intersects(x, y))
}

/// `x` and `y` are drawn from the list and joined through intersections of
/// its snakes.
pub open spec fn same_cross_in(list: Seq<Snake>, x: Snake, y: Snake) -> bool {
    list.contains(x) && list.contains(y) && joined(list_step(list), x, y)
}

/// A path of list positions maps to a path of the snakes at them.
proof fn lemma_idx_to_val(list: Seq<Snake>, a: int, b: int)
    requires
        0 <= a < list.len(),
        0 <= b < list.len(),
        joined(idx_step(list), a, b),
    ensures
        joined(list_step(list), list[a], list[b]),
{
    let p = choose|p: Seq<int>|
        p.len() >= 1 && p[0] == a && p[p.len() - 1] == b && #[trigger] is_path(idx_step(list), p);
    let q = Seq::new(p.len(), |i: int| list[p[i]]);
    assert(q[0] == list[a] && q[q.len() - 1] == list[b]);
    assert forall|i: int| 0 <= i && i + 1 < q.len() implies #[trigger] list_step(list)(
        q[i],
        q[i + 1],
    ) by {
        assert(idx_step(list)(p[i], p[i + 1]));
        assert(list.contains(list[p[i]]));
        assert(list.contains(list[p[i + 1]]));
    }
    assert(is_path(list_step(list), q));
}

/// A path of snakes of a duplicate-free list maps back to a path of their
/// positions.
proof fn lemma_val_to_idx(list: Seq<Snake>, a: int, b: int)
    requires
        forall|k1: int, k2: int| 0 <= k1 < k2 < list.len() ==> list[k1] != list[k2],
        0 <= a < list.len(),
        0 <= b < list.len(),
        joined(list_step(list), list[a], list[b]),
    ensures
        joined(idx_step(list), a, b),
{
    let p = choose|p: Seq<Snake>|
        p.len() >= 1 && p[0] == list[a] && p[p.len() - 1] == list[b] && #[trigger] is_path(
            list_step(list),
            p,
        );
    assert forall|i: int| 0 <= i < p.len() implies list.contains(p[i]) by {
        if i == 0 {
            assert(list.contains(list[a]));
        } else {
            let j = i - 1;
            assert(list_step(list)(p[j], p[j + 1]));
        }
    }
    let q = Seq::new(p.len(), |i: int| choose|k: int| 0 <= k < list.len() && list[k] == p[i]);
    assert forall|i: int| 0 <= i < p.len() implies 0 <= q[i] < list.len() && list[q[i]] == p[
        i
    ] by {
        assert(list.contains(p[i]));
        let w = choose|k: int| 0 <= k < list.len() && list[k] == p[i];
        assert(list[w] == p[i]);
    }
    assert(list[q[0]] == p[0] && p[0] == list[a]);
    assert(q[0] == a);
    assert(list[q[q.len() - 1]] == list[b]);
    assert(q[q.len() - 1] == b);
    assert forall|i: int| 0 <= i && i + 1 < q.len() implies #[trigger] idx_step(list)(
        q[i],
        q[i + 1],
    ) by {
        assert(list_step(list)(p[i], p[i + 1]));
        if p[i] == p[i + 1] {
            assert(list[q[i]] == list[q[i + 1]]);
            assert(q[i] == q[i + 1]);
        } else {
            assert(intersects(list[q[i]], list[q[i + 1]]));
        }
    }
    assert(is_path(idx_step(list), q));
}

/// Every pair a union-find structure holds after the bucketed pass is a
/// legal one: the diagonal, or an intersecting pair.
spec fn rel_sound(list: Seq<Snake>, rel: Set<(int, int)>) -> bool {
    forall|pr: (int, int)|
        #[trigger] rel.contains(pr) ==> 0 <= pr.0 < list.len() && 0 <= pr.1 < list.len() && (pr.0
            == pr.1 || intersects(list[pr.0], list[pr.1]))
}

/// A cross: the member snakes of one connected component of the
/// intersection relation.
#[derive(Clone, Debug)]
pub struct Cross {
    pub elements: Vec<Snake>,
}

impl Cross {
    /// The member snakes of this cross.
    pub fn snakes(&self) -> (r: &Vec<Snake>)
        ensures
            r == &self.elements,
    {
        &self.elements
    }
}

/// Union every intersecting pair with one side in `more` and the other in
/// `less`.  The snakes named by `less` are bucketed by their fixed index,
/// and each snake named by `more` is tested only against the buckets its
/// span covers; a pair is recorded exactly when the two spans cross.
#[verifier::loop_isolation(false)]
#[verifier::rlimit(100)]
fn bucket_union(
    snakes: &Vec<Snake>,
    uf: &mut reunion::UnionFind<usize>,
    less: &Vec<usize>,
    more: &Vec<usize>,
)
    requires
        forall|k: int| 0 <= k < snakes@.len() ==> snake_in_bounds(#[trigger] snakes@[k]),
        forall|k: int| 0 <= k < less@.len() ==> (#[trigger] less@[k]) < snakes@.len(),
        forall|k: int| 0 <= k < more@.len() ==> (#[trigger] more@[k]) < snakes@.len(),
        forall|k1: int, k2: int|
            #![trigger less@[k1], more@[k2]]
            0 <= k1 < less@.len() && 0 <= k2 < more@.len() ==> snakes@[less@[k1] as int].axis
                != snakes@[more@[k2] as int].axis,
    ensures
        forall|pr: (int, int)|
            uf_pairs(*old(uf)).contains(pr) ==> uf_pairs(*final(uf)).contains(pr),
        forall|pr: (int, int)|
            #[trigger] uf_pairs(*final(uf)).contains(pr) ==> uf_pairs(*old(uf)).contains(pr) || (
            exists|km: int, kl: int|
                0 <= km < more@.len() && 0 <= kl < less@.len() && pr == (
                    more@[km] as int,
                    less@[kl] as int,
                ) && intersects(snakes@[pr.0], snakes@[pr.1])),
        forall|km: int, kl: int|
            #![trigger more@[km], less@[kl]]
            0 <= km < more@.len() && 0 <= kl < less@.len() && intersects(
                snakes@[more@[km] as int],
                snakes@[less@[kl] as int],
            ) ==> uf_pairs(*final(uf)).contains((more@[km] as int, less@[kl] as int)),
{
    let mut buckets: Vec<Vec<usize>> = Vec::new();
    let mut b: usize = 0;
    while b < N
        invariant
            buckets@.len() == b <= N,
            forall|bi: int, k: int|
                #![trigger buckets@[bi]@[k]]
                0 <= bi < b && 0 <= k < buckets@[bi]@.len() ==> (exists|kl: int|
                    0 <= kl < less@.len() && less@[kl] == buckets@[bi]@[k]) && snakes@[buckets@[bi]@[k] as int].index == bi,
            forall|bi: int, kl: int|
                #![trigger buckets@[bi], less@[kl]]
                0 <= bi < b && 0 <= kl < less@.len() && snakes@[less@[kl] as int].index == bi
                    ==> buckets@[bi]@.contains(less@[kl]),
        decreases N - b,
    {
        let mut bucket: Vec<usize> = Vec::new();
        let mut li: usize = 0;
        while li < less.len()
            invariant
                li <= less@.len(),
                forall|k: int|
                    #![trigger bucket@[k]]
                    0 <= k < bucket@.len() ==> (exists|kl: int|
                        0 <= kl < less@.len() && less@[kl] == bucket@[k])
                        && snakes@[bucket@[k] as int].index == b,
                forall|kl: int|
                    0 <= kl < li && snakes@[(#[trigger] less@[kl]) as int].index == b
                        ==> bucket@.contains(less@[kl]),
            decreases less@.len() - li,
        {
            let j = less[li];
            if snakes[j].index == b {
                let ghost old_bucket: Seq<usize> = bucket@;
                bucket.push(j);
                proof {
                    assert(bucket@[bucket@.len() - 1] == j);
                    assert forall|y: usize| old_bucket.contains(y) implies bucket@.contains(y) by {
                        let i = choose|i: int| 0 <= i < old_bucket.len() && old_bucket[i] == y;
                        assert(bucket@[i] == y);
                    }
                }
            }
            li = li + 1;
        }
        buckets.push(bucket);
        b = b + 1;
    }
    let mut mi: usize = 0;
    while mi < more.len()
        invariant
            mi <= more@.len(),
            forall|pr: (int, int)|
                uf_pairs(*old(uf)).contains(pr) ==> uf_pairs(*uf).contains(pr),
            forall|pr: (int, int)|
                #[trigger] uf_pairs(*uf).contains(pr) ==> uf_pairs(*old(uf)).contains(pr) || (
                exists|km: int, kl: int|
                    0 <= km < more@.len() && 0 <= kl < less@.len() && pr == (
                        more@[km] as int,
                        less@[kl] as int,
                    ) && intersects(snakes@[pr.0], snakes@[pr.1])),
            forall|km: int, kl: int|
                #![trigger more@[km], less@[kl]]
                0 <= km < mi && 0 <= kl < less@.len() && intersects(
                    snakes@[more@[km] as int],
                    snakes@[less@[kl] as int],
                ) ==> uf_pairs(*uf).contains((more@[km] as int, less@[kl] as int)),
        decreases more@.len() - mi,
    {
        let i1 = more[mi];
        let s1 = snakes[i1];
        let e0 = s1.slice.1;
        let mut bidx: usize = s1.slice.0;
        while bidx < e0
            invariant
                s1.slice.0 <= bidx <= e0,
                forall|pr: (int, int)|
                    uf_pairs(*old(uf)).contains(pr) ==> uf_pairs(*uf).contains(pr),
                forall|pr: (int, int)|
                    #[trigger] uf_pairs(*uf).contains(pr) ==> uf_pairs(*old(uf)).contains(pr) || (
                    exists|km: int, kl: int|
                        0 <= km < more@.len() && 0 <= kl < less@.len() && pr == (
                            more@[km] as int,
                            less@[kl] as int,
                        ) && intersects(snakes@[pr.0], snakes@[pr.1])),
                forall|km: int, kl: int|
                    #![trigger more@[km], less@[kl]]
                    0 <= km < mi && 0 <= kl < less@.len() && intersects(
                        snakes@[more@[km] as int],
                        snakes@[less@[kl] as int],
                    ) ==> uf_pairs(*uf).contains((more@[km] as int, less@[kl] as int)),
                forall|kl: int|
                    0 <= kl < less@.len() && intersects(
                        snakes@[i1 as int],
                        snakes@[(#[trigger] less@[kl]) as int],
                    ) && snakes@[less@[kl] as int].index < bidx ==> uf_pairs(*uf).contains(
                        (i1 as int, less@[kl] as int),
                    ),
            decreases e0 - bidx,
        {
            let mut bk: usize = 0;
            while bk < buckets[bidx].len()
                invariant
                    bk <= buckets@[bidx as int]@.len(),
                    forall|pr: (int, int)|
                        uf_pairs(*old(uf)).contains(pr) ==> uf_pairs(*uf).contains(pr),
                    forall|pr: (int, int)|
                        #[trigger] uf_pairs(*uf).contains(pr) ==> uf_pairs(*old(uf)).contains(pr)
                            || (exists|km: int, kl: int|
                            0 <= km < more@.len() && 0 <= kl < less@.len() && pr == (
                                more@[km] as int,
                                less@[kl] as int,
                            ) && intersects(snakes@[pr.0], snakes@[pr.1])),
                    forall|km: int, kl: int|
                        #![trigger more@[km], less@[kl]]
                        0 <= km < mi && 0 <= kl < less@.len() && intersects(
                            snakes@[more@[km] as int],
                            snakes@[less@[kl] as int],
                        ) ==> uf_pairs(*uf).contains((more@[km] as int, less@[kl] as int)),
                    forall|kl: int|
                        0 <= kl < less@.len() && intersects(
                            snakes@[i1 as int],
                            snakes@[(#[trigger] less@[kl]) as int],
                        ) && snakes@[less@[kl] as int].index < bidx ==> uf_pairs(*uf).contains(
                            (i1 as int, less@[kl] as int),
                        ),
                    forall|k: int|
                        0 <= k < bk && intersects(
                            snakes@[i1 as int],
                            snakes@[(#[trigger] buckets@[bidx as int]@[k]) as int],
                        ) ==> uf_pairs(*uf).contains(
                            (i1 as int, buckets@[bidx as int]@[k] as int),
                        ),
                decreases buckets@[bidx as int]@.len() - bk,
            {
                let i2 = buckets[bidx][bk];
                proof {
                    assert(exists|kl: int| 0 <= kl < less@.len() && less@[kl] == buckets@[bidx as int]@[bk as int]);
                }
                if snakes[i2].slice.0 <= s1.index && s1.index < snakes[i2].slice.1 {
                    let ghost old_rel: Set<(int, int)> = uf_pairs(*uf);
                    uf_union(uf, i1, i2);
                    proof {
                        let ghost kl0 = choose|kl: int|
                            0 <= kl < less@.len() && less@[kl] == buckets@[bidx as int]@[bk as int];
                        assert(snakes@[i1 as int].axis != snakes@[i2 as int].axis);
                        assert(intersects(snakes@[i1 as int], snakes@[i2 as int]));
                        assert(uf_pairs(*uf) == old_rel.insert((i1 as int, i2 as int)));
                        assert forall|pr: (int, int)| #[trigger]
                            uf_pairs(*uf).contains(pr) && pr != (i1 as int, i2 as int)
                            implies old_rel.contains(pr) by {}
                    }
                }
                bk = bk + 1;
            }
            proof {
                assert forall|kl: int|
                    0 <= kl < less@.len() && intersects(
                        snakes@[i1 as int],
                        snakes@[(#[trigger] less@[kl]) as int],
                    ) && snakes@[less@[kl] as int].index < bidx + 1 implies uf_pairs(*uf).contains(
                    (i1 as int, less@[kl] as int),
                ) by {
                    if snakes@[less@[kl] as int].index == bidx as int {
                        assert(buckets@[bidx as int]@.contains(less@[kl]));
                        let k = choose|k: int|
                            0 <= k < buckets@[bidx as int]@.len() && buckets@[bidx as int]@[k]
                                == less@[kl];
                        assert(intersects(
                            snakes@[i1 as int],
                            snakes@[buckets@[bidx as int]@[k] as int],
                        ));
                    }
                }
            }
            bidx = bidx + 1;
        }
        proof {
            assert forall|kl: int|
                0 <= kl < less@.len() && intersects(
                    snakes@[i1 as int],
                    snakes@[(#[trigger] less@[kl]) as int],
                ) implies uf_pairs(*uf).contains((i1 as int, less@[kl] as int)) by {
                assert(snakes@[less@[kl] as int].index < e0 as int);
            }
        }
        mi = mi + 1;
    }
}

/// A flip pass never empties or fills a cell: it only relabels pieces.
pub proof fn lemma_flip_cell_keeps_void(g: Seq<Chess>, r: int, c: int)
    requires
        crate::chess::on_board(r, c),
    ensures
        (flip_cell(g, r, c) == Chess::Void) <==> (cell_at(g, r, c) == Chess::Void),
{
    if exists|s: Snake| spec_flips(g, s) && #[trigger] covers(s, r, c) {
        let s = choose|s: Snake| spec_flips(g, s) && #[trigger] covers(s, r, c);
        assert(lcell(g, s.axis, s.index as int, line_pos(s, r, c)) != Chess::Void);
        assert(lcell(g, s.axis, s.index as int, line_pos(s, r, c)) == cell_at(g, r, c));
        assert(flip_cell(g, r, c) == flip_colour(s.tense));
    }
}

/// No snake of `g` flips: every snake either has no tendency of its own or
/// belongs to a stuck cross.
pub open spec fn resolves_nothing(g: Seq<Chess>) -> bool {
    forall|s: Snake| !spec_flips(g, s)
}

/// A pass that resolves nothing leaves the grid unchanged.
pub proof fn lemma_flip_calm(g: Seq<Chess>)
    requires
        g.len() == N * N,
        resolves_nothing(g),
    ensures
        spec_flip(g) == g,
{
    assert forall|r: int, c: int| crate::chess::on_board(r, c) implies cell_at(spec_flip(g), r, c)
        == cell_at(g, r, c) by {
        lemma_spec_flip_cell(g, r, c);
        assert forall|s: Snake| spec_flips(g, s) implies !#[trigger] covers(s, r, c) by {
            assert(!spec_flips(g, s));
        }
        assert(!(exists|s: Snake| spec_flips(g, s) && #[trigger] covers(s, r, c)));
    }
    crate::chess::lemma_grid_pointwise(spec_flip(g), g);
}

/// Single pass: the pipeline runs exactly once per move, so a second pass
/// is the identity whenever nothing resolves on the first pass's output.
/// (A flipped span can form new snakes with its neighbours, on which a
/// second pass would act; the pipeline deliberately never takes it.)
pub proof fn lemma_flip_single_pass(g: Seq<Chess>)
    requires
        g.len() == N * N,
        resolves_nothing(spec_flip(g)),
    ensures
        spec_flip(spec_flip(g)) == spec_flip(g),
{
    lemma_flip_calm(spec_flip(g));
}

/// Stuck-cross safety: every cell of every member snake of a stuck cross
/// is left unchanged by the flip pass.
pub proof fn lemma_stuck_cross_untouched(g: Seq<Chess>, s: Snake, t: Snake, r: int, c: int)
    requires
        crate::chess::on_board(r, c),
        spec_stuck(g, s),
        in_same_cross(g, s, t),
        covers(t, r, c),
    ensures
        flip_cell(g, r, c) == cell_at(g, r, c),
{
    if exists|u: Snake| spec_flips(g, u) && #[trigger] covers(u, r, c) {
        let u = choose|u: Snake| spec_flips(g, u) && #[trigger] covers(u, r, c);
        lemma_covers_linked(g, u, t, r, c);
        assert forall|x: Snake, y: Snake| #[trigger] snake_step(g)(x, y) implies snake_step(g)(
            y,
            x,
        ) by {}
        lemma_joined_sym(snake_step(g), u, t);
        lemma_joined_trans(snake_step(g), s, t, u);
        assert(in_same_cross(g, s, u));
        lemma_stuck_same_cross(g, s, u);
        assert(false);
    }
}

/// When `list` holds exactly the snakes of `g`, connectivity within the
/// list coincides with cross membership on the board.
pub proof fn lemma_same_cross_in_board(g: Seq<Chess>, list: Seq<Snake>, x: Snake, y: Snake)
    requires
        forall|k: int| 0 <= k < list.len() ==> is_snake(g, #[trigger] list[k]),
        forall|s: Snake| is_snake(g, s) ==> list.contains(s),
    ensures
        same_cross_in(list, x, y) == in_same_cross(g, x, y),
{
    assert forall|u: Snake| #[trigger] list.contains(u) implies is_snake(g, u) by {
        let i = choose|i: int| 0 <= i < list.len() && list[i] == u;
    }
    assert forall|u: Snake, v: Snake| #[trigger] list_step(list)(u, v) == snake_step(g)(u, v) by {
        if list_step(list)(u, v) {
            assert(is_snake(g, u) && is_snake(g, v));
        }
        if snake_step(g)(u, v) {
            assert(list.contains(u) && list.contains(v));
        }
    }
    assert(list_step(list) =~= snake_step(g));
    if list.contains(x) {
        assert(is_snake(g, x));
    }
    if is_snake(g, x) {
        assert(list.contains(x));
    }
    if list.contains(y) {
        assert(is_snake(g, y));
    }
    if is_snake(g, y) {
        assert(list.contains(y));
    }
}

/// Some flipping member of the first `n` crosses covers (r, c).
pub open spec fn flipped_by_prefix(
    g: Seq<Chess>,
    crosses: Seq<Cross>,
    n: int,
    r: int,
    c: int,
) -> bool {
    exists|j: int, k: int|
        0 <= j < n && 0 <= k < crosses[j].elements@.len() && spec_flips(
            g,
            #[trigger] crosses[j].elements@[k],
        ) && covers(crosses[j].elements@[k], r, c)
}

/// Some flipping snake among the first `n` listed covers (r, c).
pub open spec fn flipped_by_members(g: Seq<Chess>, elems: Seq<Snake>, n: int, r: int, c: int) -> bool {
    exists|k: int|
        0 <= k < n && spec_flips(g, #[trigger] elems[k]) && covers(elems[k], r, c)
}

/// Group the given snakes into crosses.  Every snake lands in exactly one
/// cross, snakes of one cross are joined through intersections, and snakes
/// of different crosses are not.  To bound the pair search, the smaller
/// axis group is bucketed by fixed index and each snake of the larger
/// group is tested only against the buckets its span covers.
#[verifier::loop_isolation(false)]
#[verifier::rlimit(100)]
pub fn count_cross(snakes: &Vec<Snake>) -> (crosses: Vec<Cross>)
    requires
        forall|k: int| 0 <= k < snakes@.len() ==> snake_in_bounds(#[trigger] snakes@[k]),
        forall|k1: int, k2: int| 0 <= k1 < k2 < snakes@.len() ==> snakes@[k1] != snakes@[k2],
    ensures
        forall|i: int, k: int|
            0 <= i < crosses@.len() && 0 <= k < crosses@[i].elements@.len() ==> snakes@.contains(
                #[trigger] crosses@[i].elements@[k],
            ),
        forall|s: Snake|
            snakes@.contains(s) ==> exists|i: int, k: int|
                0 <= i < crosses@.len() && 0 <= k < crosses@[i].elements@.len()
                    && crosses@[i].elements@[k] == s,
        forall|i1: int, k1: int, i2: int, k2: int|
            #![trigger crosses@[i1].elements@[k1], crosses@[i2].elements@[k2]]
            0 <= i1 < crosses@.len() && 0 <= k1 < crosses@[i1].elements@.len() && 0 <= i2
                < crosses@.len() && 0 <= k2 < crosses@[i2].elements@.len()
                && crosses@[i1].elements@[k1] == crosses@[i2].elements@[k2] ==> i1 == i2 && k1
                == k2,
        forall|i: int, k1: int, k2: int|
            #![trigger crosses@[i].elements@[k1], crosses@[i].elements@[k2]]
            0 <= i < crosses@.len() && 0 <= k1 < crosses@[i].elements@.len() && 0 <= k2
                < crosses@[i].elements@.len() ==> same_cross_in(
                snakes@,
                crosses@[i].elements@[k1],
                crosses@[i].elements@[k2],
            ),
        forall|i1: int, k1: int, i2: int, k2: int|
            #![trigger crosses@[i1].elements@[k1], crosses@[i2].elements@[k2]]
            0 <= i1 < crosses@.len() && 0 <= k1 < crosses@[i1].elements@.len() && 0 <= i2
                < crosses@.len() && 0 <= k2 < crosses@[i2].elements@.len() && same_cross_in(
                snakes@,
                crosses@[i1].elements@[k1],
                crosses@[i2].elements@[k2],
            ) ==> i1 == i2,
{
    let ghost list: Seq<Snake> = snakes@;
    let n = snakes.len();
    let mut uf = uf_new();
    let mut horizontal: Vec<usize> = Vec::new();
    let mut vertical: Vec<usize> = Vec::new();
    let mut t: usize = 0;
    while t < n
        invariant
            t <= n,
            rel_sound(list, uf_pairs(uf)),
            forall|j: int| 0 <= j < t ==> uf_pairs(uf).contains((j, j)),
            forall|k: int|
                0 <= k < horizontal@.len() ==> (#[trigger] horizontal@[k]) < n && list[horizontal@[k] as int].axis
                    == Axis::Row,
            forall|j: usize| j < t && list[j as int].axis == Axis::Row ==> horizontal@.contains(j),
            forall|k: int|
                0 <= k < vertical@.len() ==> (#[trigger] vertical@[k]) < n && list[vertical@[k] as int].axis
                    == Axis::Column,
            forall|j: usize|
                j < t && list[j as int].axis == Axis::Column ==> vertical@.contains(j),
        decreases n - t,
    {
        let ghost old_rel: Set<(int, int)> = uf_pairs(uf);
        uf_union(&mut uf, t, t);
        proof {
            assert forall|pr: (int, int)| #[trigger] uf_pairs(uf).contains(pr) implies
                old_rel.contains(pr) || pr == (t as int, t as int) by {}
        }
        let ax = snakes[t].axis;
        proof {
            assert(ax == list[t as int].axis);
        }
        if ax == Axis::Row {
            let ghost old_h: Seq<usize> = horizontal@;
            horizontal.push(t);
            proof {
                assert forall|j: usize|
                    j < t + 1 && list[j as int].axis == Axis::Row implies horizontal@.contains(
                    j,
                ) by {
                    if j < t {
                        assert(old_h.contains(j));
                        let i = choose|i: int| 0 <= i < old_h.len() && old_h[i] == j;
                        assert(horizontal@[i] == j);
                    } else {
                        assert(horizontal@[horizontal@.len() - 1] == t);
                    }
                }
            }
        } else {
            let ghost old_v: Seq<usize> = vertical@;
            vertical.push(t);
            proof {
                assert(ax == Axis::Column);
                assert forall|j: usize|
                    j < t + 1 && list[j as int].axis == Axis::Column implies vertical@.contains(
                    j,
                ) by {
                    if j < t {
                        assert(old_v.contains(j));
                        let i = choose|i: int| 0 <= i < old_v.len() && old_v[i] == j;
                        assert(vertical@[i] == j);
                    } else {
                        assert(vertical@[vertical@.len() - 1] == t);
                    }
                }
            }
        }
        t = t + 1;
    }
    let less: Vec<usize>;
    let more: Vec<usize>;
    if horizontal.len() < vertical.len() {
        less = horizontal;
        more = vertical;
    } else {
        less = vertical;
        more = horizontal;
    }
    proof {
        assert(forall|k: int| 0 <= k < less@.len() ==> (#[trigger] less@[k]) < n);
        assert(forall|k: int| 0 <= k < more@.len() ==> (#[trigger] more@[k]) < n);
        assert(forall|k1: int, k2: int|
            #![trigger less@[k1], more@[k2]]
            0 <= k1 < less@.len() && 0 <= k2 < more@.len() ==> list[less@[k1] as int].axis
                != list[more@[k2] as int].axis);
        assert(forall|k1: int, k2: int|
            #![trigger less@[k1], less@[k2]]
            0 <= k1 < less@.len() && 0 <= k2 < less@.len() ==> list[less@[k1] as int].axis
                == list[less@[k2] as int].axis);
        assert forall|j: usize| j < n implies less@.contains(j) || more@.contains(j) by {
            if list[j as int].axis == Axis::Row {
                assert(horizontal@.contains(j));
            } else {
                assert(vertical@.contains(j));
            }
        }
    }
    let ghost rel0: Set<(int, int)> = uf_pairs(uf);
    bucket_union(snakes, &mut uf, &less, &more);
    let ghost rel: Set<(int, int)> = uf_pairs(uf);
    proof {
        assert forall|pr: (int, int)| #[trigger] rel.contains(pr) implies 0 <= pr.0 < n && 0
            <= pr.1 < n && (pr.0 == pr.1 || intersects(list[pr.0], list[pr.1])) by {
            if !rel0.contains(pr) {
                let (km, kl) = choose|km: int, kl: int|
                    0 <= km < more@.len() && 0 <= kl < less@.len() && pr == (
                        more@[km] as int,
                        less@[kl] as int,
                    ) && intersects(snakes@[pr.0], snakes@[pr.1]);
            }
        }
        assert forall|a: int, b: int| #[trigger] idx_step(list)(a, b) implies rel_step(rel)(
            a,
            b,
        ) by {
            if a == b {
                assert(rel0.contains((a, a)));
                assert(rel.contains((a, a)));
            } else {
                assert(intersects(list[a], list[b]));
                assert(list[a].axis != list[b].axis);
                assert(less@.contains(a as usize) || more@.contains(a as usize));
                assert(less@.contains(b as usize) || more@.contains(b as usize));
                if less@.contains(a as usize) && less@.contains(b as usize) {
                    let ka = choose|k: int| 0 <= k < less@.len() && less@[k] == a as usize;
                    let kb = choose|k: int| 0 <= k < less@.len() && less@[k] == b as usize;
                    assert(list[less@[ka] as int].axis == list[less@[kb] as int].axis);
                    assert(false);
                } else if less@.contains(a as usize) {
                    let ka = choose|k: int| 0 <= k < less@.len() && less@[k] == a as usize;
                    let kb = choose|k: int| 0 <= k < more@.len() && more@[k] == b as usize;
                    assert(intersects(list[more@[kb] as int], list[less@[ka] as int]));
                    assert(rel.contains((b, a)));
                } else {
                    let ka = choose|k: int| 0 <= k < more@.len() && more@[k] == a as usize;
                    if less@.contains(b as usize) {
                        let kb = choose|k: int| 0 <= k < less@.len() && less@[k] == b as usize;
                        assert(intersects(list[more@[ka] as int], list[less@[kb] as int]));
                        assert(rel.contains((a, b)));
                    } else {
                        let kb = choose|k: int| 0 <= k < more@.len() && more@[k] == b as usize;
                        assert(list[less@[0] as int].axis != list[more@[ka] as int].axis
                            || less@.len() == 0);
                        assert(list[a].axis != list[b].axis);
                        let ja = a as usize;
                        let jb = b as usize;
                        assert(list[ja as int].axis != list[jb as int].axis);
                        if list[ja as int].axis == list[more@[kb] as int].axis {
                            assert(list[more@[ka] as int].axis == list[more@[kb] as int].axis);
                            assert(false);
                        } else {
                            assert(list[more@[ka] as int].axis == list[more@[kb] as int].axis);
                            assert(false);
                        }
                    }
                }
            }
        }
        assert forall|a: int, b: int| #[trigger] rel_step(rel)(a, b) implies idx_step(list)(
            a,
            b,
        ) by {
            if rel.contains((a, b)) {
            } else {
                assert(rel.contains((b, a)));
            }
        }
        assert forall|a: int, b: int| #[trigger] rel_step(rel)(a, b) == idx_step(list)(a, b) by {
            if idx_step(list)(a, b) {
                assert(rel_step(rel)(a, b));
            }
            if rel_step(rel)(a, b) {
                assert(idx_step(list)(a, b));
            }
        }
        assert(rel_step(rel) =~= idx_step(list));
    }
    let groups = uf_groups(uf);
    proof {
        assert forall|i: int, k: int|
            0 <= i < groups@.len() && 0 <= k < groups@[i]@.len() implies (#[trigger] groups@[i]@[k])
            < n by {
            assert(rel_member(rel, groups@[i]@[k] as int));
            let pr = choose|p: (int, int)|
                #[trigger] rel.contains(p) && (p.0 == groups@[i]@[k] as int || p.1
                    == groups@[i]@[k] as int);
        }
    }
    let mut crosses: Vec<Cross> = Vec::new();
    let mut gi: usize = 0;
    while gi < groups.len()
        invariant
            crosses@.len() == gi <= groups@.len(),
            forall|i: int| 0 <= i < gi ==> (#[trigger] crosses@[i]).elements@.len() == groups@[i]@.len(),
            forall|i: int, k: int|
                #![trigger crosses@[i].elements@[k]]
                0 <= i < gi && 0 <= k < groups@[i]@.len() ==> crosses@[i].elements@[k]
                    == list[groups@[i]@[k] as int],
        decreases groups@.len() - gi,
    {
        let grp_len = groups[gi].len();
        let mut elems: Vec<Snake> = Vec::new();
        let mut k: usize = 0;
        while k < grp_len
            invariant
                gi < groups@.len(),
                grp_len == groups@[gi as int]@.len(),
                elems@.len() == k <= grp_len,
                forall|kk: int|
                    0 <= kk < k ==> (#[trigger] elems@[kk]) == list[groups@[gi as int]@[kk] as int],
            decreases grp_len - k,
        {
            let j = groups[gi][k];
            elems.push(snakes[j]);
            k = k + 1;
        }
        crosses.push(Cross { elements: elems });
        gi = gi + 1;
    }
    proof {
        assert forall|i: int, k: int|
            0 <= i < crosses@.len() && 0 <= k < crosses@[i].elements@.len() implies snakes@.contains(
            #[trigger] crosses@[i].elements@[k],
        ) by {
            let g = groups@[i]@[k] as int;
            assert(crosses@[i].elements@[k] == list[g]);
            assert(list.contains(list[g]));
        }
        assert forall|s: Snake| snakes@.contains(s) implies exists|i: int, k: int|
            0 <= i < crosses@.len() && 0 <= k < crosses@[i].elements@.len()
                && crosses@[i].elements@[k] == s by {
            let a = choose|a: int| 0 <= a < list.len() && list[a] == s;
            assert(rel0.contains((a, a)));
            assert(rel.contains((a, a)));
            assert(rel_member(rel, (a as usize) as int));
            let (i, k) = choose|i: int, k: int|
                0 <= i < groups@.len() && 0 <= k < groups@[i]@.len() && groups@[i]@[k] == (
                a as usize);
            assert(crosses@[i].elements@[k] == list[a]);
        }
        assert forall|i1: int, k1: int, i2: int, k2: int|
            0 <= i1 < crosses@.len() && 0 <= k1 < crosses@[i1].elements@.len() && 0 <= i2
                < crosses@.len() && 0 <= k2 < crosses@[i2].elements@.len() && #[trigger] crosses@[i1].elements@[k1]
                == #[trigger] crosses@[i2].elements@[k2] implies i1 == i2 && k1 == k2 by {
            let g1 = groups@[i1]@[k1];
            let g2 = groups@[i2]@[k2];
            let h1 = g1 as int;
            let h2 = g2 as int;
            assert(list[h1] == list[h2]);
            if h1 != h2 {
                if h1 < h2 {
                    assert(list[h1] != list[h2]);
                } else {
                    assert(list[h2] != list[h1]);
                }
            }
            assert(g1 == g2);
        }
        assert forall|i: int, k1: int, k2: int|
            0 <= i < crosses@.len() && 0 <= k1 < crosses@[i].elements@.len() && 0 <= k2
                < crosses@[i].elements@.len() implies same_cross_in(
            snakes@,
            #[trigger] crosses@[i].elements@[k1],
            #[trigger] crosses@[i].elements@[k2],
        ) by {
            let g1 = groups@[i]@[k1] as int;
            let g2 = groups@[i]@[k2] as int;
            assert(joined(rel_step(rel), g1, g2));
            assert(joined(idx_step(list), g1, g2));
            lemma_idx_to_val(list, g1, g2);
            assert(list.contains(list[g1]));
            assert(list.contains(list[g2]));
        }
        assert forall|i1: int, k1: int, i2: int, k2: int|
            0 <= i1 < crosses@.len() && 0 <= k1 < crosses@[i1].elements@.len() && 0 <= i2
                < crosses@.len() && 0 <= k2 < crosses@[i2].elements@.len() && same_cross_in(
            snakes@,
            #[trigger] crosses@[i1].elements@[k1],
            #[trigger] crosses@[i2].elements@[k2],
        ) implies i1 == i2 by {
            let g1 = groups@[i1]@[k1] as int;
            let g2 = groups@[i2]@[k2] as int;
            lemma_val_to_idx(list, g1, g2);
            assert(joined(idx_step(list), g1, g2));
            assert(joined(rel_step(rel), g1, g2));
        }
    }
    crosses
}

/// After appending, everything contained in either part is contained in the
/// whole, and indexing into the two halves is undisturbed.
pub proof fn lemma_append_keeps<T>(a: Seq<T>, b: Seq<T>, c: Seq<T>)
    requires
        c == a + b,
    ensures
        forall|s: T| a.contains(s) ==> c.contains(s),
        forall|s: T| b.contains(s) ==> c.contains(s),
        c.len() == a.len() + b.len(),
        forall|k: int| 0 <= k < a.len() ==> c[k] == a[k],
        forall|k: int| a.len() <= k < c.len() ==> c[k] == b[k - a.len()],
{
    assert forall|s: T| a.contains(s) implies c.contains(s) by {
        let i = choose|i: int| 0 <= i < a.len() && a[i] == s;
        assert(c[i] == s);
    }
    assert forall|s: T| b.contains(s) implies c.contains(s) by {
        let i = choose|i: int| 0 <= i < b.len() && b[i] == s;
        assert(c[a.len() + i] == s);
    }
}

} // verus!
