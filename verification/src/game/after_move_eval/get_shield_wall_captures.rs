use crate::game::board::{in_range, precedes, Board, Cell, Color, Grid, HasColor, Tile};
use crate::game::flood_fill::{flood_fill, near, region, Fill, Region};
use crate::game::legal_moves::Heading;
use vstd::prelude::*;

verus! {

/// The side that a piece of `color` fights against.
pub open spec fn foe_of(color: Color) -> Color {
    if color == Color::White {
        Color::Black
    } else {
        Color::White
    }
}

/// The pieces of `side` that hang together with the one on `seed`.
pub open spec fn group(g: Grid, side: Color, seed: Cell) -> Set<Cell> {
    region(g, Fill::Group(side), seed)
}

/// Square (x, y) is empty and lies next to the group: the group can still
/// breathe there.
pub open spec fn breathes_at(g: Grid, v: Set<Cell>, x: int, y: int) -> bool {
    near(v, (x, y)) && g[x][y] == Tile::Empty
}

/// A piece of `side` stands on `seed`, and no empty square lies next to its
/// group.
pub open spec fn walled_in(g: Grid, side: Color, seed: Cell) -> bool {
    &&& in_range(seed.0, seed.1)
    &&& g[seed.0][seed.1].spec_color() == side
    &&& forall|x: int, y: int| in_range(x, y) ==> !#[trigger] breathes_at(g, group(g, side, seed), x, y)
}

/// The piece on `c` falls with the walled-in group of `seed`. The King is
/// never taken this way.
pub open spec fn falls_with(g: Grid, side: Color, seed: Cell, c: Cell) -> bool {
    walled_in(g, side, seed) && group(g, side, seed).contains(c) && g[c.0][c.1] != Tile::King
}

/// The piece that has just moved to (x, y) takes the piece on `c` by
/// shieldwall: `c` belongs to a walled-in group of the other side that
/// begins on a square next to (x, y).
pub open spec fn shield_captured(g: Grid, x: int, y: int, c: Cell) -> bool {
    &&& in_range(x, y)
    &&& g[x][y].spec_color() != Color::Neither
    &&& {
        let side = foe_of(g[x][y].spec_color());
        ||| falls_with(g, side, Heading::ColumnUp.shift((x, y), 1), c)
        ||| falls_with(g, side, Heading::RowUp.shift((x, y), 1), c)
        ||| falls_with(g, side, Heading::ColumnDown.shift((x, y), 1), c)
        ||| falls_with(g, side, Heading::RowDown.shift((x, y), 1), c)
    }
}

/// The group that begins one step from (x, y) in heading `h`, if a piece of
/// `side` stands there and the group is walled in.
fn walled_group(board: &Board, side: Color, x: usize, y: usize, h: Heading) -> (r: Option<Region>)
    requires
        in_range(x as int, y as int),
    ensures
        r is Some <==> walled_in(board.grid(), side, h.shift((x as int, y as int), 1)),
        r matches Some(reg) ==> reg@ == group(board.grid(), side, h.shift((x as int, y as int), 1)),
{
    let (sx, sy) = match h.next(x, y) {
        Some(p) => p,
        None => {
            return None;
        },
    };
    if board.board[sx][sy].color() != side {
        return None;
    }
    let reg = flood_fill(board, Fill::Group(side), sx, sy);
    let ghost g = board.grid();
    let ghost v = reg@;
    let mut i: usize = 0;
    let mut j: usize = 0;
    while i < 11
        invariant
            g == board.grid(),
            v == reg@,
            v == group(g, side, (sx as int, sy as int)),
            (sx as int, sy as int) == h.shift((x as int, y as int), 1),
            in_range(sx as int, sy as int),
            g[sx as int][sy as int].spec_color() == side,
            i <= 11,
            j <= 10,
            forall|a: int, b: int| in_range(a, b) && precedes((a, b), (i as int, j as int)) ==> !#[trigger] breathes_at(g, v, a, b),
        decreases (11 - i) * 11 - j,
    {
        if board.board[i][j] == Tile::Empty && reg.touches(i, j) {
            assert(breathes_at(g, v, i as int, j as int));
            return None;
        }
        assert(!breathes_at(g, v, i as int, j as int));
        if j == 10 {
            i = i + 1;
            j = 0;
        } else {
            j = j + 1;
        }
    }
    Some(reg)
}

/// Whether the group, if there is one, holds (x, y).
fn holds(group: &Option<Region>, x: usize, y: usize) -> (b: bool)
    ensures
        b == (group is Some && group->Some_0@.contains((x as int, y as int))),
{
    match group {
        Some(reg) => reg.contains(x, y),
        None => false,
    }
}

/// The squares whose pieces the piece that has just moved to (x, y) takes
/// by shieldwall, in reading order. Nothing is taken when (x, y) lies off
/// the board or holds no piece.
pub fn get_shield_wall_captures(board: Board, x: usize, y: usize) -> (r: Vec<(usize, usize)>)
    ensures
        forall|p: (usize, usize)| #[trigger]
            r@.contains(p) <==> in_range(p.0 as int, p.1 as int) && shield_captured(
                board.grid(),
                x as int,
                y as int,
                (p.0 as int, p.1 as int),
            ),
        forall|a: int, b: int|
            0 <= a < b < r@.len() ==> precedes(
                ((#[trigger] r@[a]).0 as int, r@[a].1 as int),
                ((#[trigger] r@[b]).0 as int, r@[b].1 as int),
            ),
{
    let mut out: Vec<(usize, usize)> = Vec::new();
    if x > 10 || y > 10 {
        return out;
    }
    let color = board.board[x][y].color();
    if color == Color::Neither {
        return out;
    }
    let side = if color == Color::White {
        Color::Black
    } else {
        Color::White
    };
    let first = walled_group(&board, side, x, y, Heading::ColumnUp);
    let second = walled_group(&board, side, x, y, Heading::RowUp);
    let third = walled_group(&board, side, x, y, Heading::ColumnDown);
    let fourth = walled_group(&board, side, x, y, Heading::RowDown);
    let ghost g = board.grid();
    let mut i: usize = 0;
    let mut j: usize = 0;
    while i < 11
        invariant
            g == board.grid(),
            in_range(x as int, y as int),
            g[x as int][y as int].spec_color() != Color::Neither,
            side == foe_of(g[x as int][y as int].spec_color()),
            first is Some <==> walled_in(g, side, Heading::ColumnUp.shift((x as int, y as int), 1)),
            first matches Some(reg) ==> reg@ == group(g, side, Heading::ColumnUp.shift((x as int, y as int), 1)),
            second is Some <==> walled_in(g, side, Heading::RowUp.shift((x as int, y as int), 1)),
            second matches Some(reg) ==> reg@ == group(g, side, Heading::RowUp.shift((x as int, y as int), 1)),
            third is Some <==> walled_in(g, side, Heading::ColumnDown.shift((x as int, y as int), 1)),
            third matches Some(reg) ==> reg@ == group(
                g,
                side,
                Heading::ColumnDown.shift((x as int, y as int), 1),
            ),
            fourth is Some <==> walled_in(g, side, Heading::RowDown.shift((x as int, y as int), 1)),
            fourth matches Some(reg) ==> reg@ == group(g, side, Heading::RowDown.shift((x as int, y as int), 1)),
            i <= 11,
            j <= 10,
            forall|p: (usize, usize)| #[trigger]
                out@.contains(p) <==> in_range(p.0 as int, p.1 as int) && precedes(
                    (p.0 as int, p.1 as int),
                    (i as int, j as int),
                ) && shield_captured(g, x as int, y as int, (p.0 as int, p.1 as int)),
            forall|a: int, b: int|
                0 <= a < b < out@.len() ==> precedes(
                    ((#[trigger] out@[a]).0 as int, out@[a].1 as int),
                    ((#[trigger] out@[b]).0 as int, out@[b].1 as int),
                ),
        decreases (11 - i) * 11 - j,
    {
        let ghost before = out@;
        let taken = board.board[i][j] != Tile::King && (holds(&first, i, j) || holds(&second, i, j) || holds(
            &third,
            i,
            j,
        ) || holds(&fourth, i, j));
        assert(taken == shield_captured(g, x as int, y as int, (i as int, j as int)));
        if taken {
            out.push((i, j));
            proof {
                assert forall|a: int, b: int| 0 <= a < b < out@.len() implies precedes(
                    ((#[trigger] out@[a]).0 as int, out@[a].1 as int),
                    ((#[trigger] out@[b]).0 as int, out@[b].1 as int),
                ) by {
                    if b == before.len() {
                        assert(before.contains(before[a]));
                    }
                }
            }
        }
        let ghost pi = i;
        let ghost pj = j;
        if j == 10 {
            i = i + 1;
            j = 0;
        } else {
            j = j + 1;
        }
        proof {
            assert forall|p: (usize, usize)| #[trigger]
                out@.contains(p) <==> in_range(p.0 as int, p.1 as int) && precedes(
                    (p.0 as int, p.1 as int),
                    (i as int, j as int),
                ) && shield_captured(g, x as int, y as int, (p.0 as int, p.1 as int)) by {
                if taken {
                    assert(out@ == before.push((pi, pj)));
                    if out@.contains(p) {
                        let k = choose|k: int| 0 <= k < out@.len() && out@[k] == p;
                        if k < before.len() {
                            assert(before.contains(p));
                        }
                    }
                    if before.contains(p) {
                        let k = choose|k: int| 0 <= k < before.len() && before[k] == p;
                        assert(out@[k] == p);
                    }
                    if p == (pi, pj) {
                        assert(out@[before.len() as int] == p);
                    }
                }
            }
        }
    }
    out
}

} // verus!
