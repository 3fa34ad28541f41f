use crate::game::board::{has_king, in_range, king_cell, Board, Cell, Color, Grid, HasColor};
use crate::game::flood_fill::{flood_fill, region, Fill};
use vstd::prelude::*;

verus! {

/// What the ring of attackers encloses: the flood from the King through
/// every square that Black does not hold, and through each Black piece that
/// stands between two flooded squares and so is no part of the ring.
pub open spec fn enclosure(g: Grid) -> Set<Cell> {
    region(g, Fill::Enclosure, king_cell(g))
}

/// At square (x, y) nothing speaks against a win by surrounding: if the
/// enclosure covers the square, it lies at least two steps from the rim, so
/// that the flood neither stands on the rim nor touches it; and if the
/// square holds a White piece or the King, the enclosure covers it.
pub open spec fn enclosed_at(g: Grid, v: Set<Cell>, x: int, y: int) -> bool {
    &&& v.contains((x, y)) ==> 2 <= x <= 8 && 2 <= y <= 8
    &&& g[x][y].spec_color() == Color::White ==> v.contains((x, y))
}

/// Black has won by surrounding: the King is on the board, the flood from
/// him never comes to the rim of the board, and it covers every White piece.
pub open spec fn surrounded(g: Grid) -> bool {
    &&& has_king(g)
    &&& forall|x: int, y: int| in_range(x, y) ==> #[trigger] enclosed_at(g, enclosure(g), x, y)
}

/// Whether Black has won by surrounding the King and all of White's pieces.
pub fn surround_win(board: Board) -> (b: bool)
    ensures
        b == surrounded(board.grid()),
{
    let king = match board.find_king() {
        Some(p) => p,
        None => {
            return false;
        },
    };
    let reg = flood_fill(&board, Fill::Enclosure, king.0, king.1);
    let ghost g = board.grid();
    let ghost v = enclosure(g);
    let mut i: usize = 0;
    while i < 11
        invariant
            g == board.grid(),
            v == enclosure(g),
            reg@ == v,
            has_king(g),
            i <= 11,
            forall|x: int, y: int| 0 <= x < i && 0 <= y <= 10 ==> #[trigger] enclosed_at(g, v, x, y),
        decreases 11 - i,
    {
        let mut j: usize = 0;
        while j < 11
            invariant
                g == board.grid(),
                v == enclosure(g),
                reg@ == v,
                has_king(g),
                i < 11,
                j <= 11,
                forall|x: int, y: int| 0 <= x < i && 0 <= y <= 10 ==> #[trigger] enclosed_at(g, v, x, y),
                forall|y: int| 0 <= y < j ==> #[trigger] enclosed_at(g, v, i as int, y),
            decreases 11 - j,
        {
            let inside = reg.contains(i, j);
            if inside && (i < 2 || i > 8 || j < 2 || j > 8) {
                assert(!enclosed_at(g, v, i as int, j as int));
                return false;
            }
            if !inside && board.board[i][j].color() == Color::White {
                assert(!enclosed_at(g, v, i as int, j as int));
                return false;
            }
            j = j + 1;
        }
        i = i + 1;
    }
    true
}

/// Black has surrounded White exactly when the King is on the board, the
/// flood from him covers every White piece, and no square that it covers
/// lies on the rim or next to it.
pub proof fn lemma_surrounded_means_enclosed(g: Grid)
    ensures
        surrounded(g) <==> {
            &&& has_king(g)
            &&& forall|x: int, y: int|
                in_range(x, y) && (#[trigger] g[x][y]).spec_color() == Color::White ==> enclosure(g).contains((x, y))
            &&& forall|x: int, y: int|
                in_range(x, y) && #[trigger] enclosure(g).contains((x, y)) ==> 2 <= x <= 8 && 2 <= y <= 8
        },
{
    if surrounded(g) {
        assert forall|x: int, y: int|
            in_range(x, y) && (#[trigger] g[x][y]).spec_color() == Color::White implies enclosure(g).contains(
            (x, y),
        ) by {
            assert(enclosed_at(g, enclosure(g), x, y));
        }
        assert forall|x: int, y: int| in_range(x, y) && #[trigger] enclosure(g).contains((x, y)) implies 2 <= x
            <= 8 && 2 <= y <= 8 by {
            assert(enclosed_at(g, enclosure(g), x, y));
        }
    }
}

/// A White piece that the flood from the King does not reach, and a
/// flooded square on the rim or next to it, each deny Black the win.
pub proof fn lemma_gap_or_straggler_denies_the_win(g: Grid, x: int, y: int)
    requires
        in_range(x, y),
        (g[x][y].spec_color() == Color::White && !enclosure(g).contains((x, y))) || (enclosure(g).contains((x, y))
            && !(2 <= x <= 8 && 2 <= y <= 8)),
    ensures
        !surrounded(g),
{
    assert(!enclosed_at(g, enclosure(g), x, y));
}

} // verus!
