use crate::game::board::{has_king, in_range, king_cell, on_edge, Board, Cell, Color, Grid, HasColor, Tile};
use crate::game::flood_fill::{flood_fill, near, region, Fill, Region};
use crate::game::legal_moves::{cells, destinations, get_legal_moves};
use vstd::prelude::*;

verus! {

/// The room around the King: the flood from him through every square that
/// holds neither a Black nor a White piece.
pub open spec fn shelter(g: Grid) -> Set<Cell> {
    region(g, Fill::Shelter, king_cell(g))
}

/// Square `d` backs a wall piece that stands next to it: the shelter covers
/// the square, or White holds it.
pub open spec fn guarded(g: Grid, v: Set<Cell>, d: Cell) -> bool {
    v.contains(d) || g[d.0][d.1].spec_color() == Color::White
}

/// At square (x, y) the fort holds. A square that the shelter does not touch
/// is of no concern. One that it touches holds no Black piece; and if it
/// holds a White piece, that piece cannot be taken: along the column, unless
/// the piece stands in the first or last row, one of its two neighbours is
/// guarded, and likewise along the row.
pub open spec fn fort_holds_at(g: Grid, v: Set<Cell>, x: int, y: int) -> bool {
    near(v, (x, y)) ==> {
        &&& g[x][y] != Tile::Black
        &&& g[x][y] == Tile::White ==> {
            &&& 0 < x < 10 ==> guarded(g, v, (x - 1, y)) || guarded(g, v, (x + 1, y))
            &&& 0 < y < 10 ==> guarded(g, v, (x, y - 1)) || guarded(g, v, (x, y + 1))
        }
    }
}

/// White has built an edge fort: the King stands on the rim and can still
/// move, no Black piece touches his shelter, and every White piece that
/// walls the shelter in is safe from capture.
pub open spec fn is_edge_fort(g: Grid) -> bool {
    &&& has_king(g)
    &&& on_edge(king_cell(g).0, king_cell(g).1)
    &&& destinations(g, king_cell(g)).len() > 0
    &&& forall|x: int, y: int| in_range(x, y) ==> #[trigger] fort_holds_at(g, shelter(g), x, y)
}

/// Whether the shelter covers (x, y) or White holds the square.
fn is_guarded(board: &Board, reg: &Region, x: usize, y: usize) -> (b: bool)
    requires
        in_range(x as int, y as int),
    ensures
        b == guarded(board.grid(), reg@, (x as int, y as int)),
{
    reg.contains(x, y) || board.board[x][y].color() == Color::White
}

/// Whether the fort holds at (x, y).
fn holds_at(board: &Board, reg: &Region, x: usize, y: usize) -> (b: bool)
    requires
        in_range(x as int, y as int),
    ensures
        b == fort_holds_at(board.grid(), reg@, x as int, y as int),
{
    if !reg.touches(x, y) {
        return true;
    }
    let tile = board.board[x][y];
    if tile == Tile::Black {
        return false;
    }
    if tile == Tile::White {
        if x > 0 && x < 10 {
            if !is_guarded(board, reg, x - 1, y) && !is_guarded(board, reg, x + 1, y) {
                return false;
            }
        }
        if y > 0 && y < 10 {
            if !is_guarded(board, reg, x, y - 1) && !is_guarded(board, reg, x, y + 1) {
                return false;
            }
        }
    }
    true
}

/// Whether White has won by building an edge fort around the King.
pub fn edge_fort(board: Board) -> (b: bool)
    ensures
        b == is_edge_fort(board.grid()),
{
    let (king_x, king_y) = match board.find_king() {
        Some(p) => p,
        None => {
            return false;
        },
    };
    if king_x != 0 && king_x != 10 && king_y != 0 && king_y != 10 {
        return false;
    }
    match get_legal_moves(board, king_x, king_y) {
        Ok(moves) => {
            assert(cells(moves@).len() == moves@.len());
            if moves.len() == 0 {
                return false;
            }
        },
        Err(_) => {
            return false;
        },
    }
    let reg = flood_fill(&board, Fill::Shelter, king_x, king_y);
    let ghost g = board.grid();
    let ghost v = shelter(g);
    let mut i: usize = 0;
    while i < 11
        invariant
            g == board.grid(),
            reg@ == v,
            v == shelter(g),
            i <= 11,
            forall|x: int, y: int| 0 <= x < i && 0 <= y <= 10 ==> #[trigger] fort_holds_at(g, v, x, y),
        decreases 11 - i,
    {
        let mut j: usize = 0;
        while j < 11
            invariant
                g == board.grid(),
                reg@ == v,
                v == shelter(g),
                i < 11,
                j <= 11,
                forall|x: int, y: int| 0 <= x < i && 0 <= y <= 10 ==> #[trigger] fort_holds_at(g, v, x, y),
                forall|y: int| 0 <= y < j ==> #[trigger] fort_holds_at(g, v, i as int, y),
            decreases 11 - j,
        {
            if !holds_at(&board, &reg, i, j) {
                return false;
            }
            j = j + 1;
        }
        i = i + 1;
    }
    true
}

/// A King who cannot move, or who stands off the rim, has no fort.
pub proof fn lemma_fort_needs_a_free_king_on_the_rim(g: Grid)
    requires
        has_king(g),
        destinations(g, king_cell(g)).len() == 0 || !on_edge(king_cell(g).0, king_cell(g).1),
    ensures
        !is_edge_fort(g),
{
}

/// A Black piece that touches the King's shelter breaks the fort.
pub proof fn lemma_black_at_the_shelter_breaks_the_fort(g: Grid, x: int, y: int)
    requires
        in_range(x, y),
        near(shelter(g), (x, y)),
        g[x][y] == Tile::Black,
    ensures
        !is_edge_fort(g),
{
    assert(!fort_holds_at(g, shelter(g), x, y));
}

/// A White piece at the shelter that can be taken along its row or its
/// column breaks the fort.
pub proof fn lemma_open_wall_breaks_the_fort(g: Grid, x: int, y: int)
    requires
        in_range(x, y),
        near(shelter(g), (x, y)),
        g[x][y] == Tile::White,
        (0 < x < 10 && !guarded(g, shelter(g), (x - 1, y)) && !guarded(g, shelter(g), (x + 1, y))) || (0 < y < 10
            && !guarded(g, shelter(g), (x, y - 1)) && !guarded(g, shelter(g), (x, y + 1))),
    ensures
        !is_edge_fort(g),
{
    assert(!fort_holds_at(g, shelter(g), x, y));
}

} // verus!
