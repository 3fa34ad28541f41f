use crate::game::after_move_eval::captures_in_dir::{captured_in_dir, captures_in_dir, king_hemmed};
use crate::game::after_move_eval::edge_fort::{edge_fort, is_edge_fort};
use crate::game::after_move_eval::get_shield_wall_captures::{
    falls_with, foe_of, get_shield_wall_captures, group, shield_captured, walled_in,
};
use crate::game::after_move_eval::surround_win::{surround_win, surrounded};
use crate::game::board::{
    cleared, grid_set, grid_wf, ground, in_range, is_corner, lemma_cleared_nothing, lemma_cleared_one_more,
    standard_layout, Board,
    Cell, Color, Grid, HasColor, Position, Tile,
};
use crate::game::flood_fill::lemma_group_is_one_side;
use crate::game::legal_moves::Heading;
use vstd::prelude::*;

pub mod captures_in_dir;
pub mod edge_fort;
pub mod get_shield_wall_captures;
pub mod surround_win;

verus! {

/// A piece stands on (x, y): the one that has just moved.
pub open spec fn piece_moved(g: Grid, x: int, y: int) -> bool {
    in_range(x, y) && g[x][y].spec_color() != Color::Neither
}

/// The King has just stepped onto a corner.
pub open spec fn king_escaped(g: Grid, x: int, y: int) -> bool {
    in_range(x, y) && g[x][y] == Tile::King && is_corner(x, y)
}

/// The piece on (x, y) takes the piece on `c`, its neighbour, between
/// itself and the tile behind `c`.
pub open spec fn taken_in_dir(g: Grid, x: int, y: int, c: Cell) -> bool {
    ||| c == (x - 1, y) && captured_in_dir(g, x, y, -1, 0)
    ||| c == (x, y + 1) && captured_in_dir(g, x, y, 0, 1)
    ||| c == (x + 1, y) && captured_in_dir(g, x, y, 1, 0)
    ||| c == (x, y - 1) && captured_in_dir(g, x, y, 0, -1)
}

/// The move to (x, y) takes the piece on `c` off the board, by shieldwall
/// or between two hostile tiles.
pub open spec fn removed(g: Grid, x: int, y: int, c: Cell) -> bool {
    shield_captured(g, x, y, c) || taken_in_dir(g, x, y, c)
}

/// The squares whose pieces the move to (x, y) takes.
pub open spec fn removed_set(g: Grid, x: int, y: int) -> Set<Cell> {
    Set::new(|c: Cell| in_range(c.0, c.1) && removed(g, x, y, c))
}

/// The tiles after the move to (x, y) has been resolved. Without a piece on
/// (x, y), and when the King has escaped, nothing changes. Otherwise every
/// square whose piece is taken is empty, the throne not excepted. Every
/// capture is judged on the board as it stood right after the move, so
/// that one capture does not undo another.
pub open spec fn resolved_grid(g: Grid, x: int, y: int) -> Grid {
    if !piece_moved(g, x, y) || king_escaped(g, x, y) {
        g
    } else {
        cleared(g, removed_set(g, x, y))
    }
}

/// The winner after the move to (x, y) has been resolved. White wins when
/// the King has escaped to a corner, or when a White piece or the King has
/// moved and White holds an edge fort. Black wins when a Black piece has
/// moved and Black has surrounded White. Otherwise the winner stays as it
/// was. Fort and surrounding are judged on the board after the captures of
/// the move: a piece that the move takes neither breaks a fort nor has to be
/// enclosed.
pub open spec fn resolved_winner(g: Grid, winner: Color, x: int, y: int) -> Color {
    if !piece_moved(g, x, y) {
        winner
    } else if king_escaped(g, x, y) {
        Color::White
    } else if g[x][y].spec_color() == Color::White && is_edge_fort(resolved_grid(g, x, y)) {
        Color::White
    } else if g[x][y].spec_color() == Color::Black && surrounded(resolved_grid(g, x, y)) {
        Color::Black
    } else {
        winner
    }
}

/// The squares among the first `n` of a list.
spec fn listed(v: Seq<(usize, usize)>, n: int) -> Set<Cell> {
    Set::new(|c: Cell| exists|k: int| 0 <= k < n && (#[trigger] v[k]).0 == c.0 && v[k].1 == c.1)
}

/// Empties every listed square of the board.
fn clear_listed(board: &mut Board, list: &Vec<(usize, usize)>)
    requires
        forall|k: int| 0 <= k < list@.len() ==> in_range((#[trigger] list@[k]).0 as int, list@[k].1 as int),
    ensures
        final(board).grid() == cleared(old(board).grid(), listed(list@, list@.len() as int)),
        final(board).winner == old(board).winner,
{
    let ghost g = board.grid();
    proof {
        board.lemma_grid_wf();
        lemma_cleared_nothing(g);
        assert(listed(list@, 0) =~= Set::<Cell>::empty());
    }
    let mut k: usize = 0;
    while k < list.len()
        invariant
            k <= list@.len(),
            forall|k: int| 0 <= k < list@.len() ==> in_range((#[trigger] list@[k]).0 as int, list@[k].1 as int),
            board.winner == old(board).winner,
            board.grid() == cleared(g, listed(list@, k as int)),
        decreases list@.len() - k,
    {
        let (cx, cy) = list[k];
        board.set_tile(Tile::Empty, cx, cy);
        proof {
            lemma_cleared_one_more(g, listed(list@, k as int), cx as int, cy as int);
            let bigger = listed(list@, k as int).insert((cx as int, cy as int));
            assert forall|c: Cell| listed(list@, k + 1).contains(c) implies bigger.contains(c) by {
                let w = choose|w: int| 0 <= w < k + 1 && (#[trigger] list@[w]).0 == c.0 && list@[w].1 == c.1;
                if w < k {
                    assert(listed(list@, k as int).contains(c));
                }
            }
            assert forall|c: Cell| bigger.contains(c) implies listed(list@, k + 1).contains(c) by {
                if c == (cx as int, cy as int) {
                    assert(list@[k as int].0 == c.0 && list@[k as int].1 == c.1);
                } else {
                    let w = choose|w: int| 0 <= w < k && (#[trigger] list@[w]).0 == c.0 && list@[w].1 == c.1;
                    assert(list@[w].0 == c.0 && list@[w].1 == c.1);
                }
            }
            assert(listed(list@, k + 1) =~= bigger);
        }
        k = k + 1;
    }
}

/// Empties the neighbour of (x, y) at offset (dx, dy) if the piece on (x, y)
/// takes it. `seen` is the board on which captures are judged.
fn clear_if_taken(board: &mut Board, seen: &Board, x: usize, y: usize, dx: isize, dy: isize, Ghost(s): Ghost<Set<Cell>>)
    requires
        old(board).grid() == cleared(seen.grid(), s),
    ensures
        final(board).winner == old(board).winner,
        final(board).grid() == cleared(
            seen.grid(),
            if captured_in_dir(seen.grid(), x as int, y as int, dx as int, dy as int) {
                s.insert((x + dx, y + dy))
            } else {
                s
            },
        ),
{
    if captures_in_dir(*seen, x, y, dx, dy) {
        let cx = (x as isize + dx) as usize;
        let cy = (y as isize + dy) as usize;
        board.set_tile(Tile::Empty, cx, cy);
        proof {
            lemma_cleared_one_more(seen.grid(), s, cx as int, cy as int);
        }
    }
}

/// Resolves the move that has just brought a piece to (x, y): takes the
/// captured pieces off the board and names the winner, if the move decides
/// the game. A square off the board or without a piece leaves the board as
/// it is.
pub fn after_move_eval(board: Board, x: usize, y: usize) -> (r: Board)
    ensures
        r.grid() == resolved_grid(board.grid(), x as int, y as int),
        r.winner == resolved_winner(board.grid(), board.winner, x as int, y as int),
{
    let mut new_board: Board = board;
    let tile = match board.get_tile(x, y) {
        Ok(t) => t,
        Err(_) => {
            return board;
        },
    };
    let tile_color = tile.color();
    if tile_color == Color::Neither {
        return board;
    }
    if tile == Tile::King && (x == 0 || x == 10) && (y == 0 || y == 10) {
        new_board.winner = Color::White;
        return new_board;
    }
    let ghost g = board.grid();
    let shieldwall_captured_coords = get_shield_wall_captures(board, x, y);
    proof {
        assert forall|k: int| 0 <= k < shieldwall_captured_coords@.len() implies in_range(
            (#[trigger] shieldwall_captured_coords@[k]).0 as int,
            shieldwall_captured_coords@[k].1 as int,
        ) by {
            assert(shieldwall_captured_coords@.contains(shieldwall_captured_coords@[k]));
        }
    }
    clear_listed(&mut new_board, &shieldwall_captured_coords);
    let ghost s0 = listed(shieldwall_captured_coords@, shieldwall_captured_coords@.len() as int);
    let ghost s1 = if captured_in_dir(g, x as int, y as int, -1, 0) {
        s0.insert((x - 1, y as int))
    } else {
        s0
    };
    let ghost s2 = if captured_in_dir(g, x as int, y as int, 0, 1) {
        s1.insert((x as int, y + 1))
    } else {
        s1
    };
    let ghost s3 = if captured_in_dir(g, x as int, y as int, 1, 0) {
        s2.insert((x + 1, y as int))
    } else {
        s2
    };
    let ghost s4 = if captured_in_dir(g, x as int, y as int, 0, -1) {
        s3.insert((x as int, y - 1))
    } else {
        s3
    };
    clear_if_taken(&mut new_board, &board, x, y, -1, 0, Ghost(s0));
    clear_if_taken(&mut new_board, &board, x, y, 0, 1, Ghost(s1));
    clear_if_taken(&mut new_board, &board, x, y, 1, 0, Ghost(s2));
    clear_if_taken(&mut new_board, &board, x, y, 0, -1, Ghost(s3));
    proof {
        lemma_removed_set(g, x as int, y as int, shieldwall_captured_coords@, s0, s1, s2, s3, s4);
    }
    if tile_color == Color::White {
        if edge_fort(new_board) {
            new_board.winner = Color::White;
        }
    } else if surround_win(new_board) {
        new_board.winner = Color::Black;
    }
    new_board
}

/// The tiles right after the piece on `from` has been set down on `to`:
/// the square it left shows its ground again.
pub open spec fn moved_grid(g: Grid, from: Cell, to: Cell) -> Grid {
    grid_set(grid_set(g, from.0, from.1, ground(from.0, from.1)), to.0, to.1, g[from.0][from.1])
}

/// The position after the piece on `from` has gone to `to` and the move has
/// been resolved.
pub open spec fn after_move(p: Position, from: Cell, to: Cell) -> Position {
    Position {
        grid: resolved_grid(moved_grid(p.grid, from, to), to.0, to.1),
        winner: resolved_winner(moved_grid(p.grid, from, to), p.winner, to.0, to.1),
    }
}

/// Carries the piece on `from` to `to` and resolves the move. Whether the
/// move is legal is not asked.
pub fn move_and_resolve(board: &Board, from: (usize, usize), to: (usize, usize)) -> (r: Board)
    requires
        in_range(from.0 as int, from.1 as int),
        in_range(to.0 as int, to.1 as int),
    ensures
        r@ == after_move(board@, (from.0 as int, from.1 as int), (to.0 as int, to.1 as int)),
{
    let piece = board.board[from.0][from.1];
    let mut new_board = *board;
    new_board.clear_tile(from.0, from.1);
    new_board.set_tile(piece, to.0, to.1);
    after_move_eval(new_board, to.0, to.1)
}

/// The squares cleared one after another are the squares that the move
/// takes.
proof fn lemma_removed_set(
    g: Grid,
    x: int,
    y: int,
    v: Seq<(usize, usize)>,
    s0: Set<Cell>,
    s1: Set<Cell>,
    s2: Set<Cell>,
    s3: Set<Cell>,
    s4: Set<Cell>,
)
    requires
        forall|p: (usize, usize)| #[trigger]
            v.contains(p) <==> in_range(p.0 as int, p.1 as int) && shield_captured(
                g,
                x,
                y,
                (p.0 as int, p.1 as int),
            ),
        s0 == listed(v, v.len() as int),
        s1 == if captured_in_dir(g, x, y, -1, 0) {
            s0.insert((x - 1, y))
        } else {
            s0
        },
        s2 == if captured_in_dir(g, x, y, 0, 1) {
            s1.insert((x, y + 1))
        } else {
            s1
        },
        s3 == if captured_in_dir(g, x, y, 1, 0) {
            s2.insert((x + 1, y))
        } else {
            s2
        },
        s4 == if captured_in_dir(g, x, y, 0, -1) {
            s3.insert((x, y - 1))
        } else {
            s3
        },
    ensures
        s4 == removed_set(g, x, y),
{
    assert forall|c: Cell| s0.contains(c) <==> in_range(c.0, c.1) && shield_captured(g, x, y, c) by {
        if s0.contains(c) {
            let w = choose|w: int| 0 <= w < v.len() && (#[trigger] v[w]).0 == c.0 && v[w].1 == c.1;
            assert(v.contains(v[w]));
        }
        if in_range(c.0, c.1) && shield_captured(g, x, y, c) {
            let p = (c.0 as usize, c.1 as usize);
            assert(v.contains(p));
            let w = choose|w: int| 0 <= w < v.len() && v[w] == p;
            assert(v[w].0 == c.0 && v[w].1 == c.1);
        }
    }
    assert(s4 =~= removed_set(g, x, y));
}

/// Square `b` lies one step from square `a`, along its row or its column.
pub open spec fn next_to(a: Cell, b: Cell) -> bool {
    ||| b == (a.0 - 1, a.1)
    ||| b == (a.0, a.1 + 1)
    ||| b == (a.0 + 1, a.1)
    ||| b == (a.0, a.1 - 1)
}

/// The King leaves the board only when he is hemmed in on all four sides:
/// where a move takes him, he stands off the rim, each of his neighbours is
/// a Black piece or the throne, and the piece that moved is a Black piece
/// next to him.
pub proof fn lemma_king_falls_only_hemmed(g: Grid, x: int, y: int, c: Cell)
    requires
        grid_wf(g),
        in_range(c.0, c.1),
        g[c.0][c.1] == Tile::King,
        resolved_grid(g, x, y)[c.0][c.1] != Tile::King,
    ensures
        king_hemmed(g, c.0, c.1),
        next_to((x, y), c),
        g[x][y] == Tile::Black,
{
    assert(removed_set(g, x, y).contains(c));
    assert(taken_in_dir(g, x, y, c));
}

/// A hemmed-in King falls to the Black piece that moves next to him.
pub proof fn lemma_hemmed_king_falls(g: Grid, x: int, y: int, c: Cell)
    requires
        grid_wf(g),
        in_range(x, y),
        g[c.0][c.1] == Tile::King,
        king_hemmed(g, c.0, c.1),
        next_to((x, y), c),
        g[x][y] == Tile::Black,
    ensures
        resolved_grid(g, x, y)[c.0][c.1] == Tile::Empty,
{
    assert(taken_in_dir(g, x, y, c));
    assert(removed_set(g, x, y).contains(c));
}

/// Three hostile sides are not enough: a King with a neighbour that is
/// neither a Black piece nor the throne, or with a side on the rim, stays.
pub proof fn lemma_king_with_a_free_side_stays(g: Grid, x: int, y: int, c: Cell)
    requires
        grid_wf(g),
        in_range(c.0, c.1),
        g[c.0][c.1] == Tile::King,
        !king_hemmed(g, c.0, c.1),
    ensures
        resolved_grid(g, x, y)[c.0][c.1] == Tile::King,
{
    if resolved_grid(g, x, y)[c.0][c.1] != Tile::King {
        lemma_king_falls_only_hemmed(g, x, y, c);
    }
}

/// Corner and bare throne serve any side as an anvil: an ordinary piece
/// falls when an enemy moves next to it and a corner or the bare throne
/// lies behind it. A King who has just escaped to a corner takes nothing:
/// the game is over.
pub proof fn lemma_corner_is_anvil(g: Grid, x: int, y: int, dx: int, dy: int)
    requires
        grid_wf(g),
        in_range(x, y),
        !king_escaped(g, x, y),
        in_range(x + dx, y + dy),
        in_range(x + 2 * dx, y + 2 * dy),
        next_to((x, y), (x + dx, y + dy)),
        g[x + dx][y + dy] == Tile::Black || g[x + dx][y + dy] == Tile::White,
        g[x][y].is_piece(),
        g[x][y].spec_color() != g[x + dx][y + dy].spec_color(),
        g[x + 2 * dx][y + 2 * dy] == Tile::Corner || g[x + 2 * dx][y + 2 * dy] == Tile::Throne,
    ensures
        captured_in_dir(g, x, y, dx, dy),
        resolved_grid(g, x, y)[x + dx][y + dy] == Tile::Empty,
{
    assert(captured_in_dir(g, x, y, dx, dy));
    assert(taken_in_dir(g, x, y, (x + dx, y + dy)));
    assert(removed_set(g, x, y).contains((x + dx, y + dy)));
}

/// A walled-in group falls whole, but for the King: when a piece moves
/// next to a piece of the other side whose group has no empty square beside
/// it, every piece of the group but the King leaves the board.
pub proof fn lemma_walled_group_falls(g: Grid, x: int, y: int, seed: Cell, c: Cell)
    requires
        grid_wf(g),
        piece_moved(g, x, y),
        !king_escaped(g, x, y),
        next_to((x, y), seed),
        walled_in(g, foe_of(g[x][y].spec_color()), seed),
        group(g, foe_of(g[x][y].spec_color()), seed).contains(c),
        in_range(c.0, c.1),
    ensures
        g[c.0][c.1] != Tile::King ==> resolved_grid(g, x, y)[c.0][c.1] == Tile::Empty,
        g[c.0][c.1] == Tile::King && !king_hemmed(g, c.0, c.1) ==> resolved_grid(g, x, y)[c.0][c.1] == Tile::King,
{
    let side = foe_of(g[x][y].spec_color());
    if g[c.0][c.1] != Tile::King {
        assert(falls_with(g, side, seed, c));
        assert(seed == Heading::ColumnUp.shift((x, y), 1) || seed == Heading::RowUp.shift((x, y), 1) || seed
            == Heading::ColumnDown.shift((x, y), 1) || seed == Heading::RowDown.shift((x, y), 1));
        assert(shield_captured(g, x, y, c));
        assert(removed_set(g, x, y).contains(c));
    } else if !king_hemmed(g, c.0, c.1) {
        lemma_king_with_a_free_side_stays(g, x, y, c);
    }
}

/// Resolving a move keeps the standard layout as long as no piece is taken
/// on the throne or on a corner. A piece taken there leaves an empty
/// square where the layout has throne or corner.
pub proof fn lemma_resolve_keeps_layout(g: Grid, x: int, y: int)
    requires
        standard_layout(g),
        forall|c: Cell| #[trigger] removed_set(g, x, y).contains(c) ==> ground(c.0, c.1) == Tile::Empty,
    ensures
        standard_layout(resolved_grid(g, x, y)),
{
    let r = resolved_grid(g, x, y);
    assert forall|a: int, b: int| in_range(a, b) implies (#[trigger] r[a][b]).is_piece() || r[a][b] == ground(
        a,
        b,
    ) by {
        assert(g[a][b].is_piece() || g[a][b] == ground(a, b));
        if removed_set(g, x, y).contains((a, b)) {
            assert(ground(a, b) == Tile::Empty);
        }
    }
}

/// A resolved move adds nothing and shifts nothing. It only takes pieces
/// of the side that did not move: every square keeps its tile, or it is
/// empty and held a piece of the other side before.
pub proof fn lemma_resolve_only_takes_enemies(g: Grid, x: int, y: int, c: Cell)
    requires
        grid_wf(g),
        in_range(c.0, c.1),
    ensures
        resolved_grid(g, x, y)[c.0][c.1] == g[c.0][c.1] || (resolved_grid(g, x, y)[c.0][c.1] == Tile::Empty
            && piece_moved(g, x, y) && g[c.0][c.1].spec_color() == foe_of(g[x][y].spec_color())),
{
    if piece_moved(g, x, y) && !king_escaped(g, x, y) && removed_set(g, x, y).contains(c) {
        let side = foe_of(g[x][y].spec_color());
        if shield_captured(g, x, y, c) {
            let seed = if falls_with(g, side, Heading::ColumnUp.shift((x, y), 1), c) {
                Heading::ColumnUp.shift((x, y), 1)
            } else if falls_with(g, side, Heading::RowUp.shift((x, y), 1), c) {
                Heading::RowUp.shift((x, y), 1)
            } else if falls_with(g, side, Heading::ColumnDown.shift((x, y), 1), c) {
                Heading::ColumnDown.shift((x, y), 1)
            } else {
                Heading::RowDown.shift((x, y), 1)
            };
            assert(falls_with(g, side, seed, c));
            if c != seed {
                lemma_group_is_one_side(g, side, seed, c);
            }
        } else {
            assert(taken_in_dir(g, x, y, c));
        }
    }
}

/// Carrying a piece from one square of the board to another keeps the
/// standard layout.
pub proof fn lemma_move_keeps_layout(g: Grid, from: Cell, to: Cell)
    requires
        standard_layout(g),
        in_range(from.0, from.1),
        in_range(to.0, to.1),
        g[from.0][from.1].is_piece(),
    ensures
        standard_layout(moved_grid(g, from, to)),
{
    let r = moved_grid(g, from, to);
    assert forall|a: int, b: int| in_range(a, b) implies (#[trigger] r[a][b]).is_piece() || r[a][b] == ground(
        a,
        b,
    ) by {
        assert(g[a][b].is_piece() || g[a][b] == ground(a, b));
    }
}

/// A fort wins for White on White's move, and a ring for Black on Black's:
/// unless the King has just escaped, the winner of a resolved move is White
/// where a White piece or the King moved and White holds an edge fort on
/// the board that the move leaves, and Black where a Black piece moved and
/// Black has surrounded White on that board. No other move changes the
/// winner.
pub proof fn lemma_fort_and_ring_win(g: Grid, winner: Color, x: int, y: int)
    requires
        piece_moved(g, x, y),
        !king_escaped(g, x, y),
    ensures
        g[x][y].spec_color() == Color::White && is_edge_fort(resolved_grid(g, x, y)) ==> resolved_winner(
            g,
            winner,
            x,
            y,
        ) == Color::White,
        g[x][y].spec_color() == Color::Black && surrounded(resolved_grid(g, x, y)) ==> resolved_winner(
            g,
            winner,
            x,
            y,
        ) == Color::Black,
        !(g[x][y].spec_color() == Color::White && is_edge_fort(resolved_grid(g, x, y))) && !(g[x][y].spec_color()
            == Color::Black && surrounded(resolved_grid(g, x, y))) ==> resolved_winner(g, winner, x, y) == winner,
{
}

/// The piece that has moved is not taken by its own move.
pub proof fn lemma_mover_stays(g: Grid, x: int, y: int)
    requires
        grid_wf(g),
        piece_moved(g, x, y),
    ensures
        resolved_grid(g, x, y)[x][y] == g[x][y],
{
    if !king_escaped(g, x, y) {
        let side = foe_of(g[x][y].spec_color());
        let here: Cell = (x, y);
        assert forall|seed: Cell| next_to(here, seed) implies !falls_with(g, side, seed, here) by {
            if group(g, side, seed).contains(here) {
                lemma_group_is_one_side(g, side, seed, here);
            }
        }
        assert(next_to(here, Heading::ColumnUp.shift(here, 1)));
        assert(next_to(here, Heading::RowUp.shift(here, 1)));
        assert(next_to(here, Heading::ColumnDown.shift(here, 1)));
        assert(next_to(here, Heading::RowDown.shift(here, 1)));
        assert(!shield_captured(g, x, y, here));
        assert(!taken_in_dir(g, x, y, here));
        assert(!removed_set(g, x, y).contains(here));
    }
}

} // verus!
