use super::after_move_eval::{after_move, move_and_resolve};
use super::board::{in_range, Board, Cell, Color, GameError, Grid, HasColor, Position, Tile};
use super::legal_moves::{
    cells, destinations, get_legal_moves, legal_move, lemma_destinations_are_legal_moves, ray, Heading,
};
use rand::seq::SliceRandom;
use vstd::prelude::*;

verus! {

/// The score of a position that White has won. Scores count twentieths of
/// a point and are signed from White's side.
pub const WHITE_WINS: i64 = 1_000_000_000_000;

/// The score of a position that Black has won.
pub const BLACK_WINS: i64 = -1_000_000_000_000;

/// What the King is worth on a corner.
pub const KING_ON_CORNER: i64 = 1_000_000;

/// Twentieths of a point for each point of material.
pub const MATERIAL_WEIGHT: i64 = 20;

/// Twentieths of a point for each point of position.
pub const POSITION_WEIGHT: i64 = 15;

/// Twentieths of a point for each point that the King's neighbours give.
pub const NEIGHBOUR_WEIGHT: i64 = 16;

/// Twentieths of a point for each square that the King can move to.
pub const FREEDOM_WEIGHT: i64 = 20;

/// What a Black piece is worth on each square.
pub const BLACK_WEIGHTS: [[i64; 11]; 11] = [
    [0, 0, 0, 0, 0, 0, 0, 0, 0, 0, 0],
    [0, 5, 5, 3, 3, 3, 3, 3, 5, 5, 0],
    [0, 5, 4, 0, 0, 0, 0, 0, 4, 5, 0],
    [0, 3, 0, 0, 0, 0, 0, 0, 0, 3, 0],
    [0, 3, 0, 0, 0, 0, 0, 0, 0, 3, 0],
    [0, 3, 0, 0, 0, 0, 0, 0, 0, 3, 0],
    [0, 3, 0, 0, 0, 0, 0, 0, 0, 3, 0],
    [0, 3, 0, 0, 0, 0, 0, 0, 0, 3, 0],
    [0, 5, 4, 0, 0, 0, 0, 0, 4, 5, 0],
    [0, 5, 5, 3, 3, 3, 3, 3, 5, 5, 0],
    [0, 0, 0, 0, 0, 0, 0, 0, 0, 0, 0],
];

/// What a White piece is worth on each square.
pub const WHITE_WEIGHTS: [[i64; 11]; 11] = [
    [0, 0, 0, 0, 0, 0, 0, 0, 0, 0, 0],
    [0, 5, 5, 0, 0, 0, 0, 0, 5, 5, 0],
    [0, 5, 4, 0, 0, 0, 0, 0, 4, 5, 0],
    [0, 0, 0, 0, 0, 0, 0, 0, 0, 0, 0],
    [0, 0, 0, 0, 0, 0, 0, 0, 0, 0, 0],
    [0, 0, 0, 0, 0, 0, 0, 0, 0, 0, 0],
    [0, 0, 0, 0, 0, 0, 0, 0, 0, 0, 0],
    [0, 0, 0, 0, 0, 0, 0, 0, 0, 0, 0],
    [0, 5, 4, 0, 0, 0, 0, 0, 4, 5, 0],
    [0, 5, 5, 0, 0, 0, 0, 0, 5, 5, 0],
    [0, 0, 0, 0, 0, 0, 0, 0, 0, 0, 0],
];

/// What the King is worth on each square: more the nearer he is to the rim.
pub const KING_WEIGHTS: [[i64; 11]; 11] = [
    [KING_ON_CORNER, 4, 4, 4, 4, 4, 4, 4, 4, 4, KING_ON_CORNER],
    [4, 3, 3, 3, 3, 3, 3, 3, 3, 3, 4],
    [4, 3, 2, 2, 2, 2, 2, 2, 2, 3, 4],
    [4, 3, 2, 1, 1, 1, 1, 1, 2, 3, 4],
    [4, 3, 2, 1, 0, 0, 0, 1, 2, 3, 4],
    [4, 3, 2, 1, 0, 1, 0, 1, 2, 3, 4],
    [4, 3, 2, 1, 0, 0, 0, 1, 2, 3, 4],
    [4, 3, 2, 1, 1, 1, 1, 1, 2, 3, 4],
    [4, 3, 2, 2, 2, 2, 2, 2, 2, 3, 4],
    [4, 3, 3, 3, 3, 3, 3, 3, 3, 3, 4],
    [KING_ON_CORNER, 4, 4, 4, 4, 4, 4, 4, 4, 4, KING_ON_CORNER],
];

/// What the tile on (x, y) is worth as a neighbour of the King: an open
/// square is an escape lane, a Black piece a threat. A square off the board
/// is worth nothing.
pub open spec fn neighbour_value(g: Grid, x: int, y: int) -> int {
    if !in_range(x, y) {
        0
    } else {
        match g[x][y] {
            Tile::White => 1,
            Tile::Black => -1,
            Tile::Empty => 2,
            Tile::Throne => 3,
            Tile::Corner => 4,
            Tile::King => 0,
        }
    }
}

/// What the four neighbours of (x, y) are worth to a King standing there.
pub open spec fn king_neighbours(g: Grid, x: int, y: int) -> int {
    neighbour_value(g, x - 1, y) + neighbour_value(g, x + 1, y) + neighbour_value(g, x, y - 1)
        + neighbour_value(g, x, y + 1)
}

/// What square (x, y) adds to the score. A White piece adds two points of
/// material and its square's worth; a Black piece takes one point of
/// material and its square's worth away; the King adds his square's worth,
/// the worth of his neighbours and one point for each square he can move
/// to. Each kind of point has its own weight.
pub open spec fn square_score(g: Grid, x: int, y: int) -> int {
    match g[x][y] {
        Tile::White => 2 * MATERIAL_WEIGHT + WHITE_WEIGHTS[x][y] * POSITION_WEIGHT,
        Tile::Black => -MATERIAL_WEIGHT - BLACK_WEIGHTS[x][y] * POSITION_WEIGHT,
        Tile::King => KING_WEIGHTS[x][y] * POSITION_WEIGHT + king_neighbours(g, x, y) * NEIGHBOUR_WEIGHT
            + destinations(g, (x, y)).len() * FREEDOM_WEIGHT,
        Tile::Empty | Tile::Corner | Tile::Throne => 0,
    }
}

/// The score of the first `n` squares in reading order.
pub open spec fn score_upto(g: Grid, n: nat) -> int
    decreases n,
{
    if n == 0 {
        0
    } else {
        score_upto(g, (n - 1) as nat) + square_score(g, (n - 1) / 11, (n - 1) % 11)
    }
}

/// The score of a position: decided games score as wins, any other as the
/// sum over its squares.
pub open spec fn evaluation(p: Position) -> int {
    if p.winner == Color::White {
        WHITE_WINS as int
    } else if p.winner == Color::Black {
        BLACK_WINS as int
    } else {
        score_upto(p.grid, 121)
    }
}

/// A ray is no longer than the steps it may take.
pub proof fn lemma_ray_len(g: Grid, free: bool, c: (int, int), h: Heading, n: nat)
    ensures
        ray(g, free, c, h, n).len() <= n,
    decreases n,
{
    if n > 0 {
        lemma_ray_len(g, free, h.shift(c, 1), h, (n - 1) as nat);
    }
}

/// No square adds or takes more than sixteen million twentieths.
pub proof fn lemma_square_score_bound(g: Grid, x: int, y: int)
    requires
        in_range(x, y),
    ensures
        -16_000_000 <= square_score(g, x, y) <= 16_000_000,
{
    let free = g[x][y] == Tile::King;
    lemma_ray_len(g, free, (x, y), Heading::ColumnUp, 10);
    lemma_ray_len(g, free, (x, y), Heading::RowUp, 10);
    lemma_ray_len(g, free, (x, y), Heading::ColumnDown, 10);
    lemma_ray_len(g, free, (x, y), Heading::RowDown, 10);
    assert(0 <= BLACK_WEIGHTS[x][y] <= 5);
    assert(0 <= WHITE_WEIGHTS[x][y] <= 5);
    assert(0 <= KING_WEIGHTS[x][y] <= 1_000_000);
}

/// The score of the first `n` squares is bounded.
pub proof fn lemma_score_bound(g: Grid, n: nat)
    requires
        n <= 121,
    ensures
        -16_000_000 * n <= score_upto(g, n) <= 16_000_000 * n,
    decreases n,
{
    if n > 0 {
        lemma_score_bound(g, (n - 1) as nat);
        lemma_square_score_bound(g, (n - 1) / 11, (n - 1) % 11);
    }
}

/// Every score lies between a win for Black and a win for White.
pub proof fn lemma_evaluation_bound(p: Position)
    ensures
        BLACK_WINS <= evaluation(p) <= WHITE_WINS,
{
    lemma_score_bound(p.grid, 121);
}

/// What the tile on (x, y) is worth as a neighbour of the King.
fn neighbour_weight(state: &Board, x: usize, y: usize) -> (w: i64)
    requires
        in_range(x as int, y as int),
    ensures
        w == neighbour_value(state.grid(), x as int, y as int),
{
    match state.board[x][y] {
        Tile::White => 1,
        Tile::Black => -1,
        Tile::Empty => 2,
        Tile::Throne => 3,
        Tile::Corner => 4,
        Tile::King => 0,
    }
}

/// What the neighbours of (x, y) are worth to a King standing there.
fn get_king_neighbor_weight(state: &Board, x: usize, y: usize) -> (w: i64)
    requires
        in_range(x as int, y as int),
    ensures
        w == king_neighbours(state.grid(), x as int, y as int),
{
    let mut weight: i64 = 0;
    if x > 0 {
        weight = weight + neighbour_weight(state, x - 1, y);
    }
    if x < 10 {
        weight = weight + neighbour_weight(state, x + 1, y);
    }
    if y > 0 {
        weight = weight + neighbour_weight(state, x, y - 1);
    }
    if y < 10 {
        weight = weight + neighbour_weight(state, x, y + 1);
    }
    weight
}

/// What square (x, y) adds to the score.
fn score_square(state: &Board, x: usize, y: usize) -> (w: i64)
    requires
        in_range(x as int, y as int),
    ensures
        w == square_score(state.grid(), x as int, y as int),
{
    proof {
        lemma_square_score_bound(state.grid(), x as int, y as int);
        assert(0 <= BLACK_WEIGHTS[x as int][y as int] <= 5);
        assert(0 <= WHITE_WEIGHTS[x as int][y as int] <= 5);
        assert(0 <= KING_WEIGHTS[x as int][y as int] <= 1_000_000);
    }
    match state.board[x][y] {
        Tile::White => 2 * MATERIAL_WEIGHT + WHITE_WEIGHTS[x][y] * POSITION_WEIGHT,
        Tile::Black => -MATERIAL_WEIGHT - BLACK_WEIGHTS[x][y] * POSITION_WEIGHT,
        Tile::King => {
            let freedom: i64 = match get_legal_moves(*state, x, y) {
                Ok(moves) => {
                    proof {
                        let free = true;
                        let c = (x as int, y as int);
                        lemma_ray_len(state.grid(), free, c, Heading::ColumnUp, 10);
                        lemma_ray_len(state.grid(), free, c, Heading::RowUp, 10);
                        lemma_ray_len(state.grid(), free, c, Heading::ColumnDown, 10);
                        lemma_ray_len(state.grid(), free, c, Heading::RowDown, 10);
                        assert(cells(moves@).len() == moves@.len());
                    }
                    moves.len() as i64
                },
                Err(_) => 0,
            };
            KING_WEIGHTS[x][y] * POSITION_WEIGHT + get_king_neighbor_weight(state, x, y) * NEIGHBOUR_WEIGHT
                + freedom * FREEDOM_WEIGHT
        },
        Tile::Empty | Tile::Corner | Tile::Throne => 0,
    }
}

/// The score of a position, from White's side.
pub fn evaluate(state: &Board) -> (score: i64)
    ensures
        score == evaluation(state@),
        BLACK_WINS <= score <= WHITE_WINS,
{
    proof {
        lemma_evaluation_bound(state@);
    }
    if state.winner == Color::White {
        return WHITE_WINS;
    }
    if state.winner == Color::Black {
        return BLACK_WINS;
    }
    let ghost g = state.grid();
    let mut result: i64 = 0;
    let mut i: usize = 0;
    let mut j: usize = 0;
    while i < 11
        invariant
            g == state.grid(),
            i <= 11,
            j <= 10,
            i == 11 ==> j == 0,
            result == score_upto(g, (11 * i + j) as nat),
        decreases (11 - i) * 11 - j,
    {
        let ghost n = (11 * i + j) as nat;
        proof {
            lemma_score_bound(g, n);
            lemma_square_score_bound(g, i as int, j as int);
            assert(n / 11 == i && n % 11 == j);
            assert(score_upto(g, n + 1) == score_upto(g, n) + square_score(g, i as int, j as int));
        }
        result = result + score_square(state, i, j);
        if j == 10 {
            i = i + 1;
            j = 0;
        } else {
            j = j + 1;
        }
    }
    result
}

/// A move: the square a piece leaves and the square it goes to.
pub type Move = (Cell, Cell);

/// The move that a pair of coordinates stands for.
pub open spec fn move_of(m: [(usize, usize); 2]) -> Move {
    ((m[0].0 as int, m[0].1 as int), (m[1].0 as int, m[1].1 as int))
}

/// The moves that a list of coordinate pairs stands for.
pub open spec fn moves_of(v: Seq<[(usize, usize); 2]>) -> Seq<Move> {
    Seq::new(v.len(), |i: int| move_of(v[i]))
}

/// The moves of the piece on `c`, if it belongs to `side`, in the order of
/// its destinations.
pub open spec fn moves_from(g: Grid, side: Color, c: Cell) -> Seq<Move> {
    if g[c.0][c.1].is_piece() && g[c.0][c.1].spec_color() == side {
        Seq::new(destinations(g, c).len(), |i: int| (c, destinations(g, c)[i]))
    } else {
        Seq::empty()
    }
}

/// The moves of the pieces of `side` on the first `n` squares in reading
/// order.
pub open spec fn moves_upto(g: Grid, side: Color, n: nat) -> Seq<Move>
    decreases n,
{
    if n == 0 {
        Seq::empty()
    } else {
        moves_upto(g, side, (n - 1) as nat) + moves_from(g, side, ((n - 1) / 11, (n - 1) % 11))
    }
}

/// Every move that `side` has, piece by piece in reading order.
pub open spec fn all_moves(g: Grid, side: Color) -> Seq<Move> {
    moves_upto(g, side, 121)
}

/// `m` is a legal move of a piece of `side`.
pub open spec fn is_move_of(g: Grid, side: Color, m: Move) -> bool {
    &&& in_range(m.0.0, m.0.1)
    &&& g[m.0.0][m.0.1].spec_color() == side
    &&& legal_move(g, m.0.0, m.0.1, m.1.0, m.1.1)
}

/// The enumeration over the first `n` squares holds exactly the legal moves
/// of the pieces of `side` on those squares.
pub proof fn lemma_moves_upto(g: Grid, side: Color, n: nat, m: Move)
    requires
        n <= 121,
    ensures
        moves_upto(g, side, n).contains(m) <==> is_move_of(g, side, m) && 11 * m.0.0 + m.0.1 < n,
    decreases n,
{
    if n == 0 {
        assert(moves_upto(g, side, 0) =~= Seq::<Move>::empty());
    } else {
        let c: Cell = ((n - 1) / 11, (n - 1) % 11);
        let before = moves_upto(g, side, (n - 1) as nat);
        let here = moves_from(g, side, c);
        lemma_moves_upto(g, side, (n - 1) as nat, m);
        let whole = before + here;
        if g[c.0][c.1].is_piece() {
            lemma_destinations_are_legal_moves(g, c);
        }
        if here.contains(m) {
            let i = choose|i: int| 0 <= i < here.len() && here[i] == m;
            assert(destinations(g, c).contains(destinations(g, c)[i]));
            assert(whole[before.len() + i] == m);
        }
        if before.contains(m) {
            let i = choose|i: int| 0 <= i < before.len() && before[i] == m;
            assert(whole[i] == m);
        }
        if whole.contains(m) {
            let i = choose|i: int| 0 <= i < whole.len() && whole[i] == m;
            if i < before.len() {
                assert(before[i] == m);
            } else {
                assert(here[i - before.len()] == m);
            }
        }
        if is_move_of(g, side, m) && 11 * m.0.0 + m.0.1 == n - 1 {
            assert(m.0 == c);
            assert(destinations(g, c).contains(m.1));
            let i = choose|i: int| 0 <= i < destinations(g, c).len() && destinations(g, c)[i] == m.1;
            assert(here[i] == m);
        }
    }
}

/// The enumeration of a side's moves holds exactly the legal moves of its
/// pieces.
pub proof fn lemma_all_moves(g: Grid, side: Color)
    ensures
        forall|m: Move| #[trigger] all_moves(g, side).contains(m) <==> is_move_of(g, side, m),
{
    assert forall|m: Move| #[trigger] all_moves(g, side).contains(m) <==> is_move_of(g, side, m) by {
        lemma_moves_upto(g, side, 121, m);
    }
}

/// Every move that the pieces of `color` have on the board, piece by piece
/// in reading order.
pub fn get_all_moves(board: &Board, color: Color) -> (v: Vec<[(usize, usize); 2]>)
    ensures
        moves_of(v@) == all_moves(board.grid(), color),
        forall|k: int|
            0 <= k < v@.len() ==> in_range((#[trigger] v@[k])[0].0 as int, v@[k][0].1 as int) && in_range(
                v@[k][1].0 as int,
                v@[k][1].1 as int,
            ),
{
    let ghost g = board.grid();
    let mut all: Vec<[(usize, usize); 2]> = Vec::new();
    let mut x: usize = 0;
    let mut y: usize = 0;
    assert(moves_of(all@) =~= moves_upto(g, color, 0));
    while x < 11
        invariant
            g == board.grid(),
            x <= 11,
            y <= 10,
            x == 11 ==> y == 0,
            moves_of(all@) == moves_upto(g, color, (11 * x + y) as nat),
            forall|k: int|
                0 <= k < all@.len() ==> in_range((#[trigger] all@[k])[0].0 as int, all@[k][0].1 as int)
                    && in_range(all@[k][1].0 as int, all@[k][1].1 as int),
        decreases (11 - x) * 11 - y,
    {
        let ghost n = (11 * x + y) as nat;
        let ghost c: Cell = (x as int, y as int);
        let ghost before = moves_of(all@);
        proof {
            assert(n / 11 == x && n % 11 == y);
            assert(moves_upto(g, color, n + 1) == before + moves_from(g, color, c));
        }
        let tile = board.board[x][y];
        let mut appended = false;
        if tile.color() == color {
            match get_legal_moves(*board, x, y) {
                Ok(moves) => {
                    proof {
                        lemma_destinations_are_legal_moves(g, c);
                    }
                    let mut k: usize = 0;
                    assert(moves_of(all@) =~= before + moves_from(g, color, c).take(0));
                    while k < moves.len()
                        invariant
                            g == board.grid(),
                            c == (x as int, y as int),
                            in_range(c.0, c.1),
                            k <= moves@.len(),
                            cells(moves@) == destinations(g, c),
                            moves_from(g, color, c).len() == moves@.len(),
                            forall|i: int| 0 <= i < moves@.len() ==> moves_from(g, color, c)[i] == (c, cells(moves@)[i]),
                            forall|d: Cell| #[trigger] destinations(g, c).contains(d) ==> in_range(d.0, d.1),
                            moves_of(all@) == before + moves_from(g, color, c).take(k as int),
                            forall|k: int|
                                0 <= k < all@.len() ==> in_range(
                                    (#[trigger] all@[k])[0].0 as int,
                                    all@[k][0].1 as int,
                                ) && in_range(all@[k][1].0 as int, all@[k][1].1 as int),
                        decreases moves@.len() - k,
                    {
                        let ghost prev = all@;
                        let to = moves[k];
                        proof {
                            assert(cells(moves@)[k as int] == (to.0 as int, to.1 as int));
                            assert(destinations(g, c).contains(cells(moves@)[k as int]));
                        }
                        all.push([(x, y), to]);
                        proof {
                            let mf = moves_from(g, color, c);
                            assert(all@ == prev.push([(x, y), to]));
                            assert(move_of([(x, y), to]) == mf[k as int]);
                            assert(moves_of(all@) =~= moves_of(prev).push(mf[k as int]));
                            assert(mf.take(k + 1) =~= mf.take(k as int).push(mf[k as int]));
                            assert(moves_of(all@) =~= before + mf.take(k + 1));
                        }
                        k = k + 1;
                    }
                    proof {
                        let mf = moves_from(g, color, c);
                        assert(mf.take(moves@.len() as int) =~= mf);
                    }
                    appended = true;
                },
                Err(_) => {},
            }
        }
        proof {
            if !appended {
                assert(moves_from(g, color, c) =~= Seq::<Move>::empty());
                assert(before + moves_from(g, color, c) =~= before);
            }
        }
        if y == 10 {
            x = x + 1;
            y = 0;
        } else {
            y = y + 1;
        }
    }
    all
}

/// The position that the `i`-th move of `side` leads to.
pub open spec fn child(p: Position, side: Color, i: int) -> Position {
    let m = all_moves(p.grid, side)[i];
    after_move(p, m.0, m.1)
}

/// The side that moves at a node of the search: White where the score is
/// made as large, Black where it is made as small as possible.
pub open spec fn mover(maximizing: bool) -> Color {
    if maximizing {
        Color::White
    } else {
        Color::Black
    }
}

/// The depth that is left to search; none below zero.
pub open spec fn depth_of(depth: i32) -> nat {
    if depth > 0 {
        depth as nat
    } else {
        0
    }
}

/// The value of a position searched to `depth`, without any pruning: its
/// score where the depth is used up or the game is decided, else the best
/// that the side to move can reach over all its moves.
pub open spec fn minimax_value(p: Position, depth: nat, maximizing: bool) -> int
    decreases depth, all_moves(p.grid, mover(maximizing)).len() + 1,
{
    if depth == 0 || p.winner != Color::Neither {
        evaluation(p)
    } else {
        best_of(p, depth, maximizing, all_moves(p.grid, mover(maximizing)).len())
    }
}

/// The best that the side to move can reach with one of its first `n`
/// moves, each answered by the other side with `depth - 1` left. A side
/// without moves has lost.
pub open spec fn best_of(p: Position, depth: nat, maximizing: bool, n: nat) -> int
    decreases depth, n,
{
    if n == 0 || depth == 0 {
        if maximizing {
            BLACK_WINS as int
        } else {
            WHITE_WINS as int
        }
    } else {
        let rest = best_of(p, depth, maximizing, (n - 1) as nat);
        let v = minimax_value(child(p, mover(maximizing), n - 1), (depth - 1) as nat, !maximizing);
        if maximizing {
            if v > rest {
                v
            } else {
                rest
            }
        } else {
            if v < rest {
                v
            } else {
                rest
            }
        }
    }
}

/// Every value of the search lies between a win for Black and a win for
/// White.
pub proof fn lemma_minimax_bound(p: Position, depth: nat, maximizing: bool)
    ensures
        BLACK_WINS <= minimax_value(p, depth, maximizing) <= WHITE_WINS,
    decreases depth, all_moves(p.grid, mover(maximizing)).len() + 1,
{
    lemma_evaluation_bound(p);
    if !(depth == 0 || p.winner != Color::Neither) {
        lemma_best_of_bound(p, depth, maximizing, all_moves(p.grid, mover(maximizing)).len());
    }
}

/// The best over some moves lies between a win for Black and a win for
/// White.
pub proof fn lemma_best_of_bound(p: Position, depth: nat, maximizing: bool, n: nat)
    ensures
        BLACK_WINS <= best_of(p, depth, maximizing, n) <= WHITE_WINS,
    decreases depth, n,
{
    if !(n == 0 || depth == 0) {
        lemma_best_of_bound(p, depth, maximizing, (n - 1) as nat);
        lemma_minimax_bound(child(p, mover(maximizing), n - 1), (depth - 1) as nat, !maximizing);
    }
}

/// More moves to choose from never hurt the side that chooses.
pub proof fn lemma_best_of_monotone(p: Position, depth: nat, maximizing: bool, n: nat, m: nat)
    requires
        n <= m,
        depth > 0,
    ensures
        maximizing ==> best_of(p, depth, maximizing, n) <= best_of(p, depth, maximizing, m),
        !maximizing ==> best_of(p, depth, maximizing, n) >= best_of(p, depth, maximizing, m),
    decreases m,
{
    if n < m {
        lemma_best_of_monotone(p, depth, maximizing, n, (m - 1) as nat);
    }
}

/// The position after each move that `player` has, in the order of the
/// moves.
pub fn get_all_child_boards(board: &Board, player: Color) -> (result: Vec<Board>)
    ensures
        result@.len() == all_moves(board.grid(), player).len(),
        forall|i: int| 0 <= i < result@.len() ==> (#[trigger] result@[i])@ == child(board@, player, i),
{
    let moves = get_all_moves(board, player);
    let mut result: Vec<Board> = Vec::new();
    let mut i: usize = 0;
    while i < moves.len()
        invariant
            i <= moves@.len(),
            result@.len() == i,
            moves_of(moves@) == all_moves(board.grid(), player),
            forall|k: int|
                0 <= k < moves@.len() ==> in_range((#[trigger] moves@[k])[0].0 as int, moves@[k][0].1 as int)
                    && in_range(moves@[k][1].0 as int, moves@[k][1].1 as int),
            forall|k: int| 0 <= k < i ==> (#[trigger] result@[k])@ == child(board@, player, k),
        decreases moves@.len() - i,
    {
        let current_move = moves[i];
        assert(moves_of(moves@)[i as int] == move_of(current_move));
        let new_board = move_and_resolve(board, current_move[0], current_move[1]);
        result.push(new_board);
        i = i + 1;
    }
    assert(moves_of(moves@).len() == moves@.len());
    result
}

/// The value of a position searched to `depth`, found with alpha-beta
/// pruning: a line is given up as soon as the window between `alpha` and
/// `beta` has closed.
///
/// Where the depth is used up or the game is decided, the result is the
/// score of the position. Otherwise, for an open window, a result inside
/// the window is the value itself, and a result at or outside an end of the
/// window bounds the value on that side. With a window that is closed from
/// the start no move is tried, and the side to move gets the value of a
/// side without moves.
pub fn minimax_alpha_beta(state: &Board, depth: i32, alpha: i64, beta: i64, max_player: bool) -> (r: i64)
    ensures
        depth <= 0 || state.winner != Color::Neither ==> r == evaluation(state@),
        depth > 0 && state.winner == Color::Neither && alpha >= beta ==> r == if max_player {
            BLACK_WINS
        } else {
            WHITE_WINS
        },
        alpha < beta && r <= alpha ==> minimax_value(state@, depth_of(depth), max_player) <= r,
        alpha < beta && alpha < r < beta ==> minimax_value(state@, depth_of(depth), max_player) == r,
        alpha < beta && r >= beta ==> minimax_value(state@, depth_of(depth), max_player) >= r,
    decreases depth_of(depth),
{
    if depth <= 0 || state.winner != Color::Neither {
        return evaluate(state);
    }
    let ghost p = state@;
    let ghost d = depth_of(depth);
    if max_player {
        let children = get_all_child_boards(state, Color::White);
        let mut max_val: i64 = BLACK_WINS;
        let mut a: i64 = if alpha > BLACK_WINS {
            alpha
        } else {
            BLACK_WINS
        };
        let mut i: usize = 0;
        while i < children.len() && a < beta
            invariant
                p == state@,
                d == depth_of(depth),
                d > 0,
                depth > 0,
                p.winner == Color::Neither,
                i <= children@.len(),
                children@.len() == all_moves(p.grid, Color::White).len(),
                forall|k: int| 0 <= k < children@.len() ==> (#[trigger] children@[k])@ == child(p, Color::White, k),
                a == if max_val > alpha {
                    max_val
                } else {
                    alpha
                },
                alpha >= beta ==> max_val == BLACK_WINS,
                max_val >= beta ==> best_of(p, d, true, i as nat) >= max_val,
                alpha < max_val < beta ==> best_of(p, d, true, i as nat) == max_val,
                max_val <= alpha ==> best_of(p, d, true, i as nat) <= max_val,
            decreases children@.len() - i,
        {
            let child_val = minimax_alpha_beta(&children[i], depth - 1, a, beta, false);
            proof {
                assert(children@[i as int]@ == child(p, Color::White, i as int));
                assert(depth_of((depth - 1) as i32) == (d - 1) as nat);
            }
            if child_val > max_val {
                max_val = child_val;
            }
            if max_val > a {
                a = max_val;
            }
            i = i + 1;
        }
        proof {
            lemma_best_of_monotone(p, d, true, i as nat, children@.len());
        }
        max_val
    } else {
        let children = get_all_child_boards(state, Color::Black);
        let mut min_val: i64 = WHITE_WINS;
        let mut b: i64 = if beta < WHITE_WINS {
            beta
        } else {
            WHITE_WINS
        };
        let mut i: usize = 0;
        while i < children.len() && alpha < b
            invariant
                p == state@,
                d == depth_of(depth),
                d > 0,
                depth > 0,
                p.winner == Color::Neither,
                i <= children@.len(),
                children@.len() == all_moves(p.grid, Color::Black).len(),
                forall|k: int| 0 <= k < children@.len() ==> (#[trigger] children@[k])@ == child(p, Color::Black, k),
                b == if min_val < beta {
                    min_val
                } else {
                    beta
                },
                alpha >= beta ==> min_val == WHITE_WINS,
                min_val <= alpha ==> best_of(p, d, false, i as nat) <= min_val,
                alpha < min_val < beta ==> best_of(p, d, false, i as nat) == min_val,
                min_val >= beta ==> best_of(p, d, false, i as nat) >= min_val,
            decreases children@.len() - i,
        {
            let child_val = minimax_alpha_beta(&children[i], depth - 1, alpha, b, true);
            proof {
                assert(children@[i as int]@ == child(p, Color::Black, i as int));
                assert(depth_of((depth - 1) as i32) == (d - 1) as nat);
            }
            if child_val < min_val {
                min_val = child_val;
            }
            if min_val < b {
                b = min_val;
            }
            i = i + 1;
        }
        proof {
            lemma_best_of_monotone(p, d, false, i as nat, children@.len());
        }
        min_val
    }
}

/// The value of a position searched to `depth`. The search prunes, and
/// returns what a search of every line would return.
pub fn minimax(state: &Board, depth: i32, max_player: bool) -> (r: i64)
    ensures
        r == minimax_value(state@, depth_of(depth), max_player),
{
    proof {
        lemma_minimax_bound(state@, depth_of(depth), max_player);
    }
    minimax_alpha_beta(state, depth, BLACK_WINS, WHITE_WINS, max_player)
}

/// What the `i`-th move of `side` is worth: the value of the position it
/// leads to, searched to `depth` with `side` to choose again.
pub open spec fn move_value(p: Position, side: Color, depth: nat, i: int) -> int {
    minimax_value(child(p, side, i), depth, side == Color::White)
}

/// Value `a` is better for `side` than value `b`: higher for White, lower
/// for any other side.
pub open spec fn better(side: Color, a: int, b: int) -> bool {
    if side == Color::White {
        a > b
    } else {
        a < b
    }
}

/// The `i`-th move of `side` is its best: no move is worth more to the
/// side, and no earlier move is worth as much.
pub open spec fn is_best_move(p: Position, side: Color, depth: nat, i: int) -> bool {
    &&& 0 <= i < all_moves(p.grid, side).len()
    &&& forall|j: int|
        0 <= j < all_moves(p.grid, side).len() ==> !better(
            side,
            #[trigger] move_value(p, side, depth, j),
            move_value(p, side, depth, i),
        )
    &&& forall|j: int| 0 <= j < i ==> #[trigger] move_value(p, side, depth, j) != move_value(p, side, depth, i)
}

/// The best move of `current_player`: each move is valued by a search of
/// the position it leads to, White takes the first move of the highest
/// value, Black the first of the lowest. A side without moves gets the
/// move from (0, 0) to (0, 0), which is no move at all.
pub fn minimax_best_move(state: &Board, current_player: Color, depth: i32) -> (r: [(usize, usize); 2])
    ensures
        all_moves(state.grid(), current_player).len() == 0 ==> move_of(r) == ((0int, 0int), (0int, 0int)),
        all_moves(state.grid(), current_player).len() > 0 ==> exists|i: int|
            #![trigger all_moves(state.grid(), current_player)[i]]
            is_best_move(state@, current_player, depth_of(depth), i) && move_of(r) == all_moves(
                state.grid(),
                current_player,
            )[i],
{
    let moves = get_all_moves(state, current_player);
    assert(moves_of(moves@).len() == moves@.len());
    if moves.len() == 0 {
        return [(0, 0), (0, 0)];
    }
    let ghost p = state@;
    let ghost d = depth_of(depth);
    let maximizing = current_player == Color::White;
    let first = move_and_resolve(state, moves[0][0], moves[0][1]);
    assert(moves_of(moves@)[0] == move_of(moves@[0]));
    let mut best: usize = 0;
    let mut best_value: i64 = minimax(&first, depth, maximizing);
    let mut i: usize = 1;
    while i < moves.len()
        invariant
            p == state@,
            d == depth_of(depth),
            maximizing == (current_player == Color::White),
            1 <= i <= moves@.len(),
            best < i,
            moves_of(moves@) == all_moves(p.grid, current_player),
            forall|k: int|
                0 <= k < moves@.len() ==> in_range((#[trigger] moves@[k])[0].0 as int, moves@[k][0].1 as int)
                    && in_range(moves@[k][1].0 as int, moves@[k][1].1 as int),
            best_value == move_value(p, current_player, d, best as int),
            forall|j: int|
                0 <= j < i ==> !better(
                    current_player,
                    #[trigger] move_value(p, current_player, d, j),
                    best_value as int,
                ),
            forall|j: int| 0 <= j < best ==> #[trigger] move_value(p, current_player, d, j) != best_value,
        decreases moves@.len() - i,
    {
        let current_move = moves[i];
        assert(moves_of(moves@)[i as int] == move_of(current_move));
        let new_board = move_and_resolve(state, current_move[0], current_move[1]);
        let value = minimax(&new_board, depth, maximizing);
        assert(value == move_value(p, current_player, d, i as int));
        if (maximizing && value > best_value) || (!maximizing && value < best_value) {
            best = i;
            best_value = value;
        }
        i = i + 1;
    }
    proof {
        assert(is_best_move(p, current_player, d, best as int));
        assert(moves_of(moves@)[best as int] == move_of(moves@[best as int]));
    }
    moves[best]
}

/// `rand::seq::SliceRandom::choose` on the list of moves, with the
/// generator of the thread. As the source of `choose` shows, an empty list
/// gives nothing, and any other list gives one of its entries; which one is
/// left open.
#[verifier::external_body]
fn choose_move(moves: &Vec<[(usize, usize); 2]>) -> (r: Option<[(usize, usize); 2]>)
    ensures
        moves@.len() == 0 ==> r is None,
        moves@.len() > 0 ==> r is Some && moves@.contains(r->Some_0),
{
    moves.choose(&mut rand::thread_rng()).copied()
}

/// A move of `color`, drawn at random from all its legal moves. Fails with
/// `NoLegalMoves` exactly when the side has none.
pub fn get_random_move(board: Board, color: Color) -> (r: Result<[(usize, usize); 2], GameError>)
    ensures
        all_moves(board.grid(), color).len() == 0 ==> r == Err::<[(usize, usize); 2], GameError>(
            GameError::NoLegalMoves,
        ),
        all_moves(board.grid(), color).len() > 0 ==> r is Ok,
        r matches Ok(m) ==> all_moves(board.grid(), color).contains(move_of(m)) && is_move_of(
            board.grid(),
            color,
            move_of(m),
        ) && in_range(m[0].0 as int, m[0].1 as int) && in_range(m[1].0 as int, m[1].1 as int),
{
    let all_legal_moves = get_all_moves(&board, color);
    assert(moves_of(all_legal_moves@).len() == all_legal_moves@.len());
    match choose_move(&all_legal_moves) {
        Some(m) => {
            proof {
                let k = choose|k: int| 0 <= k < all_legal_moves@.len() && all_legal_moves@[k] == m;
                assert(all_legal_moves@[k] == m);
                assert(moves_of(all_legal_moves@)[k] == move_of(m));
                assert(all_moves(board.grid(), color).contains(move_of(m)));
                lemma_all_moves(board.grid(), color);
                assert(is_move_of(board.grid(), color, move_of(m)));
            }
            Ok(m)
        },
        None => Err(GameError::NoLegalMoves),
    }
}

} // verus!
