use vstd::prelude::*;

verus! {

/// What a square of the board shows.
#[derive(Clone, Copy, PartialEq, Eq, Debug, Structural)]
pub enum Tile {
    Empty,
    Corner,
    Black,
    White,
    King,
    Throne,
}

/// A side of the game. `Neither` is "no side": an empty square, a corner,
/// the bare throne, or a game that nobody has won yet.
#[derive(Clone, Copy, PartialEq, Eq, Debug, Structural)]
pub enum Color {
    Black,
    White,
    Neither,
}

/// Why a request was turned down.
#[derive(Clone, Copy, PartialEq, Eq, Debug, Structural)]
pub enum GameError {
    /// A coordinate lies outside 0..=10.
    OutOfRange,
    /// The square holds no piece.
    NoPieceAtSquare,
    /// The move breaks the rules of movement.
    IllegalMove,
    /// The piece belongs to the side that is not to move.
    WrongTurn,
    /// The side has no legal move left.
    NoLegalMoves,
    /// The text is not a position in board notation.
    BadNotation,
}

/// The board as the contracts see it: eleven rows of eleven tiles,
/// `grid[x][y]` being the tile in row `x` and column `y`.
pub type Grid = Seq<Seq<Tile>>;

/// A square of the board, row first.
pub type Cell = (int, int);

/// Both coordinates lie on the board.
pub open spec fn in_range(x: int, y: int) -> bool {
    0 <= x <= 10 && 0 <= y <= 10
}

/// The grid has eleven rows of eleven tiles.
pub open spec fn grid_wf(g: Grid) -> bool {
    &&& g.len() == 11
    &&& forall|i: int| 0 <= i < 11 ==> (#[trigger] g[i]).len() == 11
}

/// The square is one of the four corners.
pub open spec fn is_corner(x: int, y: int) -> bool {
    (x == 0 || x == 10) && (y == 0 || y == 10)
}

/// The square lies on the rim of the board.
pub open spec fn on_edge(x: int, y: int) -> bool {
    x == 0 || x == 10 || y == 0 || y == 10
}

/// What a square shows when no piece stands on it.
pub open spec fn ground(x: int, y: int) -> Tile {
    if is_corner(x, y) {
        Tile::Corner
    } else if x == 5 && y == 5 {
        Tile::Throne
    } else {
        Tile::Empty
    }
}

/// Every square holds a piece or shows its own ground: corners in the
/// corners, the throne in the middle, and nothing anywhere else.
pub open spec fn standard_layout(g: Grid) -> bool {
    &&& grid_wf(g)
    &&& forall|x: int, y: int| in_range(x, y) ==> (#[trigger] g[x][y]).is_piece() || g[x][y] == ground(x, y)
}

/// The grid with the tile at (x, y) replaced.
pub open spec fn grid_set(g: Grid, x: int, y: int, t: Tile) -> Grid {
    g.update(x, g[x].update(y, t))
}

/// Square `a` comes before square `b` in reading order: row by row, and
/// along each row by column.
pub open spec fn precedes(a: Cell, b: Cell) -> bool {
    a.0 < b.0 || (a.0 == b.0 && a.1 < b.1)
}

/// Square `c` holds a King, and no square before it in reading order does.
pub open spec fn first_king(g: Grid, c: Cell) -> bool {
    &&& in_range(c.0, c.1)
    &&& g[c.0][c.1] == Tile::King
    &&& forall|x: int, y: int| in_range(x, y) && precedes((x, y), c) ==> #[trigger] g[x][y] != Tile::King
}

/// A King stands somewhere on the board.
pub open spec fn has_king(g: Grid) -> bool {
    exists|c: Cell| first_king(g, c)
}

/// Where the King stands: on a board with several, the first in reading
/// order.
pub open spec fn king_cell(g: Grid) -> Cell {
    choose|c: Cell| first_king(g, c)
}

/// Only one square is the first to hold a King.
pub proof fn lemma_first_king_unique(g: Grid, a: Cell, b: Cell)
    requires
        first_king(g, a),
        first_king(g, b),
    ensures
        a == b,
{
    if precedes(a, b) {
        assert(g[a.0][a.1] != Tile::King);
    }
    if precedes(b, a) {
        assert(g[b.0][b.1] != Tile::King);
    }
}

/// The grid with whatever stands on the squares of `s` taken off: each of
/// them is empty.
pub open spec fn cleared(g: Grid, s: Set<Cell>) -> Grid {
    Seq::new(
        11,
        |x: int|
            Seq::new(
                11,
                |y: int|
                    if s.contains((x, y)) {
                        Tile::Empty
                    } else {
                        g[x][y]
                    },
            ),
    )
}

/// Clearing no square changes nothing.
pub proof fn lemma_cleared_nothing(g: Grid)
    requires
        grid_wf(g),
    ensures
        cleared(g, Set::empty()) == g,
{
    let c = cleared(g, Set::empty());
    assert forall|x: int| 0 <= x < 11 implies #[trigger] c[x] =~= g[x] by {}
    assert(c =~= g);
}

/// Clearing one more square of a cleared grid clears the larger set.
pub proof fn lemma_cleared_one_more(g: Grid, s: Set<Cell>, x: int, y: int)
    requires
        in_range(x, y),
    ensures
        grid_set(cleared(g, s), x, y, Tile::Empty) == cleared(g, s.insert((x, y))),
{
    let a = grid_set(cleared(g, s), x, y, Tile::Empty);
    let b = cleared(g, s.insert((x, y)));
    assert forall|i: int| 0 <= i < 11 implies #[trigger] a[i] =~= b[i] by {}
    assert(a =~= b);
}

/// The bare board: corners, throne, and nothing else.
pub open spec fn bare_grid() -> Grid {
    Seq::new(11, |x: int| Seq::new(11, |y: int| ground(x, y)))
}

pub trait HasColor {
    spec fn spec_color(&self) -> Color;

    fn color(&self) -> (c: Color)
        ensures
            c == self.spec_color(),
    ;
}

impl HasColor for Tile {
    /// The King fights for White; ground has no side.
    open spec fn spec_color(&self) -> Color {
        match self {
            Tile::Empty | Tile::Corner | Tile::Throne => Color::Neither,
            Tile::Black => Color::Black,
            Tile::White | Tile::King => Color::White,
        }
    }

    fn color(&self) -> (c: Color) {
        match self {
            Tile::Empty | Tile::Corner | Tile::Throne => Color::Neither,
            Tile::Black => Color::Black,
            Tile::White | Tile::King => Color::White,
        }
    }
}

pub trait Captures {
    spec fn spec_captures(&self, color: Color) -> bool;

    fn captures(&self, color: Color) -> (b: bool)
        ensures
            b == self.spec_captures(color),
    ;
}

impl Captures for Tile {
    /// Whether the tile is hostile to a piece of `color` caught against it:
    /// corners and the bare throne are hostile to everyone, a piece to the
    /// other side, an empty square to nobody.
    open spec fn spec_captures(&self, color: Color) -> bool {
        match self {
            Tile::Empty => false,
            Tile::Corner => true,
            Tile::Black => color == Color::White,
            Tile::White => color == Color::Black,
            Tile::King => color == Color::Black,
            Tile::Throne => true,
        }
    }

    fn captures(&self, color: Color) -> (b: bool) {
        match self {
            Tile::Empty => false,
            Tile::Corner => true,
            Tile::Black => color == Color::White,
            Tile::White => color == Color::Black,
            Tile::King => color == Color::Black,
            Tile::Throne => true,
        }
    }
}

pub trait CapturesKing {
    spec fn spec_captures_king(&self) -> bool;

    fn captures_king(&self) -> (b: bool)
        ensures
            b == self.spec_captures_king(),
    ;
}

impl CapturesKing for Tile {
    /// Whether the tile counts as one of the four sides that take the King.
    open spec fn spec_captures_king(&self) -> bool {
        match self {
            Tile::Throne | Tile::Black => true,
            Tile::Empty | Tile::Corner | Tile::White | Tile::King => false,
        }
    }

    fn captures_king(&self) -> (b: bool) {
        match self {
            Tile::Throne | Tile::Black => true,
            Tile::Empty | Tile::Corner | Tile::White | Tile::King => false,
        }
    }
}

pub trait Passable {
    spec fn spec_passable(&self) -> bool;

    fn passable(&self) -> (b: bool)
        ensures
            b == self.spec_passable(),
    ;
}

impl Passable for Tile {
    /// Whether a sliding piece may cross the square.
    open spec fn spec_passable(&self) -> bool {
        match self {
            Tile::Empty | Tile::Throne | Tile::Corner => true,
            Tile::Black | Tile::White | Tile::King => false,
        }
    }

    fn passable(&self) -> (b: bool) {
        match self {
            Tile::Empty | Tile::Throne | Tile::Corner => true,
            Tile::Black | Tile::White | Tile::King => false,
        }
    }
}

pub trait CanStandOn {
    spec fn spec_can_stand_on(&self) -> bool;

    fn can_stand_on(&self) -> (b: bool)
        ensures
            b == self.spec_can_stand_on(),
    ;
}

impl CanStandOn for Tile {
    /// Whether a piece other than the King may end its move on the square.
    open spec fn spec_can_stand_on(&self) -> bool {
        match self {
            Tile::Empty => true,
            Tile::Corner | Tile::Black | Tile::White | Tile::King | Tile::Throne => false,
        }
    }

    fn can_stand_on(&self) -> (b: bool) {
        match self {
            Tile::Empty => true,
            Tile::Corner | Tile::Black | Tile::White | Tile::King | Tile::Throne => false,
        }
    }
}

impl Tile {
    /// The tile is a piece: Black, White or the King.
    pub open spec fn is_piece(self) -> bool {
        self == Tile::Black || self == Tile::White || self == Tile::King
    }
}

/// An 11×11 board and the side that has won on it, if any.
#[derive(Clone, Copy)]
pub struct Board {
    pub board: [[Tile; 11]; 11],
    pub winner: Color,
}

/// A position as the contracts see it: the tiles and the winner.
pub struct Position {
    pub grid: Grid,
    pub winner: Color,
}

impl View for Board {
    type V = Position;

    open spec fn view(&self) -> Position {
        Position { grid: self.grid(), winner: self.winner }
    }
}

impl Board {
    /// The tiles of the board, row by row.
    pub open spec fn grid(&self) -> Grid {
        Seq::new(11, |x: int| self.board[x]@)
    }

    /// The grid of a board has eleven rows of eleven tiles.
    pub proof fn lemma_grid_wf(&self)
        ensures
            grid_wf(self.grid()),
    {
    }

    /// A bare board without a winner.
    pub fn new() -> (b: Board)
        ensures
            b.grid() == bare_grid(),
            b.winner == Color::Neither,
    {
        let mut new_board = [[Tile::Empty;11];11];
        new_board[0][0] = Tile::Corner;
        new_board[0][10] = Tile::Corner;
        new_board[10][0] = Tile::Corner;
        new_board[10][10] = Tile::Corner;
        new_board[5][5] = Tile::Throne;
        let b = Board { board: new_board, winner: Color::Neither };
        proof {
            assert forall|x: int| 0 <= x < 11 implies #[trigger] b.grid()[x] =~= bare_grid()[x] by {}
            assert(b.grid() =~= bare_grid());
        }
        b
    }

    /// The tile at (x, y), or `OutOfRange` when a coordinate exceeds 10.
    pub fn get_tile(&self, x: usize, y: usize) -> (r: Result<Tile, GameError>)
        ensures
            in_range(x as int, y as int) ==> r == Ok::<Tile, GameError>(self.grid()[x as int][y as int]),
            !in_range(x as int, y as int) ==> r == Err::<Tile, GameError>(GameError::OutOfRange),
    {
        if x > 10 || y > 10 {
            return Err(GameError::OutOfRange);
        }
        Ok(self.board[x][y])
    }

    /// Where the King stands, if he is on the board.
    pub fn find_king(&self) -> (r: Option<(usize, usize)>)
        ensures
            r is Some <==> has_king(self.grid()),
            r matches Some(p) ==> (p.0 as int, p.1 as int) == king_cell(self.grid()) && first_king(
                self.grid(),
                (p.0 as int, p.1 as int),
            ),
            r is None ==> forall|x: int, y: int| in_range(x, y) ==> #[trigger] self.grid()[x][y] != Tile::King,
    {
        let ghost g = self.grid();
        let mut i: usize = 0;
        while i < 11
            invariant
                g == self.grid(),
                i <= 11,
                forall|x: int, y: int| 0 <= x < i && 0 <= y <= 10 ==> #[trigger] g[x][y] != Tile::King,
            decreases 11 - i,
        {
            let mut j: usize = 0;
            while j < 11
                invariant
                    g == self.grid(),
                    i < 11,
                    j <= 11,
                    forall|x: int, y: int| 0 <= x < i && 0 <= y <= 10 ==> #[trigger] g[x][y] != Tile::King,
                    forall|y: int| 0 <= y < j ==> #[trigger] g[i as int][y] != Tile::King,
                decreases 11 - j,
            {
                if self.board[i][j] == Tile::King {
                    proof {
                        let c: Cell = (i as int, j as int);
                        assert(first_king(g, c));
                        lemma_first_king_unique(g, c, king_cell(g));
                    }
                    return Some((i, j));
                }
                j = j + 1;
            }
            i = i + 1;
        }
        proof {
            assert forall|c: Cell| !first_king(g, c) by {
                if in_range(c.0, c.1) {
                    assert(g[c.0][c.1] != Tile::King);
                }
            }
        }
        None
    }

    /// Lifts whatever stands on (x, y) for a move: the square it leaves
    /// shows its ground again.
    pub fn clear_tile(&mut self, x: usize, y: usize)
        requires
            in_range(x as int, y as int),
        ensures
            final(self).grid() == grid_set(old(self).grid(), x as int, y as int, ground(x as int, y as int)),
            final(self).winner == old(self).winner,
    {
        let tile = if (x == 0 || x == 10) && (y == 0 || y == 10) {
            Tile::Corner
        } else if x == 5 && y == 5 {
            Tile::Throne
        } else {
            Tile::Empty
        };
        self.set_tile(tile, x, y);
    }

    /// Overwrites the tile at (x, y) and nothing else.
    pub fn set_tile(&mut self, new_tile: Tile, x: usize, y: usize)
        requires
            in_range(x as int, y as int),
        ensures
            final(self).grid() == grid_set(old(self).grid(), x as int, y as int, new_tile),
            final(self).winner == old(self).winner,
    {
        self.board[x][y] = new_tile;
        proof {
            let g = grid_set(old(self).grid(), x as int, y as int, new_tile);
            assert forall|i: int| 0 <= i < 11 implies #[trigger] self.grid()[i] =~= g[i] by {}
            assert(self.grid() =~= g);
        }
    }
}

} // verus!
