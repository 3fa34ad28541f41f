use super::board::{
    bare_grid, grid_set, ground, precedes, standard_layout, Board, Color, GameError, Grid, Tile,
};
use vstd::prelude::*;

verus! {

/// The character that stands for a run of `n` squares without a piece: a
/// digit up to nine, then `A` for ten and `B` for eleven.
pub open spec fn run_char(n: int) -> char {
    if n == 1 {
        '1'
    } else if n == 2 {
        '2'
    } else if n == 3 {
        '3'
    } else if n == 4 {
        '4'
    } else if n == 5 {
        '5'
    } else if n == 6 {
        '6'
    } else if n == 7 {
        '7'
    } else if n == 8 {
        '8'
    } else if n == 9 {
        '9'
    } else if n == 10 {
        'A'
    } else if n == 11 {
        'B'
    } else {
        '0'
    }
}

/// The character that stands for a piece.
pub open spec fn piece_char(t: Tile) -> char {
    match t {
        Tile::Black => 'b',
        Tile::White => 'w',
        Tile::King => 'k',
        Tile::Empty | Tile::Corner | Tile::Throne => '0',
    }
}

/// The text for a run of squares without a piece: nothing for no square.
pub open spec fn run_text(run: int) -> Seq<char> {
    if run > 0 {
        seq![run_char(run)]
    } else {
        Seq::empty()
    }
}

/// The text of a row from column `j` on, with `run` squares without a piece
/// pending before it. A row ends with `/`.
pub open spec fn encode_cells(row: Seq<Tile>, j: int, run: int) -> Seq<char>
    decreases row.len() - j,
{
    if j >= row.len() {
        run_text(run) + seq!['/']
    } else if row[j].is_piece() {
        run_text(run) + seq![piece_char(row[j])] + encode_cells(row, j + 1, 0)
    } else {
        encode_cells(row, j + 1, run + 1)
    }
}

/// The text of the first `n` rows.
pub open spec fn encode_rows(g: Grid, n: nat) -> Seq<char>
    decreases n,
{
    if n == 0 {
        Seq::empty()
    } else {
        encode_rows(g, (n - 1) as nat) + encode_cells(g[n - 1], 0, 0)
    }
}

/// The board in notation: row by row, each row ended by `/`, a piece as
/// `b`, `w` or `k`, and each run of squares without a piece as its length.
pub open spec fn encode(g: Grid) -> Seq<char> {
    encode_rows(g, 11)
}

/// Where a reader of the notation stands: the tiles set so far, and the
/// square that the next character speaks of.
pub struct Cursor {
    pub grid: Grid,
    pub row: int,
    pub col: int,
}

/// The length of the run that a character stands for; zero for a character
/// that stands for none.
pub open spec fn run_of(c: char) -> int {
    if c == '1' {
        1
    } else if c == '2' {
        2
    } else if c == '3' {
        3
    } else if c == '4' {
        4
    } else if c == '5' {
        5
    } else if c == '6' {
        6
    } else if c == '7' {
        7
    } else if c == '8' {
        8
    } else if c == '9' {
        9
    } else if c == 'A' {
        10
    } else if c == 'B' {
        11
    } else {
        0
    }
}

/// The piece that a character stands for.
pub open spec fn piece_of(c: char) -> Option<Tile> {
    if c == 'b' {
        Some(Tile::Black)
    } else if c == 'w' {
        Some(Tile::White)
    } else if c == 'k' {
        Some(Tile::King)
    } else {
        None
    }
}

/// Reads one character. `/` begins the next row; a piece is set on the
/// square at hand, which has to lie on the board; a run moves on along the
/// row. Any other character, and a piece off the board, end the reading.
pub open spec fn read_char(at: Option<Cursor>, c: char) -> Option<Cursor> {
    match at {
        None => None,
        Some(cur) => if c == '/' {
            Some(Cursor { grid: cur.grid, row: cur.row + 1, col: 0 })
        } else if piece_of(c) is Some {
            if cur.row < 11 && cur.col < 11 {
                Some(
                    Cursor {
                        grid: grid_set(cur.grid, cur.row, cur.col, piece_of(c)->Some_0),
                        row: cur.row,
                        col: cur.col + 1,
                    },
                )
            } else {
                None
            }
        } else if run_of(c) > 0 {
            Some(Cursor { grid: cur.grid, row: cur.row, col: cur.col + run_of(c) })
        } else {
            None
        },
    }
}

/// Reads the first `n` characters of `s`.
pub open spec fn read(at: Option<Cursor>, s: Seq<char>, n: nat) -> Option<Cursor>
    decreases n,
{
    if n == 0 {
        at
    } else {
        read_char(read(at, s, (n - 1) as nat), s[n - 1])
    }
}

/// Where reading begins: on the first square of the bare board.
pub open spec fn start() -> Option<Cursor> {
    Some(Cursor { grid: bare_grid(), row: 0, col: 0 })
}

/// The tiles that a text in notation describes, if it is well-formed.
pub open spec fn decode(s: Seq<char>) -> Option<Grid> {
    match read(start(), s, s.len()) {
        Some(cur) => Some(cur.grid),
        None => None,
    }
}

/// Once the reading has ended, it does not resume.
pub proof fn lemma_read_stays_ended(at: Option<Cursor>, s: Seq<char>, k: nat, n: nat)
    requires
        k <= n,
        read(at, s, k) is None,
    ensures
        read(at, s, n) is None,
    decreases n,
{
    if k < n {
        lemma_read_stays_ended(at, s, k, (n - 1) as nat);
    }
}

/// The text for a run of `n` squares without a piece.
fn run_str(n: u8) -> (r: &'static str)
    requires
        1 <= n <= 11,
    ensures
        r@ == seq![run_char(n as int)],
{
    proof {
        reveal_strlit("1");
        reveal_strlit("2");
        reveal_strlit("3");
        reveal_strlit("4");
        reveal_strlit("5");
        reveal_strlit("6");
        reveal_strlit("7");
        reveal_strlit("8");
        reveal_strlit("9");
        reveal_strlit("A");
        reveal_strlit("B");
    }
    let r = if n == 1 {
        "1"
    } else if n == 2 {
        "2"
    } else if n == 3 {
        "3"
    } else if n == 4 {
        "4"
    } else if n == 5 {
        "5"
    } else if n == 6 {
        "6"
    } else if n == 7 {
        "7"
    } else if n == 8 {
        "8"
    } else if n == 9 {
        "9"
    } else if n == 10 {
        "A"
    } else {
        "B"
    };
    assert(r@ =~= seq![run_char(n as int)]);
    r
}

/// The text for a piece.
fn piece_str(t: Tile) -> (r: &'static str)
    requires
        t.is_piece(),
    ensures
        r@ == seq![piece_char(t)],
{
    proof {
        reveal_strlit("b");
        reveal_strlit("w");
        reveal_strlit("k");
    }
    let r = match t {
        Tile::Black => "b",
        Tile::White => "w",
        _ => "k",
    };
    assert(r@ =~= seq![piece_char(t)]);
    r
}

/// The length of the run that a character stands for.
fn char_to_u8(c: char) -> (r: Option<u8>)
    ensures
        r matches Some(n) ==> n == run_of(c) && 1 <= n <= 11,
        r is None ==> run_of(c) == 0,
{
    match c {
        'B' => Some(11),
        'A' => Some(10),
        '9' => Some(9),
        '8' => Some(8),
        '7' => Some(7),
        '6' => Some(6),
        '5' => Some(5),
        '4' => Some(4),
        '3' => Some(3),
        '2' => Some(2),
        '1' => Some(1),
        _ => None,
    }
}

/// Appends the pending run, if there is one.
fn push_run(text: &mut String, run: u8)
    requires
        run <= 11,
    ensures
        final(text)@ == old(text)@ + run_text(run as int),
{
    if run > 0 {
        text.append(run_str(run));
    } else {
        assert(text@ + Seq::<char>::empty() =~= text@);
    }
}

impl Board {
    /// The board in notation. It never fails.
    pub fn to_string(&self) -> (r: Result<String, GameError>)
        ensures
            r is Ok,
            r->Ok_0@ == encode(self.grid()),
    {
        let ghost g = self.grid();
        let mut text = String::new();
        let mut i: usize = 0;
        while i < 11
            invariant
                g == self.grid(),
                i <= 11,
                text@ == encode_rows(g, i as nat),
            decreases 11 - i,
        {
            let ghost done = text@;
            let ghost row = g[i as int];
            let mut empty_count: u8 = 0;
            let mut j: usize = 0;
            assert(text@ + encode_cells(row, 0, 0) == done + encode_cells(row, 0, 0));
            while j < 11
                invariant
                    g == self.grid(),
                    i < 11,
                    j <= 11,
                    row == g[i as int],
                    row.len() == 11,
                    empty_count <= j,
                    text@ + encode_cells(row, j as int, empty_count as int) == done + encode_cells(row, 0, 0),
                decreases 11 - j,
            {
                let tile = self.board[i][j];
                let ghost before = text@;
                match tile {
                    Tile::Empty | Tile::Corner | Tile::Throne => {
                        empty_count = empty_count + 1;
                    },
                    Tile::Black | Tile::White | Tile::King => {
                        push_run(&mut text, empty_count);
                        text.append(piece_str(tile));
                        assert(text@ + encode_cells(row, j + 1, 0) =~= before + (run_text(empty_count as int)
                            + seq![piece_char(tile)] + encode_cells(row, j + 1, 0)));
                        empty_count = 0;
                    },
                }
                j = j + 1;
            }
            let ghost before = text@;
            push_run(&mut text, empty_count);
            text.append("/");
            proof {
                reveal_strlit("/");
                assert("/"@ =~= seq!['/']);
                assert(text@ =~= before + (run_text(empty_count as int) + seq!['/']));
            }
            i = i + 1;
        }
        Ok(text)
    }

    /// Reads the first `n` characters of a text in notation.
    pub(crate) fn from_prefix(text: &str, n: usize) -> (r: Result<Board, GameError>)
        requires
            n <= text@.len(),
        ensures
            match read(start(), text@, n as nat) {
                Some(cur) => r is Ok && r->Ok_0.grid() == cur.grid && r->Ok_0.winner == Color::Neither,
                None => r == Err::<Board, GameError>(GameError::BadNotation),
            },
    {
        let mut board = Board::new();
        let mut row: usize = 0;
        let mut col: usize = 0;
        let mut i: usize = 0;
        let ghost mut cur = start()->Some_0;
        while i < n
            invariant
                i <= n <= text@.len(),
                read(start(), text@, i as nat) == Some(cur),
                board.grid() == cur.grid,
                board.winner == Color::Neither,
                0 <= cur.row,
                0 <= cur.col,
                row <= 11,
                col <= 11,
                row == if cur.row < 11 {
                    cur.row
                } else {
                    11
                },
                col == if cur.col < 11 {
                    cur.col
                } else {
                    11
                },
            decreases n - i,
        {
            let c = text.get_char(i);
            let ghost next = read_char(Some(cur), c);
            assert(read(start(), text@, (i + 1) as nat) == next);
            if c == '/' {
                if row < 11 {
                    row = row + 1;
                }
                col = 0;
            } else if c == 'b' || c == 'w' || c == 'k' {
                if row > 10 || col > 10 {
                    proof {
                        lemma_read_stays_ended(start(), text@, (i + 1) as nat, n as nat);
                    }
                    return Err(GameError::BadNotation);
                }
                let tile = if c == 'b' {
                    Tile::Black
                } else if c == 'w' {
                    Tile::White
                } else {
                    Tile::King
                };
                board.set_tile(tile, row, col);
                col = col + 1;
            } else {
                match char_to_u8(c) {
                    Some(k) => {
                        col = if col + k as usize > 11 {
                            11
                        } else {
                            col + k as usize
                        };
                    },
                    None => {
                        proof {
                            lemma_read_stays_ended(start(), text@, (i + 1) as nat, n as nat);
                        }
                        return Err(GameError::BadNotation);
                    },
                }
            }
            proof {
                cur = next->Some_0;
            }
            i = i + 1;
        }
        Ok(board)
    }

    /// The board that a text in notation describes, without a winner.
    /// Fails with `BadNotation` when the text holds a character that stands
    /// for nothing, or sets a piece off the board; no board is returned
    /// then.
    pub fn from_string(str: String) -> (r: Result<Board, GameError>)
        ensures
            match decode(str@) {
                Some(g) => r is Ok && r->Ok_0.grid() == g && r->Ok_0.winner == Color::Neither,
                None => r == Err::<Board, GameError>(GameError::BadNotation),
            },
    {
        let text = str.as_str();
        let n = text.unicode_len();
        Board::from_prefix(text, n)
    }
}

/// Reads all of `s`.
pub open spec fn read_all(at: Option<Cursor>, s: Seq<char>) -> Option<Cursor> {
    read(at, s, s.len())
}

/// The grid that shows the tiles of `g` on the squares before (i, j) in
/// reading order, and bare ground from there on.
pub open spec fn partial(g: Grid, i: int, j: int) -> Grid {
    Seq::new(
        11,
        |x: int|
            Seq::new(
                11,
                |y: int|
                    if precedes((x, y), (i, j)) {
                        g[x][y]
                    } else {
                        ground(x, y)
                    },
            ),
    )
}

/// Reading the first part of a text does not depend on what follows.
pub proof fn lemma_read_prefix(at: Option<Cursor>, a: Seq<char>, b: Seq<char>, k: nat)
    requires
        k <= a.len(),
    ensures
        read(at, a + b, k) == read(at, a, k),
    decreases k,
{
    if k > 0 {
        lemma_read_prefix(at, a, b, (k - 1) as nat);
        assert((a + b)[k - 1] == a[k - 1]);
    }
}

/// Reading past the first part of a text goes on from where the first part
/// has led.
proof fn lemma_read_suffix(at: Option<Cursor>, a: Seq<char>, b: Seq<char>, k: nat)
    requires
        k <= b.len(),
    ensures
        read(at, a + b, a.len() + k) == read(read_all(at, a), b, k),
    decreases k,
{
    if k == 0 {
        lemma_read_prefix(at, a, b, a.len());
    } else {
        lemma_read_suffix(at, a, b, (k - 1) as nat);
        assert((a + b)[a.len() + k - 1] == b[k - 1]);
    }
}

/// Reading two texts in a row is reading the one, then the other.
proof fn lemma_read_concat(at: Option<Cursor>, a: Seq<char>, b: Seq<char>)
    ensures
        read_all(at, a + b) == read_all(read_all(at, a), b),
{
    lemma_read_suffix(at, a, b, b.len());
}

/// Reading a single character.
proof fn lemma_read_one(at: Option<Cursor>, c: char)
    ensures
        read_all(at, seq![c]) == read_char(at, c),
{
    assert(read(at, seq![c], 0) == at);
    assert(seq![c][0] == c);
}

/// Reading a pending run moves on by its length.
proof fn lemma_read_run(cur: Cursor, run: int)
    requires
        0 <= run <= 11,
    ensures
        read_all(Some(cur), run_text(run)) == Some(Cursor { grid: cur.grid, row: cur.row, col: cur.col + run }),
{
    if run > 0 {
        lemma_read_one(Some(cur), run_char(run));
    }
}

/// Reading the rest of a row of a board in standard layout sets the rest
/// of its pieces and leads to the start of the next row.
proof fn lemma_read_row(g: Grid, i: int, j: int, run: int)
    requires
        standard_layout(g),
        0 <= i < 11,
        0 <= run <= j <= 11,
        forall|y: int| j - run <= y < j ==> !(#[trigger] g[i][y]).is_piece(),
    ensures
        read_all(Some(Cursor { grid: partial(g, i, j), row: i, col: j - run }), encode_cells(g[i], j, run))
            == Some(Cursor { grid: partial(g, i + 1, 0), row: i + 1, col: 0 }),
    decreases 11 - j,
{
    let row = g[i];
    let at = Cursor { grid: partial(g, i, j), row: i, col: j - run };
    let after_run = Cursor { grid: partial(g, i, j), row: i, col: j };
    lemma_read_run(at, run);
    if j >= 11 {
        lemma_read_concat(Some(at), run_text(run), seq!['/']);
        lemma_read_one(Some(after_run), '/');
        let a = partial(g, i, 11);
        let b = partial(g, i + 1, 0);
        assert forall|x: int| 0 <= x < 11 implies #[trigger] a[x] =~= b[x] by {}
        assert(a =~= b);
    } else if row[j].is_piece() {
        let rest = encode_cells(row, j + 1, 0);
        let pc = piece_char(row[j]);
        lemma_read_concat(Some(at), run_text(run) + seq![pc], rest);
        lemma_read_concat(Some(at), run_text(run), seq![pc]);
        lemma_read_one(Some(after_run), pc);
        let a = grid_set(partial(g, i, j), i, j, row[j]);
        let b = partial(g, i, j + 1);
        assert forall|x: int| 0 <= x < 11 implies #[trigger] a[x] =~= b[x] by {}
        assert(a =~= b);
        assert(piece_of(pc) == Some(row[j]));
        lemma_read_row(g, i, j + 1, 0);
    } else {
        let a = partial(g, i, j);
        let b = partial(g, i, j + 1);
        assert forall|x: int| 0 <= x < 11 implies #[trigger] a[x] =~= b[x] by {
            assert(g[i][j] == ground(i, j));
        }
        assert(a =~= b);
        lemma_read_row(g, i, j + 1, run + 1);
    }
}

/// Reading the first `n` rows of a board in standard layout sets their
/// pieces and leads to the start of the next row.
proof fn lemma_read_rows(g: Grid, n: nat)
    requires
        standard_layout(g),
        n <= 11,
    ensures
        read_all(start(), encode_rows(g, n)) == Some(Cursor { grid: partial(g, n as int, 0), row: n as int, col: 0 }),
    decreases n,
{
    if n == 0 {
        let a = partial(g, 0, 0);
        let b = bare_grid();
        assert forall|x: int| 0 <= x < 11 implies #[trigger] a[x] =~= b[x] by {}
        assert(a =~= b);
    } else {
        lemma_read_rows(g, (n - 1) as nat);
        lemma_read_concat(start(), encode_rows(g, (n - 1) as nat), encode_cells(g[n - 1], 0, 0));
        lemma_read_row(g, n - 1, 0, 0);
    }
}

/// Writing a board in standard layout down and reading it back gives the
/// same tiles.
pub proof fn lemma_decode_encode(g: Grid)
    requires
        standard_layout(g),
    ensures
        decode(encode(g)) == Some(g),
{
    lemma_read_rows(g, 11);
    let a = partial(g, 11, 0);
    assert forall|x: int| 0 <= x < 11 implies #[trigger] a[x] =~= g[x] by {}
    assert(a =~= g);
}

/// The character that shows a tile in a picture of the board.
pub open spec fn tile_char(t: Tile) -> char {
    match t {
        Tile::Empty => '.',
        Tile::Corner | Tile::Throne => 'X',
        Tile::Black => 'B',
        Tile::White => 'W',
        Tile::King => 'K',
    }
}

/// The first `n` characters of the picture of a board: eleven lines of
/// eleven characters, each line ended by a line feed.
pub open spec fn picture_upto(g: Grid, n: nat) -> Seq<char> {
    Seq::new(
        n,
        |k: int|
            if k % 12 == 11 {
                '\n'
            } else {
                tile_char(g[k / 12][k % 12])
            },
    )
}

/// The picture of a board.
pub open spec fn picture_of(g: Grid) -> Seq<char> {
    picture_upto(g, 132)
}

/// The text that shows a tile.
fn tile_str(t: Tile) -> (r: &'static str)
    ensures
        r@ == seq![tile_char(t)],
{
    proof {
        reveal_strlit(".");
        reveal_strlit("X");
        reveal_strlit("B");
        reveal_strlit("W");
        reveal_strlit("K");
    }
    let r = match t {
        Tile::Empty => ".",
        Tile::Corner | Tile::Throne => "X",
        Tile::Black => "B",
        Tile::White => "W",
        Tile::King => "K",
    };
    assert(r@ =~= seq![tile_char(t)]);
    r
}

impl Board {
    /// A picture of the board for a reader: `.` for an empty square, `X`
    /// for a corner and the throne, `B`, `W` and `K` for the pieces.
    pub fn picture(&self) -> (r: String)
        ensures
            r@ == picture_of(self.grid()),
    {
        let ghost g = self.grid();
        let mut text = String::new();
        let mut i: usize = 0;
        assert(text@ =~= picture_upto(g, 0));
        while i < 11
            invariant
                g == self.grid(),
                i <= 11,
                text@ == picture_upto(g, (12 * i) as nat),
            decreases 11 - i,
        {
            let mut j: usize = 0;
            while j < 11
                invariant
                    g == self.grid(),
                    i < 11,
                    j <= 11,
                    text@ == picture_upto(g, (12 * i + j) as nat),
                decreases 11 - j,
            {
                let ghost before = text@;
                text.append(tile_str(self.board[i][j]));
                proof {
                    let k = 12 * i + j;
                    assert(k / 12 == i && k % 12 == j);
                    assert(text@ =~= picture_upto(g, (k + 1) as nat));
                }
                j = j + 1;
            }
            text.append("\n");
            proof {
                reveal_strlit("\n");
                let k = 12 * i + 11;
                assert(k % 12 == 11);
                assert(text@ =~= picture_upto(g, (k + 1) as nat));
            }
            i = i + 1;
        }
        text
    }
}

/// What the message of an error says.
pub open spec fn message_of(e: GameError) -> Seq<char> {
    match e {
        GameError::OutOfRange => "Indexes must be between 0 and 10"@,
        GameError::NoPieceAtSquare => "No piece at coordinates"@,
        GameError::IllegalMove => "Illegal move!"@,
        GameError::WrongTurn => "Not the current player!"@,
        GameError::NoLegalMoves => "No legal moves"@,
        GameError::BadNotation => "Wrong format"@,
    }
}

impl GameError {
    /// The error in words.
    pub fn message(&self) -> (r: &'static str)
        ensures
            r@ == message_of(*self),
    {
        match self {
            GameError::OutOfRange => "Indexes must be between 0 and 10",
            GameError::NoPieceAtSquare => "No piece at coordinates",
            GameError::IllegalMove => "Illegal move!",
            GameError::WrongTurn => "Not the current player!",
            GameError::NoLegalMoves => "No legal moves",
            GameError::BadNotation => "Wrong format",
        }
    }
}

} // verus!
