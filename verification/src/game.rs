use self::after_move_eval::{after_move, move_and_resolve};
use self::ai::{
    all_moves, get_all_moves, get_random_move, is_best_move, is_move_of, lemma_all_moves, minimax_best_move, move_of,
    moves_of,
};
use self::board::{
    grid_set, ground, in_range, standard_layout, Board, Cell, Color, GameError, Grid, HasColor, Passable, Position,
    Tile,
};
use self::legal_moves::{is_legal_move, legal_move, on_path};
use self::notation::{
    encode, lemma_decode_encode, lemma_read_prefix, read, start,
};
use vstd::prelude::*;

pub mod after_move_eval;
pub mod ai;
pub mod board;
pub mod flood_fill;
pub mod legal_moves;
pub mod notation;

verus! {

/// A game: the board, the side to move, and which sides a bot plays.
pub struct Game {
    pub board: Board,
    pub current_player: Color,
    pub bot_white: bool,
    pub bot_black: bool,
    pub bot_difficulty: u8,
}

/// A game as the contracts see it.
pub struct GameState {
    pub position: Position,
    pub current_player: Color,
    pub bot_white: bool,
    pub bot_black: bool,
    pub bot_difficulty: u8,
}

impl View for Game {
    type V = GameState;

    open spec fn view(&self) -> GameState {
        GameState {
            position: self.board@,
            current_player: self.current_player,
            bot_white: self.bot_white,
            bot_black: self.bot_black,
            bot_difficulty: self.bot_difficulty,
        }
    }
}

/// An attacker starts on (x, y): five in the middle of each side of the
/// rim, and one in front of each of these lines.
pub open spec fn black_starts_on(x: int, y: int) -> bool {
    ||| (x == 0 || x == 10) && 3 <= y <= 7
    ||| (y == 0 || y == 10) && 3 <= x <= 7
    ||| (x == 1 || x == 9) && y == 5
    ||| (y == 1 || y == 9) && x == 5
}

/// A defender starts on (x, y): within two steps of the throne.
pub open spec fn white_starts_on(x: int, y: int) -> bool {
    let dx = if x >= 5 {
        x - 5
    } else {
        5 - x
    };
    let dy = if y >= 5 {
        y - 5
    } else {
        5 - y
    };
    1 <= dx + dy <= 2
}

/// What stands on (x, y) when a game begins.
pub open spec fn starting_tile(x: int, y: int) -> Tile {
    if x == 5 && y == 5 {
        Tile::King
    } else if white_starts_on(x, y) {
        Tile::White
    } else if black_starts_on(x, y) {
        Tile::Black
    } else {
        ground(x, y)
    }
}

/// The board when a game begins: the King on the throne, twelve defenders
/// around him, twenty-four attackers along the rim.
pub open spec fn starting_grid() -> Grid {
    Seq::new(11, |x: int| Seq::new(11, |y: int| starting_tile(x, y)))
}

/// The starting board is in standard layout.
pub proof fn lemma_starting_layout()
    ensures
        standard_layout(starting_grid()),
{
    let g = starting_grid();
    assert forall|x: int, y: int| in_range(x, y) implies (#[trigger] g[x][y]).is_piece() || g[x][y] == ground(
        x,
        y,
    ) by {
        assert(g[x][y] == starting_tile(x, y));
    }
}

/// The side that moves after `player`.
pub open spec fn other_side(player: Color) -> Color {
    if player == Color::White {
        Color::Black
    } else {
        Color::White
    }
}

/// The character that says whether a bot plays a side.
pub open spec fn bot_char(bot: bool) -> char {
    if bot {
        'b'
    } else {
        'p'
    }
}

/// The character that names the side to move.
pub open spec fn player_char(player: Color) -> char {
    if player == Color::Black {
        'b'
    } else {
        'w'
    }
}

/// A game in notation: the board, then `/`, then one character each for
/// White's bot, Black's bot and the side to move.
pub open spec fn encode_game(g: GameState) -> Seq<char> {
    encode(g.position.grid) + seq![
        '/',
        bot_char(g.bot_white),
        bot_char(g.bot_black),
        player_char(g.current_player),
    ]
}

/// The game that a text in notation describes, if it is well-formed: the
/// last four characters say who plays and who moves, what stands before
/// them is a board. The strength of the bot is not part of the text.
pub open spec fn decode_game(s: Seq<char>, bot_difficulty: u8) -> Option<GameState> {
    let n = s.len() - 4;
    if s.len() < 4 || s[n] != '/' || (s[n + 1] != 'p' && s[n + 1] != 'b') || (s[n + 2] != 'p' && s[n + 2]
        != 'b') || (s[n + 3] != 'w' && s[n + 3] != 'b') {
        None
    } else {
        match read(start(), s, n as nat) {
            None => None,
            Some(cur) => Some(
                GameState {
                    position: Position { grid: cur.grid, winner: Color::Neither },
                    current_player: if s[n + 3] == 'w' {
                        Color::White
                    } else {
                        Color::Black
                    },
                    bot_white: s[n + 1] == 'b',
                    bot_black: s[n + 2] == 'b',
                    bot_difficulty,
                },
            ),
        }
    }
}

/// Writing an undecided game in standard layout down and reading it back
/// gives the same game.
pub proof fn lemma_decode_encode_game(g: GameState)
    requires
        standard_layout(g.position.grid),
        g.position.winner == Color::Neither,
        g.current_player != Color::Neither,
    ensures
        decode_game(encode_game(g), g.bot_difficulty) == Some(g),
{
    let board_text = encode(g.position.grid);
    let tail = seq!['/', bot_char(g.bot_white), bot_char(g.bot_black), player_char(g.current_player)];
    let s = encode_game(g);
    let n = s.len() - 4;
    assert(n == board_text.len());
    assert(s[n] == tail[0] && s[n + 1] == tail[1] && s[n + 2] == tail[2] && s[n + 3] == tail[3]);
    lemma_read_prefix(start(), board_text, tail, board_text.len());
    lemma_decode_encode(g.position.grid);
}

/// The game after the side to move has carried its piece from `from` to
/// `to`: the move is resolved and the other side is to move.
pub open spec fn after_ply(g: GameState, from: Cell, to: Cell) -> GameState {
    GameState {
        position: after_move(g.position, from, to),
        current_player: other_side(g.current_player),
        bot_white: g.bot_white,
        bot_black: g.bot_black,
        bot_difficulty: g.bot_difficulty,
    }
}

/// The game after the side to move, finding no legal move, has lost.
pub open spec fn lost_on_move(g: GameState) -> GameState {
    GameState {
        position: Position {
            grid: g.position.grid,
            winner: if g.current_player == Color::Black {
                Color::White
            } else {
                Color::Black
            },
        },
        current_player: g.current_player,
        bot_white: g.bot_white,
        bot_black: g.bot_black,
        bot_difficulty: g.bot_difficulty,
    }
}

/// A bot has to move: the game is undecided and a bot plays the side to
/// move.
pub open spec fn bot_to_move(g: GameState) -> bool {
    g.position.winner == Color::Neither && ((g.current_player == Color::White && g.bot_white) || (
    g.current_player == Color::Black && g.bot_black))
}

/// In an undecided game, `from` to `to` is a legal move of a piece of the
/// side to move.
pub open spec fn good_move(g: GameState, from: Cell, to: Cell) -> bool {
    g.position.winner == Color::Neither && is_move_of(g.position.grid, g.current_player, (from, to))
}

/// The move from `from` to `to` is good, and a bot has to answer it.
pub open spec fn answer_owed(g: GameState, from: Cell, to: Cell) -> bool {
    good_move(g, from, to) && bot_to_move(after_ply(g, from, to))
}

/// `after` is the game that a turn of the bot makes of `before`. Where no
/// bot has to move, nothing changes. A bot without a legal move has lost.
/// Any other bot makes one of its legal moves; a bot of strength 2 makes
/// the best one of a search one level deep.
pub open spec fn bot_answer(before: GameState, after: GameState) -> bool {
    let moves = all_moves(before.position.grid, before.current_player);
    if !bot_to_move(before) {
        after == before
    } else if moves.len() == 0 {
        after == lost_on_move(before)
    } else {
        exists|i: int|
            #![trigger moves[i]]
            0 <= i < moves.len() && after == after_ply(before, moves[i].0, moves[i].1) && (before.bot_difficulty
                == 2 ==> is_best_move(before.position, before.current_player, 1, i))
    }
}

/// `after` is the game that `n` turns of bots in a row make of `before`:
/// at each turn a bot has to move and takes its turn as `bot_answer`
/// describes.
pub open spec fn bot_answers(before: GameState, after: GameState, n: nat) -> bool
    decreases n,
{
    if n == 0 {
        after == before
    } else {
        exists|mid: GameState|
            #![trigger bot_answer(mid, after)]
            bot_answers(before, mid, (n - 1) as nat) && bot_to_move(mid) && bot_answer(mid, after)
    }
}

/// What stands on (x, y) when a game begins.
fn starting_piece(x: usize, y: usize) -> (t: Tile)
    requires
        in_range(x as int, y as int),
    ensures
        t == starting_tile(x as int, y as int),
{
    let dx = if x >= 5 {
        x - 5
    } else {
        5 - x
    };
    let dy = if y >= 5 {
        y - 5
    } else {
        5 - y
    };
    if x == 5 && y == 5 {
        Tile::King
    } else if dx + dy <= 2 {
        Tile::White
    } else if ((x == 0 || x == 10) && 3 <= y && y <= 7) || ((y == 0 || y == 10) && 3 <= x && x <= 7) || ((x == 1
        || x == 9) && y == 5) || ((y == 1 || y == 9) && x == 5) {
        Tile::Black
    } else if (x == 0 || x == 10) && (y == 0 || y == 10) {
        Tile::Corner
    } else {
        Tile::Empty
    }
}

/// The board when a game begins.
fn starting_board() -> (b: Board)
    ensures
        b.grid() == starting_grid(),
        b.winner == Color::Neither,
{
    let mut b = Board::new();
    let mut x: usize = 0;
    let mut y: usize = 0;
    while x < 11
        invariant
            x <= 11,
            y <= 10,
            b.winner == Color::Neither,
            b.grid().len() == 11,
            forall|i: int| 0 <= i < 11 ==> (#[trigger] b.grid()[i]).len() == 11,
            forall|i: int, j: int|
                in_range(i, j) && (i < x || (i == x && j < y)) ==> #[trigger] b.grid()[i][j] == starting_tile(i, j),
        decreases (11 - x) * 11 - y,
    {
        b.set_tile(starting_piece(x, y), x, y);
        if y == 10 {
            x = x + 1;
            y = 0;
        } else {
            y = y + 1;
        }
    }
    proof {
        assert forall|i: int| 0 <= i < 11 implies #[trigger] b.grid()[i] =~= starting_grid()[i] by {
            assert forall|j: int| 0 <= j < 11 implies b.grid()[i][j] == starting_grid()[i][j] by {
                assert(in_range(i, j));
            }
        }
        assert(b.grid() =~= starting_grid());
    }
    b
}

impl Game {
    /// A new game. Black moves first. Where a bot plays Black it makes its
    /// first move at once, a legal move drawn at random, and White is to
    /// move.
    pub fn new(bot_player_white: bool, bot_player_black: bool, bot_difficulty: u8) -> (game: Game)
        ensures
            game.bot_white == bot_player_white,
            game.bot_black == bot_player_black,
            game.bot_difficulty == bot_difficulty,
            game.board.winner == Color::Neither,
            !bot_player_black ==> game.board.grid() == starting_grid() && game.current_player == Color::Black,
            bot_player_black ==> game.current_player == Color::White && exists|from: Cell, to: Cell|
                #![trigger is_move_of(starting_grid(), Color::Black, (from, to))]
                is_move_of(starting_grid(), Color::Black, (from, to)) && game.board.grid() == grid_set(
                    grid_set(starting_grid(), from.0, from.1, Tile::Empty),
                    to.0,
                    to.1,
                    Tile::Black,
                ),
    {
        let mut new_board = starting_board();
        if bot_player_black {
            proof {
                lemma_black_can_open();
            }
            match get_random_move(new_board, Color::Black) {
                Ok(ai_move) => {
                    new_board.set_tile(Tile::Empty, ai_move[0].0, ai_move[0].1);
                    new_board.set_tile(Tile::Black, ai_move[1].0, ai_move[1].1);
                    assert(is_move_of(starting_grid(), Color::Black, move_of(ai_move)));
                    return Game {
                        board: new_board,
                        current_player: Color::White,
                        bot_white: bot_player_white,
                        bot_black: bot_player_black,
                        bot_difficulty: bot_difficulty,
                    };
                },
                Err(_) => {},
            }
        }
        Game {
            board: new_board,
            current_player: Color::Black,
            bot_white: bot_player_white,
            bot_black: bot_player_black,
            bot_difficulty: bot_difficulty,
        }
    }

    /// The game in notation. It never fails.
    pub fn to_string(&self) -> (r: Result<String, GameError>)
        ensures
            r is Ok,
            r->Ok_0@ == encode_game(self@),
    {
        let mut text = match self.board.to_string() {
            Ok(text) => text,
            Err(e) => {
                return Err(e);
            },
        };
        proof {
            reveal_strlit("/");
            reveal_strlit("b");
            reveal_strlit("p");
            reveal_strlit("w");
        }
        text.append("/");
        if self.bot_white {
            text.append("b");
        } else {
            text.append("p");
        }
        if self.bot_black {
            text.append("b");
        } else {
            text.append("p");
        }
        if self.current_player == Color::Black {
            text.append("b");
        } else {
            text.append("w");
        }
        assert(text@ =~= encode_game(self@));
        Ok(text)
    }

    /// The game that a text in notation describes, with a bot of the given
    /// strength. Fails with `BadNotation` when the text does not end in
    /// `/` and the three characters for the bots and the side to move, or
    /// when what stands before them is no board.
    pub fn from_string(str: String, bot_difficulty: u8) -> (r: Result<Game, GameError>)
        ensures
            match decode_game(str@, bot_difficulty) {
                Some(g) => r is Ok && r->Ok_0@ == g,
                None => r is Err && r->Err_0 == GameError::BadNotation,
            },
    {
        let text = str.as_str();
        let len = text.unicode_len();
        if len < 4 {
            return Err(GameError::BadNotation);
        }
        let n = len - 4;
        let new_current_player = match text.get_char(n + 3) {
            'w' => Color::White,
            'b' => Color::Black,
            _ => {
                return Err(GameError::BadNotation);
            },
        };
        let bot_player_black = match text.get_char(n + 2) {
            'p' => false,
            'b' => true,
            _ => {
                return Err(GameError::BadNotation);
            },
        };
        let bot_player_white = match text.get_char(n + 1) {
            'p' => false,
            'b' => true,
            _ => {
                return Err(GameError::BadNotation);
            },
        };
        if text.get_char(n) != '/' {
            return Err(GameError::BadNotation);
        }
        match Board::from_prefix(text, n) {
            Ok(board) => Ok(
                Game {
                    board,
                    current_player: new_current_player,
                    bot_white: bot_player_white,
                    bot_black: bot_player_black,
                    bot_difficulty,
                },
            ),
            Err(_) => Err(GameError::BadNotation),
        }
    }

    /// Carries the piece on `from` to `to`, resolves the move and hands the
    /// turn to the other side.
    fn play(&mut self, from: (usize, usize), to: (usize, usize))
        requires
            in_range(from.0 as int, from.1 as int),
            in_range(to.0 as int, to.1 as int),
        ensures
            final(self)@ == after_ply(old(self)@, (from.0 as int, from.1 as int), (to.0 as int, to.1 as int)),
    {
        self.board = move_and_resolve(&self.board, from, to);
        self.current_player = if self.current_player == Color::White {
            Color::Black
        } else {
            Color::White
        };
    }

    /// The move of a player from (x_from, y_from) to (x_to, y_to), and the
    /// answer of the bot where a bot plays the other side.
    ///
    /// In a decided game nothing happens. Otherwise a move that breaks the
    /// rules of movement fails with `IllegalMove`, and a move of the other
    /// side's piece with `WrongTurn`; the game is then as it was. A good
    /// move is made and resolved, the other side is to move, and if a bot
    /// plays that side it takes its turn at once, as `bot_move` describes.
    /// The bot answers once: where bots play both sides, `bot_moves` takes
    /// the turns that follow.
    pub fn make_move(&mut self, x_from: usize, y_from: usize, x_to: usize, y_to: usize) -> (r: Result<
        (),
        GameError,
    >)
        requires
            answer_owed(old(self)@, (x_from as int, y_from as int), (x_to as int, y_to as int)) ==> old(
                self,
            ).bot_difficulty == 1 || old(self).bot_difficulty == 2,
        ensures
            old(self).board.winner != Color::Neither ==> r is Ok && final(self)@ == old(self)@,
            old(self).board.winner == Color::Neither && !legal_move(
                old(self).board.grid(),
                x_from as int,
                y_from as int,
                x_to as int,
                y_to as int,
            ) ==> r == Err::<(), GameError>(GameError::IllegalMove) && final(self)@ == old(self)@,
            old(self).board.winner == Color::Neither && legal_move(
                old(self).board.grid(),
                x_from as int,
                y_from as int,
                x_to as int,
                y_to as int,
            ) && old(self).board.grid()[x_from as int][y_from as int].spec_color() != old(self).current_player
                ==> r == Err::<(), GameError>(GameError::WrongTurn) && final(self)@ == old(self)@,
            good_move(old(self)@, (x_from as int, y_from as int), (x_to as int, y_to as int)) ==> r is Ok
                && bot_answer(
                after_ply(old(self)@, (x_from as int, y_from as int), (x_to as int, y_to as int)),
                final(self)@,
            ),
    {
        if self.board.winner != Color::Neither {
            return Ok(());
        }
        if !is_legal_move(&self.board, x_from, y_from, x_to, y_to) {
            return Err(GameError::IllegalMove);
        }
        let from = self.board.board[x_from][y_from];
        if from.color() != self.current_player {
            return Err(GameError::WrongTurn);
        }
        self.play((x_from, y_from), (x_to, y_to));
        self.bot_move();
        Ok(())
    }

    /// Whether a bot has to move now.
    pub fn bot_to_move(&self) -> (b: bool)
        ensures
            b == bot_to_move(self@),
    {
        self.board.winner == Color::Neither && ((self.current_player == Color::White && self.bot_white) || (
        self.current_player == Color::Black && self.bot_black))
    }

    /// The bot's turn, if it is the bot's: a bot of strength 1 makes a legal
    /// move drawn at random, a bot of strength 2 the best move of a search
    /// one level deep. A bot without a legal move has lost. Returns whether
    /// a move was made.
    pub fn bot_move(&mut self) -> (moved: bool)
        requires
            bot_to_move(old(self)@) ==> old(self).bot_difficulty == 1 || old(self).bot_difficulty == 2,
        ensures
            bot_answer(old(self)@, final(self)@),
            moved == (bot_to_move(old(self)@) && all_moves(old(self).board.grid(), old(self).current_player).len()
                > 0),
    {
        if !self.bot_to_move() {
            return false;
        }
        let ghost moves = all_moves(self.board.grid(), self.current_player);
        let ai_move = if self.bot_difficulty == 1 {
            match get_random_move(self.board, self.current_player) {
                Ok(m) => m,
                Err(_) => {
                    self.resign();
                    return false;
                },
            }
        } else {
            let all = get_all_moves(&self.board, self.current_player);
            assert(moves_of(all@).len() == all@.len());
            if all.len() == 0 {
                self.resign();
                return false;
            }
            minimax_best_move(&self.board, self.current_player, 1)
        };
        proof {
            lemma_all_moves(self.board.grid(), self.current_player);
            if self.bot_difficulty == 1 {
                let i = choose|i: int| 0 <= i < moves.len() && moves[i] == move_of(ai_move);
                assert(moves[i] == move_of(ai_move));
            } else {
                let i = choose|i: int|
                    #![trigger moves[i]]
                    is_best_move(self.board@, self.current_player, 1, i) && move_of(ai_move) == moves[i];
                assert(moves.contains(moves[i]));
            }
            assert(moves.contains(move_of(ai_move)));
        }
        self.play(ai_move[0], ai_move[1]);
        true
    }

    /// The turns of the bots, one after another, until a player is to move
    /// or the game is decided, but no more than `limit` turns. Returns how
    /// many turns were taken; a turn on which a bot finds no legal move and
    /// loses counts as one. Fewer turns than `limit` mean that no bot has
    /// to move any more.
    pub fn bot_moves(&mut self, limit: usize) -> (made: usize)
        requires
            limit > 0 && bot_to_move(old(self)@) ==> old(self).bot_difficulty == 1 || old(self).bot_difficulty
                == 2,
        ensures
            made <= limit,
            bot_answers(old(self)@, final(self)@, made as nat),
            made < limit ==> !bot_to_move(final(self)@),
    {
        let mut made: usize = 0;
        while made < limit && self.bot_to_move()
            invariant
                made <= limit,
                self.bot_difficulty == old(self).bot_difficulty,
                limit > 0 && bot_to_move(old(self)@) ==> old(self).bot_difficulty == 1 || old(self).bot_difficulty
                    == 2,
                made > 0 ==> bot_to_move(old(self)@),
                bot_answers(old(self)@, self@, made as nat),
            decreases limit - made,
        {
            let ghost mid = self@;
            proof {
                if made == 0 {
                    assert(self@ == old(self)@);
                }
            }
            self.bot_move();
            made = made + 1;
            proof {
                assert(bot_answers(old(self)@, mid, (made - 1) as nat));
                assert(bot_to_move(mid) && bot_answer(mid, self@));
                assert(bot_answers(old(self)@, self@, made as nat));
            }
        }
        made
    }

    /// The side to move gives the game to the other side.
    fn resign(&mut self)
        ensures
            final(self)@ == lost_on_move(old(self)@),
    {
        self.board.winner = if self.current_player == Color::Black {
            Color::White
        } else {
            Color::Black
        };
    }

    /// The winner of the game; `Neither` while it is undecided.
    pub fn get_winner(&self) -> (winner: Color)
        ensures
            winner == self.board.winner,
    {
        self.board.winner
    }
}

/// Black has a move on the starting board.
proof fn lemma_black_can_open()
    ensures
        all_moves(starting_grid(), Color::Black).len() > 0,
{
    let g = starting_grid();
    let m: (Cell, Cell) = ((0, 3), (1, 3));
    assert(g[0][3] == Tile::Black);
    assert(g[1][3] == Tile::Empty);
    assert(legal_move(g, 0, 3, 1, 3)) by {
        assert forall|x: int, y: int| on_path(0, 3, 1, 3, x, y) implies (#[trigger] g[x][y]).spec_passable() by {
            assert(x == 1 && y == 3);
        }
    }
    assert(is_move_of(g, Color::Black, m));
    lemma_all_moves(g, Color::Black);
    assert(all_moves(g, Color::Black).contains(m));
}

} // verus!
