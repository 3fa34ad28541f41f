use hnefatafl::game::after_move_eval::{after_move_eval, move_and_resolve};
use hnefatafl::game::ai::{get_all_moves, minimax_best_move};
use hnefatafl::game::board::{Board, Color, GameError, Tile};
use hnefatafl::game::Game;

#[test]
fn test_game_string_conversion() {
    let game = Game::new(false, true, 1);

    let string_conversion = game.to_string().unwrap();

    let new_game = Game::from_string(string_conversion, 1).unwrap();

    assert_eq!(game.get_winner(), new_game.get_winner());
    assert_eq!(game.current_player, new_game.current_player);
    assert_eq!(game.bot_black, new_game.bot_black);
    assert_eq!(game.bot_white, new_game.bot_white);

    for i in 0..=10 {
        for j in 0..=10 {
            assert!(game.board.get_tile(i, j).is_ok());
            assert!(new_game.board.get_tile(i, j).is_ok());
            assert_eq!(game.board.get_tile(i, j).unwrap(), new_game.board.get_tile(i, j).unwrap());
        }
    }
}

const BLACK_COORDS: [(usize, usize); 24] = [
    (0, 3),
    (0, 4),
    (0, 5),
    (0, 6),
    (0, 7),
    (1, 5),
    (3, 0),
    (3, 10),
    (4, 0),
    (4, 10),
    (5, 0),
    (5, 1),
    (5, 10),
    (5, 9),
    (6, 0),
    (6, 10),
    (7, 0),
    (7, 10),
    (9, 5),
    (10, 3),
    (10, 4),
    (10, 5),
    (10, 6),
    (10, 7),
];
const WHITE_COORDS: [(usize, usize); 12] =
    [(3, 5), (4, 4), (4, 5), (4, 6), (5, 3), (5, 4), (5, 6), (5, 7), (6, 4), (6, 5), (6, 6), (7, 5)];

fn starting_formation() -> Board {
    let mut board = Board::new();
    for c in BLACK_COORDS.iter() {
        board.set_tile(Tile::Black, c.0, c.1);
    }
    for c in WHITE_COORDS.iter() {
        board.set_tile(Tile::White, c.0, c.1);
    }
    board.set_tile(Tile::King, 5, 5);
    board
}

fn same_tiles(a: &Board, b: &Board) -> bool {
    (0..11).all(|x| (0..11).all(|y| a.get_tile(x, y) == b.get_tile(x, y)))
}

#[test]
fn new_game_starts_from_the_formation() {
    let game = Game::new(false, false, 1);
    assert!(same_tiles(&game.board, &starting_formation()));
    assert_eq!(game.current_player, Color::Black);
    assert_eq!(game.get_winner(), Color::Neither);
    assert!(!game.bot_white);
    assert!(!game.bot_black);
    assert_eq!(game.bot_difficulty, 1);
    assert_eq!(
        game.to_string().unwrap(),
        "3bbbbb3/5b5/B/b4w4b/b3www3b/bb1wwkww1bb/b3www3b/b4w4b/B/5b5/3bbbbb3//ppb"
    );
    let game = Game::new(true, false, 2);
    assert!(same_tiles(&game.board, &starting_formation()));
    assert_eq!(game.current_player, Color::Black);
    assert!(game.bot_white);
    assert_eq!(game.bot_difficulty, 2);
}

#[test]
fn black_bot_opens_with_a_legal_move() {
    let legal = get_all_moves(&starting_formation(), Color::Black);
    for _ in 0..20 {
        let game = Game::new(false, true, 1);
        assert_eq!(game.current_player, Color::White);
        assert_eq!(game.get_winner(), Color::Neither);
        let found = legal.iter().any(|m| {
            let mut board = starting_formation();
            board.set_tile(Tile::Empty, m[0].0, m[0].1);
            board.set_tile(Tile::Black, m[1].0, m[1].1);
            same_tiles(&board, &game.board)
        });
        assert!(found);
    }
}

#[test]
fn game_notation_reads_flags_and_side() {
    let game = Game::from_string("3k/1b//wpb".to_string(), 2);
    assert!(game.is_err());
    let game = Game::from_string("3k/1b//pbw".to_string(), 2).unwrap();
    assert!(!game.bot_white);
    assert!(game.bot_black);
    assert_eq!(game.current_player, Color::White);
    assert_eq!(game.bot_difficulty, 2);
    assert_eq!(game.get_winner(), Color::Neither);
    assert_eq!(game.board.get_tile(0, 3), Ok(Tile::King));
    assert_eq!(game.board.get_tile(1, 1), Ok(Tile::Black));
    let game = Game::from_string("/bpb".to_string(), 1).unwrap();
    assert!(game.bot_white);
    assert!(!game.bot_black);
    assert_eq!(game.current_player, Color::Black);
}

#[test]
fn game_notation_rejects_malformed_text() {
    for text in ["", "ppb", "/pp", "B/Bppb", "B/B//ppx", "B/B//pxb", "B/B//xpb", "B/B//wwb", "x//ppb", "Bk//ppb"] {
        assert_eq!(Game::from_string(text.to_string(), 1).err(), Some(GameError::BadNotation));
    }
    // the last row of the board may go without its own `/`
    assert!(Game::from_string("B/B/ppb".to_string(), 1).is_ok());
}

#[test]
fn make_move_plays_one_move() {
    let mut game = Game::new(false, false, 1);
    assert_eq!(game.make_move(0, 3, 1, 3), Ok(()));
    assert_eq!(game.current_player, Color::White);
    assert_eq!(game.board.get_tile(0, 3), Ok(Tile::Empty));
    assert_eq!(game.board.get_tile(1, 3), Ok(Tile::Black));
    assert_eq!(game.make_move(3, 5, 3, 1), Ok(()));
    assert_eq!(game.current_player, Color::Black);
    assert_eq!(game.board.get_tile(3, 5), Ok(Tile::Empty));
    assert_eq!(game.board.get_tile(3, 1), Ok(Tile::White));
}

#[test]
fn make_move_rejects_bad_moves() {
    let mut game = Game::new(false, false, 1);
    let before = game.board;
    // not along a line
    assert_eq!(game.make_move(0, 3, 1, 4), Err(GameError::IllegalMove));
    // through a piece
    assert_eq!(game.make_move(0, 5, 2, 5), Err(GameError::IllegalMove));
    // from an empty square, off the board
    assert_eq!(game.make_move(2, 2, 2, 3), Err(GameError::IllegalMove));
    assert_eq!(game.make_move(0, 3, 0, 11), Err(GameError::IllegalMove));
    assert_eq!(game.make_move(11, 3, 0, 3), Err(GameError::IllegalMove));
    // White's piece on Black's turn
    assert_eq!(game.make_move(3, 5, 3, 1), Err(GameError::WrongTurn));
    assert!(same_tiles(&before, &game.board));
    assert_eq!(game.current_player, Color::Black);
}

#[test]
fn make_move_resolves_captures_and_wins() {
    let mut board = Board::new();
    board.set_tile(Tile::King, 0, 3);
    board.set_tile(Tile::Black, 8, 8);
    let mut game = Game { board, current_player: Color::White, bot_white: false, bot_black: false, bot_difficulty: 1 };
    assert_eq!(game.make_move(0, 3, 0, 0), Ok(()));
    assert_eq!(game.get_winner(), Color::White);
    assert_eq!(game.board.get_tile(0, 0), Ok(Tile::King));
    // a decided game stays as it is
    let decided = game.board;
    assert_eq!(game.make_move(8, 8, 8, 7), Ok(()));
    assert!(same_tiles(&decided, &game.board));
    assert_eq!(game.make_move(3, 3, 9, 9), Ok(()));
    assert!(same_tiles(&decided, &game.board));

    let mut board = Board::new();
    board.set_tile(Tile::White, 3, 3);
    board.set_tile(Tile::Black, 3, 4);
    board.set_tile(Tile::Black, 6, 2);
    board.set_tile(Tile::King, 8, 8);
    let mut game = Game { board, current_player: Color::Black, bot_white: false, bot_black: false, bot_difficulty: 1 };
    assert_eq!(game.make_move(6, 2, 3, 2), Ok(()));
    assert_eq!(game.board.get_tile(3, 3), Ok(Tile::Empty));
    assert_eq!(game.board.get_tile(3, 2), Ok(Tile::Black));
    assert_eq!(game.board.get_tile(6, 2), Ok(Tile::Empty));
    assert_eq!(game.get_winner(), Color::Neither);
}

#[test]
fn king_leaves_the_throne_behind() {
    let mut board = Board::new();
    board.set_tile(Tile::King, 5, 5);
    let mut game = Game { board, current_player: Color::White, bot_white: false, bot_black: false, bot_difficulty: 1 };
    assert_eq!(game.make_move(5, 5, 5, 8), Ok(()));
    assert_eq!(game.board.get_tile(5, 5), Ok(Tile::Throne));
    assert_eq!(game.board.get_tile(5, 8), Ok(Tile::King));
}

fn reachable_by_one_move(before: &Board, side: Color, after: &Board) -> bool {
    get_all_moves(before, side).iter().any(|m| {
        let mut board = *before;
        let piece = board.get_tile(m[0].0, m[0].1).unwrap();
        board.clear_tile(m[0].0, m[0].1);
        board.set_tile(piece, m[1].0, m[1].1);
        let board = after_move_eval(board, m[1].0, m[1].1);
        same_tiles(&board, after)
    })
}

#[test]
fn bot_answers_the_players_move() {
    for difficulty in [1u8, 2u8] {
        let mut game = Game::new(true, false, difficulty);
        assert!(!game.bot_to_move());
        assert!(!game.bot_move());
        let mut after_player = game.board;
        after_player.set_tile(Tile::Empty, 0, 3);
        after_player.set_tile(Tile::Black, 1, 3);
        assert_eq!(game.make_move(0, 3, 1, 3), Ok(()));
        assert_eq!(game.current_player, Color::Black);
        assert!(!game.bot_to_move());
        assert!(!game.bot_move());
        assert!(reachable_by_one_move(&after_player, Color::White, &game.board));
    }
}

#[test]
fn strongest_bot_plays_the_best_move() {
    let mut board = Board::new();
    board.set_tile(Tile::King, 3, 0);
    board.set_tile(Tile::Black, 8, 8);
    let mut game = Game { board, current_player: Color::Black, bot_white: true, bot_black: false, bot_difficulty: 2 };
    assert_eq!(game.make_move(8, 8, 8, 7), Ok(()));
    let mut after_player = board;
    after_player.set_tile(Tile::Empty, 8, 8);
    after_player.set_tile(Tile::Black, 8, 7);
    let best = minimax_best_move(&after_player, Color::White, 1);
    let want = move_and_resolve(&after_player, best[0], best[1]);
    assert!(same_tiles(&want, &game.board));
    assert_eq!(game.get_winner(), want.winner);
    assert_eq!(game.current_player, Color::Black);
}

#[test]
fn bots_on_both_sides_take_turns() {
    let mut game = Game::new(true, true, 1);
    assert_eq!(game.current_player, Color::White);
    let mut turns = 0;
    while game.bot_to_move() && turns < 6 {
        let before = game.board;
        let side = game.current_player;
        let moved = game.bot_move();
        if moved {
            assert!(reachable_by_one_move(&before, side, &game.board));
            assert!(game.current_player != side);
        } else {
            assert!(game.get_winner() != Color::Neither);
        }
        turns += 1;
    }
    assert!(turns > 0);
}

#[test]
fn player_move_that_ends_the_game_gets_no_answer() {
    let mut board = Board::new();
    board.set_tile(Tile::King, 0, 3);
    board.set_tile(Tile::Black, 8, 8);
    let mut game = Game { board, current_player: Color::White, bot_white: false, bot_black: true, bot_difficulty: 2 };
    assert_eq!(game.make_move(0, 3, 0, 0), Ok(()));
    assert_eq!(game.get_winner(), Color::White);
    assert_eq!(game.board.get_tile(8, 8), Ok(Tile::Black));
    assert_eq!(game.current_player, Color::Black);
}

#[test]
fn bot_without_a_move_has_lost() {
    for difficulty in [1u8, 2u8] {
        let mut board = Board::new();
        // a lone White piece boxed in by its own King and the rim
        board.set_tile(Tile::White, 0, 1);
        board.set_tile(Tile::Black, 0, 2);
        board.set_tile(Tile::Black, 1, 1);
        let mut game = Game { board, current_player: Color::White, bot_white: true, bot_black: false, bot_difficulty: difficulty };
        assert!(game.bot_to_move());
        assert!(!game.bot_move());
        assert_eq!(game.get_winner(), Color::Black);
        assert_eq!(game.current_player, Color::White);
        assert!(same_tiles(&board, &game.board));
    }
}

#[test]
fn bot_moves_stops_at_the_limit() {
    let mut game = Game::new(true, true, 1);
    let before = game.board;
    assert_eq!(game.bot_moves(0), 0);
    assert!(same_tiles(&before, &game.board));
    assert_eq!(game.current_player, Color::White);
    let made = game.bot_moves(1);
    assert_eq!(made, 1);
    assert!(reachable_by_one_move(&before, Color::White, &game.board));
    assert_eq!(game.current_player, Color::Black);
    let made = game.bot_moves(3);
    assert!(made <= 3);
    if made < 3 {
        assert!(!game.bot_to_move());
    }
}

#[test]
fn bot_moves_stops_when_a_player_is_to_move() {
    let mut game = Game::new(true, false, 2);
    assert_eq!(game.bot_moves(10), 0);
    let mut board = Board::new();
    board.set_tile(Tile::King, 3, 0);
    board.set_tile(Tile::Black, 8, 8);
    let mut game = Game { board, current_player: Color::White, bot_white: true, bot_black: false, bot_difficulty: 2 };
    assert_eq!(game.bot_moves(10), 1);
    assert_eq!(game.current_player, Color::Black);
    assert!(!game.bot_to_move());
    let best = minimax_best_move(&board, Color::White, 1);
    assert!(same_tiles(&move_and_resolve(&board, best[0], best[1]), &game.board));
}

#[test]
fn bot_moves_counts_the_turn_on_which_a_bot_loses() {
    let mut board = Board::new();
    board.set_tile(Tile::White, 0, 1);
    board.set_tile(Tile::Black, 0, 2);
    board.set_tile(Tile::Black, 1, 1);
    let mut game = Game { board, current_player: Color::White, bot_white: true, bot_black: true, bot_difficulty: 1 };
    assert_eq!(game.bot_moves(5), 1);
    assert_eq!(game.get_winner(), Color::Black);
    assert!(same_tiles(&board, &game.board));
    assert!(!game.bot_to_move());
}
