use hnefatafl::game::board::{
    Board, CanStandOn, Captures, CapturesKing, Color, GameError, HasColor, Passable, Tile,
};

#[test]
fn test_board_string_conversion() {
    let mut board: Board = Board::new();
    board.set_tile(Tile::King, 5, 5);

    board.set_tile(Tile::Black, 4, 4);
    board.set_tile(Tile::Black, 5, 4);
    board.set_tile(Tile::Black, 6, 4);
    board.set_tile(Tile::Black, 7, 4);
    board.set_tile(Tile::Black, 8, 4);
    board.set_tile(Tile::Black, 9, 4);

    board.set_tile(Tile::White, 4, 6);
    board.set_tile(Tile::White, 5, 6);
    board.set_tile(Tile::White, 6, 6);
    board.set_tile(Tile::White, 7, 6);
    board.set_tile(Tile::White, 8, 6);
    board.set_tile(Tile::White, 9, 6);

    let string_conversion = board.to_string().unwrap();
    let new_board = Board::from_string(string_conversion).unwrap();

    assert_eq!(board.to_string().unwrap(), new_board.to_string().unwrap());

    assert_eq!(new_board.get_tile(5, 5).unwrap(), Tile::King);

    assert_eq!(new_board.get_tile(4, 4).unwrap(), Tile::Black);
    assert_eq!(new_board.get_tile(5, 4).unwrap(), Tile::Black);
    assert_eq!(new_board.get_tile(6, 4).unwrap(), Tile::Black);
    assert_eq!(new_board.get_tile(7, 4).unwrap(), Tile::Black);
    assert_eq!(new_board.get_tile(8, 4).unwrap(), Tile::Black);
    assert_eq!(new_board.get_tile(9, 4).unwrap(), Tile::Black);

    assert_eq!(new_board.get_tile(4, 6).unwrap(), Tile::White);
    assert_eq!(new_board.get_tile(5, 6).unwrap(), Tile::White);
    assert_eq!(new_board.get_tile(6, 6).unwrap(), Tile::White);
    assert_eq!(new_board.get_tile(7, 6).unwrap(), Tile::White);
    assert_eq!(new_board.get_tile(8, 6).unwrap(), Tile::White);
    assert_eq!(new_board.get_tile(9, 6).unwrap(), Tile::White);
}

#[test]
fn new_board_is_bare() {
    let board = Board::new();
    assert_eq!(board.winner, Color::Neither);
    for x in 0..11 {
        for y in 0..11 {
            let want = if (x == 0 || x == 10) && (y == 0 || y == 10) {
                Tile::Corner
            } else if x == 5 && y == 5 {
                Tile::Throne
            } else {
                Tile::Empty
            };
            assert_eq!(board.get_tile(x, y), Ok(want));
        }
    }
}

#[test]
fn get_tile_checks_the_range() {
    let board = Board::new();
    assert_eq!(board.get_tile(11, 0), Err(GameError::OutOfRange));
    assert_eq!(board.get_tile(0, 11), Err(GameError::OutOfRange));
    assert_eq!(board.get_tile(11, 11), Err(GameError::OutOfRange));
    assert_eq!(board.get_tile(usize::MAX, 3), Err(GameError::OutOfRange));
    assert_eq!(board.get_tile(10, 10), Ok(Tile::Corner));
}

#[test]
fn set_tile_changes_one_square() {
    let mut board = Board::new();
    let before = board;
    board.set_tile(Tile::White, 3, 7);
    for x in 0..11 {
        for y in 0..11 {
            if (x, y) == (3, 7) {
                assert_eq!(board.get_tile(x, y), Ok(Tile::White));
            } else {
                assert_eq!(board.get_tile(x, y), before.get_tile(x, y));
            }
        }
    }
    // the copy taken before is untouched
    assert_eq!(before.get_tile(3, 7), Ok(Tile::Empty));
}

#[test]
fn clear_tile_shows_the_ground() {
    let mut board = Board::new();
    board.set_tile(Tile::King, 5, 5);
    board.set_tile(Tile::King, 0, 0);
    board.set_tile(Tile::Black, 2, 2);
    board.clear_tile(5, 5);
    board.clear_tile(0, 0);
    board.clear_tile(2, 2);
    assert_eq!(board.get_tile(5, 5), Ok(Tile::Throne));
    assert_eq!(board.get_tile(0, 0), Ok(Tile::Corner));
    assert_eq!(board.get_tile(2, 2), Ok(Tile::Empty));
}

#[test]
fn find_king_takes_the_first_in_reading_order() {
    let mut board = Board::new();
    assert_eq!(board.find_king(), None);
    board.set_tile(Tile::King, 7, 2);
    assert_eq!(board.find_king(), Some((7, 2)));
    board.set_tile(Tile::King, 3, 9);
    assert_eq!(board.find_king(), Some((3, 9)));
    board.set_tile(Tile::King, 3, 1);
    assert_eq!(board.find_king(), Some((3, 1)));
}

#[test]
fn tile_predicates() {
    let all = [Tile::Empty, Tile::Corner, Tile::Black, Tile::White, Tile::King, Tile::Throne];
    let colors = [Color::Neither, Color::Neither, Color::Black, Color::White, Color::White, Color::Neither];
    let passable = [true, true, false, false, false, true];
    let standable = [true, false, false, false, false, false];
    let takes_king = [false, false, true, false, false, true];
    let takes_white = [false, true, true, false, false, true];
    let takes_black = [false, true, false, true, true, true];
    let takes_nobody = [false, true, false, false, false, true];
    for i in 0..6 {
        assert_eq!(all[i].color(), colors[i]);
        assert_eq!(all[i].passable(), passable[i]);
        assert_eq!(all[i].can_stand_on(), standable[i]);
        assert_eq!(all[i].captures_king(), takes_king[i]);
        assert_eq!(all[i].captures(Color::White), takes_white[i]);
        assert_eq!(all[i].captures(Color::Black), takes_black[i]);
        assert_eq!(all[i].captures(Color::Neither), takes_nobody[i]);
    }
}

#[test]
fn notation_of_the_bare_board() {
    let board = Board::new();
    assert_eq!(board.to_string().unwrap(), "B/B/B/B/B/B/B/B/B/B/B/");
}

#[test]
fn notation_counts_runs() {
    let mut board = Board::new();
    board.set_tile(Tile::Black, 0, 1);
    board.set_tile(Tile::White, 0, 2);
    board.set_tile(Tile::King, 0, 10);
    board.set_tile(Tile::Black, 1, 0);
    board.set_tile(Tile::Black, 2, 10);
    board.set_tile(Tile::White, 5, 5);
    for y in 0..11 {
        board.set_tile(Tile::Black, 10, y);
    }
    assert_eq!(board.to_string().unwrap(), "1bw7k/bA/Ab/B/B/5w5/B/B/B/B/bbbbbbbbbbb/");
}

#[test]
fn notation_reads_what_a_text_says() {
    let board = Board::from_string("1bw7k/bA/Ab/B/B/5w5/B/B/B/B/bbbbbbbbbbb/".to_string()).unwrap();
    assert_eq!(board.get_tile(0, 0), Ok(Tile::Corner));
    assert_eq!(board.get_tile(0, 1), Ok(Tile::Black));
    assert_eq!(board.get_tile(0, 2), Ok(Tile::White));
    assert_eq!(board.get_tile(0, 3), Ok(Tile::Empty));
    assert_eq!(board.get_tile(0, 10), Ok(Tile::King));
    assert_eq!(board.get_tile(1, 0), Ok(Tile::Black));
    assert_eq!(board.get_tile(2, 10), Ok(Tile::Black));
    assert_eq!(board.get_tile(5, 5), Ok(Tile::White));
    assert_eq!(board.get_tile(10, 0), Ok(Tile::Black));
    assert_eq!(board.get_tile(10, 10), Ok(Tile::Black));
    assert_eq!(board.winner, Color::Neither);
    // a short text leaves the rest bare
    let board = Board::from_string("3k".to_string()).unwrap();
    assert_eq!(board.get_tile(0, 3), Ok(Tile::King));
    assert_eq!(board.get_tile(5, 5), Ok(Tile::Throne));
    let board = Board::from_string(String::new()).unwrap();
    assert_eq!(board.to_string().unwrap(), "B/B/B/B/B/B/B/B/B/B/B/");
}

#[test]
fn notation_rejects_malformed_text() {
    // a character that stands for nothing
    assert_eq!(Board::from_string("B/B/x".to_string()).err(), Some(GameError::BadNotation));
    assert_eq!(Board::from_string("0".to_string()).err(), Some(GameError::BadNotation));
    assert_eq!(Board::from_string("C".to_string()).err(), Some(GameError::BadNotation));
    assert_eq!(Board::from_string("B/é".to_string()).err(), Some(GameError::BadNotation));
    // a piece past the end of a row
    assert_eq!(Board::from_string("bbbbbbbbbbbb".to_string()).err(), Some(GameError::BadNotation));
    assert_eq!(Board::from_string("Bk".to_string()).err(), Some(GameError::BadNotation));
    assert_eq!(Board::from_string("BBBBBBBBBBBBBBBBBBBBBBBBBBBBBBw".to_string()).err(), Some(GameError::BadNotation));
    // a piece below the last row
    assert_eq!(Board::from_string("///////////k".to_string()).err(), Some(GameError::BadNotation));
    assert_eq!(Board::from_string("////////////////////////b".to_string()).err(), Some(GameError::BadNotation));
    // a run may overshoot as long as no piece follows it
    assert!(Board::from_string("BBB/k".to_string()).is_ok());
    assert!(Board::from_string("//////////AAAk".to_string()).is_err());
    assert!(Board::from_string("//////////Ak".to_string()).is_ok());
}

#[test]
fn notation_round_trip_on_boards_in_play() {
    let mut board = Board::new();
    board.set_tile(Tile::King, 0, 0);
    board.set_tile(Tile::Black, 0, 1);
    board.set_tile(Tile::White, 10, 9);
    board.set_tile(Tile::Black, 4, 4);
    board.set_tile(Tile::White, 4, 5);
    board.set_tile(Tile::Black, 4, 6);
    board.set_tile(Tile::Black, 5, 10);
    let back = Board::from_string(board.to_string().unwrap()).unwrap();
    for x in 0..11 {
        for y in 0..11 {
            assert_eq!(back.get_tile(x, y), board.get_tile(x, y));
        }
    }
}

#[test]
fn picture_shows_every_square() {
    let mut board = Board::new();
    board.set_tile(Tile::Black, 0, 3);
    board.set_tile(Tile::White, 4, 4);
    board.set_tile(Tile::King, 10, 9);
    let picture = board.picture();
    let lines: Vec<&str> = picture.split('\n').collect();
    assert_eq!(lines.len(), 12);
    assert_eq!(lines[0], "X..B......X");
    assert_eq!(lines[1], "...........");
    assert_eq!(lines[4], "....W......");
    assert_eq!(lines[5], ".....X.....");
    assert_eq!(lines[10], "X........KX");
    assert_eq!(lines[11], "");
}

#[test]
fn errors_have_messages() {
    assert_eq!(GameError::OutOfRange.message(), "Indexes must be between 0 and 10");
    assert_eq!(GameError::NoPieceAtSquare.message(), "No piece at coordinates");
    assert_eq!(GameError::IllegalMove.message(), "Illegal move!");
    assert_eq!(GameError::WrongTurn.message(), "Not the current player!");
    assert_eq!(GameError::NoLegalMoves.message(), "No legal moves");
    assert_eq!(GameError::BadNotation.message(), "Wrong format");
}
