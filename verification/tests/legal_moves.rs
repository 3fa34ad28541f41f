use hnefatafl::game::board::{Board, GameError, Tile};
use hnefatafl::game::legal_moves::{get_legal_moves, is_legal_move};

#[test]
fn test_indexing_err() {
    assert!(get_legal_moves(Board::new(), 11, 4).is_err());
    assert!(get_legal_moves(Board::new(), 4, 11).is_err());
    // Without piece
    assert!(get_legal_moves(Board::new(), 4, 4).is_err());
}

#[test]
fn test_legal_moves_empty_board() {
    let mut board: Board = Board::new();
    board.set_tile(Tile::King, 4, 4);

    let legal_moves = get_legal_moves(board, 4, 4).unwrap();

    assert_eq!(legal_moves.len(), 20);

    assert!(legal_moves.contains(&(0, 4)));
    assert!(legal_moves.contains(&(1, 4)));
    assert!(legal_moves.contains(&(2, 4)));
    assert!(legal_moves.contains(&(3, 4)));

    assert!(legal_moves.contains(&(5, 4)));
    assert!(legal_moves.contains(&(6, 4)));
    assert!(legal_moves.contains(&(7, 4)));
    assert!(legal_moves.contains(&(8, 4)));
    assert!(legal_moves.contains(&(9, 4)));
    assert!(legal_moves.contains(&(10, 4)));

    assert!(legal_moves.contains(&(4, 0)));
    assert!(legal_moves.contains(&(4, 1)));
    assert!(legal_moves.contains(&(4, 2)));
    assert!(legal_moves.contains(&(4, 3)));

    assert!(legal_moves.contains(&(4, 5)));
    assert!(legal_moves.contains(&(4, 6)));
    assert!(legal_moves.contains(&(4, 7)));
    assert!(legal_moves.contains(&(4, 8)));
    assert!(legal_moves.contains(&(4, 9)));
    assert!(legal_moves.contains(&(4, 10)));

    assert_eq!(legal_moves.contains(&(4, 4)), false);
    assert_eq!(legal_moves.contains(&(5, 5)), false);
    assert_eq!(legal_moves.contains(&(3, 3)), false);
    assert_eq!(legal_moves.contains(&(2, 2)), false);
}

#[test]
fn test_legal_moves_for_piece() {
    let mut board: Board = Board::new();
    board.set_tile(Tile::White, 4, 5);
    board.set_tile(Tile::Black, 3, 5);
    board.set_tile(Tile::Black, 4, 7);
    board.set_tile(Tile::Black, 7, 5);

    let legal_moves = get_legal_moves(board, 4, 5).unwrap();

    assert_eq!(legal_moves.len(), 7);

    assert!(legal_moves.contains(&(4, 0)));
    assert!(legal_moves.contains(&(4, 1)));
    assert!(legal_moves.contains(&(4, 2)));
    assert!(legal_moves.contains(&(4, 3)));
    assert!(legal_moves.contains(&(4, 4)));

    assert!(legal_moves.contains(&(4, 6)));

    assert!(legal_moves.contains(&(6, 5)));

    assert_eq!(legal_moves.contains(&(5, 5)), false);
}

#[test]
fn test_legal_moves_for_king() {
    let mut board: Board = Board::new();
    board.set_tile(Tile::King, 4, 5);
    board.set_tile(Tile::Black, 3, 5);
    board.set_tile(Tile::Black, 4, 7);
    board.set_tile(Tile::Black, 7, 5);

    let legal_moves = get_legal_moves(board, 4, 5).unwrap();

    assert_eq!(legal_moves.len(), 8);

    assert!(legal_moves.contains(&(4, 0)));
    assert!(legal_moves.contains(&(4, 1)));
    assert!(legal_moves.contains(&(4, 2)));
    assert!(legal_moves.contains(&(4, 3)));
    assert!(legal_moves.contains(&(4, 4)));

    assert!(legal_moves.contains(&(4, 6)));

    assert!(legal_moves.contains(&(6, 5)));

    assert!(legal_moves.contains(&(5, 5)));
}

#[test]
fn test_legal_move_wrong_index() {
    let mut board: Board = Board::new();
    board.set_tile(Tile::White, 4, 4);

    assert_eq!(is_legal_move(&board, 4, 4, 11, 12), false);
    assert_eq!(is_legal_move(&board, 12, 11, 4, 4), false);
    assert_eq!(is_legal_move(&board, 5, 5, 6, 6), false);
}

#[test]
fn test_legal_move_valid_index() {
    let mut board: Board = Board::new();
    board.set_tile(Tile::White, 4, 5);
    board.set_tile(Tile::Black, 7, 5);

    assert!(is_legal_move(&board, 4, 5, 6, 5));
    assert!(is_legal_move(&board, 4, 5, 0, 5));
    assert!(is_legal_move(&board, 4, 5, 4, 0));
    assert!(is_legal_move(&board, 4, 5, 4, 10));

    assert_eq!(is_legal_move(&board, 4, 5, 5, 5), false);
    assert_eq!(is_legal_move(&board, 4, 5, 7, 5), false);
    assert_eq!(is_legal_move(&board, 4, 5, 8, 5), false);
}

#[test]
fn legal_moves_errors_are_typed() {
    assert_eq!(get_legal_moves(Board::new(), 11, 4), Err(GameError::OutOfRange));
    assert_eq!(get_legal_moves(Board::new(), 4, 11), Err(GameError::OutOfRange));
    assert_eq!(get_legal_moves(Board::new(), 4, 4), Err(GameError::NoPieceAtSquare));
    assert_eq!(get_legal_moves(Board::new(), 0, 0), Err(GameError::NoPieceAtSquare));
    assert_eq!(get_legal_moves(Board::new(), 5, 5), Err(GameError::NoPieceAtSquare));
}

#[test]
fn legal_moves_come_heading_by_heading() {
    let mut board = Board::new();
    board.set_tile(Tile::White, 4, 5);
    board.set_tile(Tile::Black, 3, 5);
    board.set_tile(Tile::Black, 4, 7);
    board.set_tile(Tile::Black, 7, 5);
    let moves = get_legal_moves(board, 4, 5).unwrap();
    assert_eq!(moves, vec![(4, 6), (6, 5), (4, 4), (4, 3), (4, 2), (4, 1), (4, 0)]);
}

#[test]
fn ordinary_piece_slides_over_the_bare_throne() {
    let mut board = Board::new();
    board.set_tile(Tile::Black, 5, 3);
    let moves = get_legal_moves(board, 5, 3).unwrap();
    assert!(moves.contains(&(5, 4)));
    assert!(!moves.contains(&(5, 5)));
    assert!(moves.contains(&(5, 6)));
    assert!(moves.contains(&(5, 10)));
    assert!(is_legal_move(&board, 5, 3, 5, 8));
    assert!(!is_legal_move(&board, 5, 3, 5, 5));
}

#[test]
fn only_the_king_lands_on_a_corner() {
    let mut board = Board::new();
    board.set_tile(Tile::King, 0, 3);
    board.set_tile(Tile::White, 10, 3);
    assert!(is_legal_move(&board, 0, 3, 0, 0));
    assert!(is_legal_move(&board, 0, 3, 0, 10));
    assert!(!is_legal_move(&board, 10, 3, 10, 0));
    assert!(!is_legal_move(&board, 10, 3, 10, 10));
    assert!(is_legal_move(&board, 10, 3, 10, 1));
}

#[test]
fn a_move_of_no_length_is_illegal() {
    let mut board = Board::new();
    board.set_tile(Tile::King, 4, 4);
    board.set_tile(Tile::Black, 2, 2);
    assert!(!is_legal_move(&board, 4, 4, 4, 4));
    assert!(!is_legal_move(&board, 2, 2, 2, 2));
    assert!(!is_legal_move(&board, 2, 2, 3, 3));
}

#[test]
fn is_legal_move_agrees_with_the_enumeration() {
    let mut board = Board::new();
    board.set_tile(Tile::King, 5, 5);
    board.set_tile(Tile::White, 5, 7);
    board.set_tile(Tile::Black, 2, 5);
    board.set_tile(Tile::Black, 5, 1);
    for piece in [(5usize, 5usize), (5, 7), (2, 5), (5, 1)] {
        let moves = get_legal_moves(board, piece.0, piece.1).unwrap();
        for x in 0..11 {
            for y in 0..11 {
                assert_eq!(is_legal_move(&board, piece.0, piece.1, x, y), moves.contains(&(x, y)));
            }
        }
    }
}

#[test]
fn legal_moves_cross_free_squares_only() {
    let mut board = Board::new();
    board.set_tile(Tile::King, 5, 5);
    board.set_tile(Tile::White, 5, 7);
    board.set_tile(Tile::White, 0, 4);
    board.set_tile(Tile::Black, 2, 5);
    board.set_tile(Tile::Black, 5, 1);
    board.set_tile(Tile::Black, 10, 4);
    for xf in 0..11usize {
        for yf in 0..11usize {
            for xt in 0..11usize {
                for yt in 0..11usize {
                    if !is_legal_move(&board, xf, yf, xt, yt) {
                        continue;
                    }
                    assert!(xf == xt || yf == yt);
                    for x in xf.min(xt)..=xf.max(xt) {
                        for y in yf.min(yt)..=yf.max(yt) {
                            if (x, y) == (xf, yf) {
                                continue;
                            }
                            let tile = board.get_tile(x, y).unwrap();
                            assert!(tile == Tile::Empty || tile == Tile::Throne || tile == Tile::Corner);
                            if (x, y) != (xt, yt) {
                                assert!(tile != Tile::Corner);
                            }
                        }
                    }
                }
            }
        }
    }
}
