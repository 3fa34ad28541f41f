use hnefatafl::game::after_move_eval::move_and_resolve;
use hnefatafl::game::ai::{
    evaluate, get_all_child_boards, get_all_moves, get_random_move, minimax, minimax_alpha_beta, minimax_best_move,
    BLACK_WINS, WHITE_WINS,
};
use hnefatafl::game::board::{Board, Color, GameError, Tile};
use hnefatafl::game::legal_moves::is_legal_move;

fn skirmish() -> Board {
    let mut board = Board::new();
    board.set_tile(Tile::King, 4, 4);
    board.set_tile(Tile::White, 4, 6);
    board.set_tile(Tile::White, 6, 4);
    board.set_tile(Tile::Black, 2, 4);
    board.set_tile(Tile::Black, 4, 2);
    board.set_tile(Tile::Black, 8, 8);
    board
}

/// The search without pruning, written against the public pieces.
fn plain_minimax(state: &Board, depth: i32, max_player: bool) -> i64 {
    if depth <= 0 || state.winner != Color::Neither {
        return evaluate(state);
    }
    let side = if max_player { Color::White } else { Color::Black };
    let mut best = if max_player { BLACK_WINS } else { WHITE_WINS };
    for child in get_all_child_boards(state, side) {
        let v = plain_minimax(&child, depth - 1, !max_player);
        best = if max_player { best.max(v) } else { best.min(v) };
    }
    best
}

#[test]
fn evaluate_bare_board_is_level() {
    assert_eq!(evaluate(&Board::new()), 0);
}

#[test]
fn evaluate_decided_games() {
    let mut board = skirmish();
    board.winner = Color::White;
    assert_eq!(evaluate(&board), WHITE_WINS);
    assert_eq!(evaluate(&board), 1_000_000_000_000);
    board.winner = Color::Black;
    assert_eq!(evaluate(&board), BLACK_WINS);
    assert_eq!(evaluate(&board), -1_000_000_000_000);
}

#[test]
fn evaluate_counts_material_and_position() {
    let mut board = Board::new();
    board.set_tile(Tile::White, 1, 1);
    // two points of material at 20, five of position at 15
    assert_eq!(evaluate(&board), 40 + 75);
    board.set_tile(Tile::Black, 1, 3);
    // one point of material and three of position against
    assert_eq!(evaluate(&board), 115 - 20 - 45);
    board.set_tile(Tile::Black, 5, 8);
    assert_eq!(evaluate(&board), 50 - 20);
    board.set_tile(Tile::White, 5, 7);
    assert_eq!(evaluate(&board), 30 + 40);
}

#[test]
fn evaluate_counts_the_kings_freedom_and_neighbours() {
    let mut board = Board::new();
    board.set_tile(Tile::King, 4, 4);
    // four empty neighbours at 2 points, weight 16; twenty squares to go to, weight 20
    assert_eq!(evaluate(&board), 8 * 16 + 20 * 20);
    board.set_tile(Tile::Black, 3, 4);
    // the neighbour turns from +2 to -1; four squares are lost; the piece costs 20
    assert_eq!(evaluate(&board), (6 - 1) * 16 + 16 * 20 - 20);
    let mut board = Board::new();
    board.set_tile(Tile::King, 0, 1);
    // square worth 4; neighbours: corner 4, empty 2, empty 2; freedom 1 + 9 + 10
    assert_eq!(evaluate(&board), 4 * 15 + 8 * 16 + 20 * 20);
    let mut board = Board::new();
    board.set_tile(Tile::King, 5, 4);
    // square worth 0; neighbours: throne 3 and three empty
    assert_eq!(evaluate(&board), 9 * 16 + 20 * 20);
    let mut board = Board::new();
    board.set_tile(Tile::King, 10, 10);
    assert_eq!(evaluate(&board), 1_000_000 * 15 + 4 * 16 + 20 * 20);
}

#[test]
fn all_moves_are_legal_and_complete() {
    let board = skirmish();
    for side in [Color::White, Color::Black] {
        let moves = get_all_moves(&board, side);
        let mut count = 0;
        for xf in 0..11 {
            for yf in 0..11 {
                for xt in 0..11 {
                    for yt in 0..11 {
                        let piece = board.get_tile(xf, yf).unwrap();
                        let own = match piece {
                            Tile::Black => side == Color::Black,
                            Tile::White | Tile::King => side == Color::White,
                            _ => false,
                        };
                        let legal = own && is_legal_move(&board, xf, yf, xt, yt);
                        assert_eq!(moves.contains(&[(xf, yf), (xt, yt)]), legal);
                        if legal {
                            count += 1;
                        }
                    }
                }
            }
        }
        assert_eq!(moves.len(), count);
    }
    assert_eq!(get_all_moves(&board, Color::Neither), Vec::<[(usize, usize); 2]>::new());
}

#[test]
fn child_boards_follow_the_moves() {
    let board = skirmish();
    let moves = get_all_moves(&board, Color::Black);
    let children = get_all_child_boards(&board, Color::Black);
    assert_eq!(moves.len(), children.len());
    for (m, child) in moves.iter().zip(children.iter()) {
        let want = move_and_resolve(&board, m[0], m[1]);
        for x in 0..11 {
            for y in 0..11 {
                assert_eq!(child.get_tile(x, y), want.get_tile(x, y));
            }
        }
        assert_eq!(child.winner, want.winner);
        assert_eq!(child.get_tile(m[0].0, m[0].1), Ok(Tile::Empty));
        assert_eq!(child.get_tile(m[1].0, m[1].1), Ok(Tile::Black));
    }
}

#[test]
fn random_move_is_one_of_the_legal_moves() {
    let board = skirmish();
    for side in [Color::White, Color::Black] {
        let moves = get_all_moves(&board, side);
        for _ in 0..50 {
            let m = get_random_move(board, side).unwrap();
            assert!(moves.contains(&m));
            assert!(is_legal_move(&board, m[0].0, m[0].1, m[1].0, m[1].1));
        }
    }
}

#[test]
fn random_move_hits_more_than_one_move() {
    let board = skirmish();
    let first = get_random_move(board, Color::White).unwrap();
    let mut other = false;
    for _ in 0..200 {
        if get_random_move(board, Color::White).unwrap() != first {
            other = true;
        }
    }
    assert!(other);
}

#[test]
fn random_move_fails_without_moves() {
    assert_eq!(get_random_move(Board::new(), Color::White), Err(GameError::NoLegalMoves));
    assert_eq!(get_random_move(skirmish(), Color::Neither), Err(GameError::NoLegalMoves));
    let mut board = Board::new();
    board.set_tile(Tile::White, 0, 1);
    board.set_tile(Tile::Black, 0, 2);
    board.set_tile(Tile::Black, 1, 1);
    assert_eq!(get_random_move(board, Color::White), Err(GameError::NoLegalMoves));
    assert!(get_random_move(board, Color::Black).is_ok());
}

#[test]
fn pruning_does_not_change_the_value() {
    let board = skirmish();
    for depth in 0..3 {
        for max_player in [true, false] {
            assert_eq!(minimax(&board, depth, max_player), plain_minimax(&board, depth, max_player));
            assert_eq!(
                minimax_alpha_beta(&board, depth, BLACK_WINS, WHITE_WINS, max_player),
                plain_minimax(&board, depth, max_player)
            );
        }
    }
    assert_eq!(minimax(&board, -3, true), evaluate(&board));
}

#[test]
fn narrow_window_bounds_the_value() {
    let board = skirmish();
    let value = plain_minimax(&board, 2, true);
    let r = minimax_alpha_beta(&board, 2, value + 10, value + 20, true);
    assert!(r <= value + 10);
    assert!(value <= r);
    let r = minimax_alpha_beta(&board, 2, value - 20, value - 10, true);
    assert!(r >= value - 10);
    assert!(value >= r);
    let r = minimax_alpha_beta(&board, 2, value - 1, value + 1, true);
    assert_eq!(r, value);
}

#[test]
fn best_move_is_the_first_of_the_best() {
    let board = skirmish();
    for depth in 0..2 {
        for side in [Color::White, Color::Black] {
            let moves = get_all_moves(&board, side);
            let values: Vec<i64> = moves
                .iter()
                .map(|m| plain_minimax(&move_and_resolve(&board, m[0], m[1]), depth, side == Color::White))
                .collect();
            let best = if side == Color::White { *values.iter().max().unwrap() } else { *values.iter().min().unwrap() };
            let first = values.iter().position(|v| *v == best).unwrap();
            assert_eq!(minimax_best_move(&board, side, depth), moves[first]);
        }
    }
}

#[test]
fn best_move_takes_the_corner() {
    let mut board = Board::new();
    board.set_tile(Tile::King, 3, 0);
    board.set_tile(Tile::Black, 8, 8);
    // the corner at the end of the column comes first among the King's destinations
    assert_eq!(minimax_best_move(&board, Color::White, 0), [(3, 0), (10, 0)]);
    let m = minimax_best_move(&board, Color::White, 1);
    assert_eq!(minimax(&move_and_resolve(&board, m[0], m[1]), 1, true), WHITE_WINS);
}

#[test]
fn best_move_without_moves() {
    assert_eq!(minimax_best_move(&Board::new(), Color::White, 1), [(0, 0), (0, 0)]);
    assert_eq!(minimax_best_move(&skirmish(), Color::Neither, 1), [(0, 0), (0, 0)]);
}

#[test]
fn side_without_moves_loses_the_search() {
    let mut board = Board::new();
    board.set_tile(Tile::White, 0, 1);
    board.set_tile(Tile::Black, 0, 2);
    board.set_tile(Tile::Black, 1, 1);
    assert_eq!(minimax(&board, 1, true), BLACK_WINS);
    assert_eq!(minimax(&Board::new(), 1, false), WHITE_WINS);
}
