use hnefatafl::game::board::{Board, Color, Tile};
use hnefatafl::game::flood_fill::{flood_fill, Fill};

fn covered(board: &Board, kind: Fill, x: usize, y: usize) -> Vec<(usize, usize)> {
    let region = flood_fill(board, kind, x, y);
    let mut out = Vec::new();
    for i in 0..11 {
        for j in 0..11 {
            if region.contains(i, j) {
                out.push((i, j));
            }
        }
    }
    out
}

#[test]
fn group_follows_one_side() {
    let mut board = Board::new();
    board.set_tile(Tile::White, 2, 2);
    board.set_tile(Tile::White, 2, 3);
    board.set_tile(Tile::King, 3, 3);
    board.set_tile(Tile::White, 4, 4);
    board.set_tile(Tile::Black, 2, 4);
    assert_eq!(covered(&board, Fill::Group(Color::White), 2, 2), vec![(2, 2), (2, 3), (3, 3)]);
    assert_eq!(covered(&board, Fill::Group(Color::White), 4, 4), vec![(4, 4)]);
    assert_eq!(covered(&board, Fill::Group(Color::Black), 2, 4), vec![(2, 4)]);
    // the start is covered whatever stands on it
    assert_eq!(covered(&board, Fill::Group(Color::Black), 2, 2), vec![(2, 2)]);
}

#[test]
fn flood_from_off_the_board_covers_nothing() {
    let board = Board::new();
    assert_eq!(covered(&board, Fill::Shelter, 11, 0), vec![]);
    assert_eq!(covered(&board, Fill::Enclosure, 0, 11), vec![]);
    let region = flood_fill(&board, Fill::Shelter, 0, 0);
    assert!(!region.contains(11, 3));
    assert!(!region.contains(3, usize::MAX));
}

#[test]
fn shelter_stops_at_pieces() {
    let mut board = Board::new();
    board.set_tile(Tile::King, 0, 1);
    board.set_tile(Tile::White, 0, 2);
    board.set_tile(Tile::Black, 1, 1);
    board.set_tile(Tile::White, 1, 0);
    assert_eq!(covered(&board, Fill::Shelter, 0, 1), vec![(0, 0), (0, 1)]);
    assert_eq!(covered(&Board::new(), Fill::Shelter, 5, 5).len(), 121);
}

#[test]
fn enclosure_passes_pinched_attackers() {
    let mut board = Board::new();
    for (x, y) in [(3usize, 4usize), (3, 5), (3, 6), (4, 3), (5, 3), (6, 3), (7, 4), (7, 5), (7, 6), (4, 7), (5, 7), (6, 7)] {
        board.set_tile(Tile::Black, x, y);
    }
    board.set_tile(Tile::King, 5, 5);
    let inside = vec![(4, 4), (4, 5), (4, 6), (5, 4), (5, 5), (5, 6), (6, 4), (6, 5), (6, 6)];
    assert_eq!(covered(&board, Fill::Enclosure, 5, 5), inside);
    // an attacker between two flooded squares is flooded too
    board.set_tile(Tile::Black, 5, 4);
    assert_eq!(covered(&board, Fill::Enclosure, 5, 5), inside);
    // one with a flooded square on one side only is not
    board.set_tile(Tile::Black, 4, 4);
    board.set_tile(Tile::Black, 6, 4);
    let mut fewer = inside.clone();
    fewer.retain(|c| c.1 != 4);
    assert_eq!(covered(&board, Fill::Enclosure, 5, 5), fewer);
}
