use crate::game::board::{in_range, Board, Captures, CapturesKing, Color, Grid, HasColor, Tile};
use vstd::prelude::*;

verus! {

/// The King on (x, y) is hemmed in: he stands off the rim, and each of his
/// four neighbours is a Black piece or the throne.
pub open spec fn king_hemmed(g: Grid, x: int, y: int) -> bool {
    &&& 0 < x < 10
    &&& 0 < y < 10
    &&& g[x - 1][y].spec_captures_king()
    &&& g[x][y + 1].spec_captures_king()
    &&& g[x + 1][y].spec_captures_king()
    &&& g[x][y - 1].spec_captures_king()
}

/// The piece on (x, y) takes its neighbour at offset (dx, dy).
///
/// The neighbour and the square behind it, at twice the offset, lie on the
/// board, and the neighbour is a piece. An ordinary piece falls when both
/// the piece on (x, y) and the tile behind it are hostile to its side. The
/// King falls only when he is hemmed in on all four sides.
pub open spec fn captured_in_dir(g: Grid, x: int, y: int, dx: int, dy: int) -> bool {
    let cx = x + dx;
    let cy = y + dy;
    let ax = x + 2 * dx;
    let ay = y + 2 * dy;
    &&& in_range(x, y)
    &&& in_range(cx, cy)
    &&& in_range(ax, ay)
    &&& g[cx][cy].spec_color() != Color::Neither
    &&& if g[cx][cy] == Tile::King {
        king_hemmed(g, cx, cy)
    } else {
        g[x][y].spec_captures(g[cx][cy].spec_color()) && g[ax][ay].spec_captures(g[cx][cy].spec_color())
    }
}

/// Whether the piece on (x, y) takes its neighbour at the given offset.
pub fn captures_in_dir(board: Board, x: usize, y: usize, x_offset: isize, y_offset: isize) -> (b: bool)
    ensures
        b == captured_in_dir(board.grid(), x as int, y as int, x_offset as int, y_offset as int),
{
    if x > 10 || y > 10 {
        return false;
    }
    if x_offset < -10 || x_offset > 10 || y_offset < -10 || y_offset > 10 {
        return false;
    }
    let cx = x as isize + x_offset;
    let cy = y as isize + y_offset;
    let ax = cx + x_offset;
    let ay = cy + y_offset;
    if cx < 0 || cx > 10 || cy < 0 || cy > 10 || ax < 0 || ax > 10 || ay < 0 || ay > 10 {
        return false;
    }
    let captured_x = cx as usize;
    let captured_y = cy as usize;
    let capturing_piece = board.board[x][y];
    let captured_piece = board.board[captured_x][captured_y];
    let assisting_piece = board.board[ax as usize][ay as usize];
    if captured_piece.color() == Color::Neither {
        return false;
    }
    if captured_piece != Tile::King {
        return capturing_piece.captures(captured_piece.color()) && assisting_piece.captures(
            captured_piece.color(),
        );
    }
    if captured_x == 0 || captured_x >= 10 || captured_y == 0 || captured_y >= 10 {
        return false;
    }
    board.board[captured_x - 1][captured_y].captures_king() && board.board[captured_x][captured_y
        + 1].captures_king() && board.board[captured_x + 1][captured_y].captures_king()
        && board.board[captured_x][captured_y - 1].captures_king()
}

} // verus!
