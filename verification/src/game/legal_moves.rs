use super::board::{in_range, is_corner, Board, CanStandOn, Cell, GameError, Grid, Passable, Tile};
use vstd::prelude::*;

verus! {

/// One of the four ways a piece can slide.
#[derive(Clone, Copy, PartialEq, Eq, Debug, Structural)]
pub enum Heading {
    /// Along the row, towards higher columns.
    ColumnUp,
    /// Along the column, towards higher rows.
    RowUp,
    /// Along the row, towards lower columns.
    ColumnDown,
    /// Along the column, towards lower rows.
    RowDown,
}

impl Heading {
    /// The square `k` steps from `c` in this heading.
    pub open spec fn shift(self, c: Cell, k: int) -> Cell {
        match self {
            Heading::ColumnUp => (c.0, c.1 + k),
            Heading::RowUp => (c.0 + k, c.1),
            Heading::ColumnDown => (c.0, c.1 - k),
            Heading::RowDown => (c.0 - k, c.1),
        }
    }

    /// The next square in this heading, if the board has one.
    pub fn next(self, x: usize, y: usize) -> (r: Option<(usize, usize)>)
        requires
            in_range(x as int, y as int),
        ensures
            match r {
                Some(p) => (p.0 as int, p.1 as int) == self.shift((x as int, y as int), 1) && in_range(
                    p.0 as int,
                    p.1 as int,
                ),
                None => !in_range(
                    self.shift((x as int, y as int), 1).0,
                    self.shift((x as int, y as int), 1).1,
                ),
            },
    {
        match self {
            Heading::ColumnUp => if y < 10 {
                Some((x, y + 1))
            } else {
                None
            },
            Heading::RowUp => if x < 10 {
                Some((x + 1, y))
            } else {
                None
            },
            Heading::ColumnDown => if y > 0 {
                Some((x, y - 1))
            } else {
                None
            },
            Heading::RowDown => if x > 0 {
                Some((x - 1, y))
            } else {
                None
            },
        }
    }
}

/// The squares of a list of coordinates.
pub open spec fn cells(v: Seq<(usize, usize)>) -> Seq<Cell> {
    Seq::new(v.len(), |i: int| (v[i].0 as int, v[i].1 as int))
}

/// The squares strictly after (xf, yf) up to and including (xt, yt) on the
/// straight line between them.
pub open spec fn on_path(xf: int, yf: int, xt: int, yt: int, x: int, y: int) -> bool {
    &&& (xf <= x <= xt || xt <= x <= xf)
    &&& (yf <= y <= yt || yt <= y <= yf)
    &&& !(x == xf && y == yf)
}

/// The rule of movement: a piece slides along its row or its column, over
/// passable squares only, and ends on a square it may stand on; the King may
/// end on any passable square.
pub open spec fn legal_move(g: Grid, xf: int, yf: int, xt: int, yt: int) -> bool {
    &&& in_range(xf, yf)
    &&& in_range(xt, yt)
    &&& g[xf][yf].is_piece()
    &&& g[xt][yt].spec_can_stand_on() || g[xf][yf] == Tile::King
    &&& (xf == xt && yf != yt) || (xf != xt && yf == yt)
    &&& forall|x: int, y: int| on_path(xf, yf, xt, yt, x, y) ==> (#[trigger] g[x][y]).spec_passable()
}

/// The squares a piece reaches from `c` in one heading within `n` steps, in
/// the order it passes them: the slide ends at the rim or before the first
/// square that is not passable; a square it may not stand on is passed over.
/// `free` says that the piece is the King, who may stand wherever he passes.
pub open spec fn ray(g: Grid, free: bool, c: Cell, h: Heading, n: nat) -> Seq<Cell>
    decreases n,
{
    let d = h.shift(c, 1);
    if n == 0 || !in_range(d.0, d.1) || !g[d.0][d.1].spec_passable() {
        Seq::empty()
    } else if free || g[d.0][d.1].spec_can_stand_on() {
        seq![d] + ray(g, free, d, h, (n - 1) as nat)
    } else {
        ray(g, free, d, h, (n - 1) as nat)
    }
}

/// Every square the piece at `c` may move to, heading by heading.
pub open spec fn destinations(g: Grid, c: Cell) -> Seq<Cell> {
    let free = g[c.0][c.1] == Tile::King;
    ray(g, free, c, Heading::ColumnUp, 10) + ray(g, free, c, Heading::RowUp, 10) + ray(
        g,
        free,
        c,
        Heading::ColumnDown,
        10,
    ) + ray(g, free, c, Heading::RowDown, 10)
}

/// The square `j` steps from `c` in heading `h` lies on the board and is
/// passable.
pub open spec fn open_at(g: Grid, c: Cell, h: Heading, j: int) -> bool {
    let d = h.shift(c, j);
    in_range(d.0, d.1) && g[d.0][d.1].spec_passable()
}

/// The first `k` squares from `c` in heading `h` lie on the board and are
/// passable.
pub open spec fn clear_run(g: Grid, c: Cell, h: Heading, k: int) -> bool {
    forall|j: int| 1 <= j <= k ==> #[trigger] open_at(g, c, h, j)
}

/// A piece at `c` may slide `k` steps in heading `h` and stop there.
pub open spec fn reaches(g: Grid, free: bool, c: Cell, h: Heading, k: int) -> bool {
    let d = h.shift(c, k);
    k >= 1 && clear_run(g, c, h, k) && (free || g[d.0][d.1].spec_can_stand_on())
}

/// A concatenation holds what either part holds.
proof fn lemma_concat_contains<A>(a: Seq<A>, b: Seq<A>, x: A)
    ensures
        (a + b).contains(x) <==> a.contains(x) || b.contains(x),
{
    if a.contains(x) {
        let i = choose|i: int| 0 <= i < a.len() && a[i] == x;
        assert((a + b)[i] == x);
    }
    if b.contains(x) {
        let i = choose|i: int| 0 <= i < b.len() && b[i] == x;
        assert((a + b)[a.len() + i] == x);
    }
    if (a + b).contains(x) {
        let i = choose|i: int| 0 <= i < (a + b).len() && (a + b)[i] == x;
        if i < a.len() {
            assert(a[i] == x);
        } else {
            assert(b[i - a.len()] == x);
        }
    }
}

/// A ray holds exactly the squares that the piece may slide to in that
/// heading.
pub proof fn lemma_ray_contains(g: Grid, free: bool, c: Cell, h: Heading, n: nat, d: Cell)
    ensures
        ray(g, free, c, h, n).contains(d) <==> exists|k: int|
            1 <= k <= n && d == h.shift(c, k) && #[trigger] reaches(g, free, c, h, k),
    decreases n,
{
    let c1 = h.shift(c, 1);
    let r = ray(g, free, c, h, n);
    if n == 0 || !in_range(c1.0, c1.1) || !g[c1.0][c1.1].spec_passable() {
        assert(r =~= Seq::<Cell>::empty());
        assert forall|k: int| 1 <= k <= n && d == h.shift(c, k) implies !#[trigger] reaches(g, free, c, h, k) by {
            if reaches(g, free, c, h, k) {
                assert(open_at(g, c, h, 1));
            }
        }
    } else {
        let rest = ray(g, free, c1, h, (n - 1) as nat);
        lemma_ray_contains(g, free, c1, h, (n - 1) as nat, d);
        assert forall|j: int| open_at(g, c1, h, j) == open_at(g, c, h, j + 1) by {
            assert(h.shift(c1, j) == h.shift(c, j + 1));
        }
        assert(open_at(g, c, h, 1));
        let stands = free || g[c1.0][c1.1].spec_can_stand_on();
        if stands {
            lemma_concat_contains(seq![c1], rest, d);
            assert(seq![c1].contains(d) <==> d == c1) by {
                if d == c1 {
                    assert(seq![c1][0] == d);
                }
            }
        }
        if r.contains(d) {
            if stands && d == c1 {
                assert(clear_run(g, c, h, 1));
                assert(reaches(g, free, c, h, 1));
            } else {
                assert(rest.contains(d));
                let k = choose|k: int| 1 <= k <= n - 1 && d == h.shift(c1, k) && #[trigger] reaches(g, free, c1, h, k);
                assert(h.shift(c1, k) == h.shift(c, k + 1));
                assert forall|j: int| 1 <= j <= k + 1 implies #[trigger] open_at(g, c, h, j) by {
                    if j > 1 {
                        assert(open_at(g, c1, h, j - 1));
                    }
                }
                assert(reaches(g, free, c, h, k + 1));
            }
        }
        if exists|k: int| 1 <= k <= n && d == h.shift(c, k) && #[trigger] reaches(g, free, c, h, k) {
            let k = choose|k: int| 1 <= k <= n && d == h.shift(c, k) && #[trigger] reaches(g, free, c, h, k);
            if k == 1 {
                assert(d == c1);
                assert(stands);
                assert(r.contains(d));
            } else {
                assert(h.shift(c1, k - 1) == h.shift(c, k));
                assert forall|j: int| 1 <= j <= k - 1 implies #[trigger] open_at(g, c1, h, j) by {
                    assert(open_at(g, c, h, j + 1));
                }
                assert(reaches(g, free, c1, h, k - 1));
                assert(rest.contains(d));
                assert(r.contains(d));
            }
        }
    }
}

/// A ray lists no square twice.
pub proof fn lemma_ray_distinct(g: Grid, free: bool, c: Cell, h: Heading, n: nat)
    ensures
        ray(g, free, c, h, n).no_duplicates(),
    decreases n,
{
    let c1 = h.shift(c, 1);
    if n == 0 || !in_range(c1.0, c1.1) || !g[c1.0][c1.1].spec_passable() {
    } else {
        let rest = ray(g, free, c1, h, (n - 1) as nat);
        lemma_ray_distinct(g, free, c1, h, (n - 1) as nat);
        if free || g[c1.0][c1.1].spec_can_stand_on() {
            lemma_ray_contains(g, free, c1, h, (n - 1) as nat, c1);
            assert(!rest.contains(c1)) by {
                assert forall|k: int| 1 <= k implies h.shift(c1, k) != c1 by {}
            }
            assert forall|i: int, j: int| 0 <= i < 1 && 0 <= j < rest.len() implies seq![c1][i] != rest[j] by {
                assert(rest.contains(rest[j]));
            }
            vstd::seq_lib::lemma_no_dup_in_concat(seq![c1], rest);
        }
    }
}

/// Between a piece and a square `k` steps away in heading `h`, the rule of
/// movement asks exactly for a free slide of `k` steps.
pub proof fn lemma_legal_move_is_slide(g: Grid, c: Cell, h: Heading, k: int)
    requires
        in_range(c.0, c.1),
        k >= 1,
    ensures
        legal_move(g, c.0, c.1, h.shift(c, k).0, h.shift(c, k).1) <==> g[c.0][c.1].is_piece() && reaches(
            g,
            g[c.0][c.1] == Tile::King,
            c,
            h,
            k,
        ),
{
    let d = h.shift(c, k);
    let free = g[c.0][c.1] == Tile::King;
    if legal_move(g, c.0, c.1, d.0, d.1) {
        assert forall|j: int| 1 <= j <= k implies #[trigger] open_at(g, c, h, j) by {
            let e = h.shift(c, j);
            assert(on_path(c.0, c.1, d.0, d.1, e.0, e.1));
            assert(g[e.0][e.1].spec_passable());
        }
    }
    if g[c.0][c.1].is_piece() && reaches(g, free, c, h, k) {
        assert(open_at(g, c, h, k));
        assert forall|x: int, y: int| on_path(c.0, c.1, d.0, d.1, x, y) implies (#[trigger] g[x][y]).spec_passable() by {
            let j = match h {
                Heading::ColumnUp => y - c.1,
                Heading::RowUp => x - c.0,
                Heading::ColumnDown => c.1 - y,
                Heading::RowDown => c.0 - x,
            };
            assert(h.shift(c, j) == (x, y));
            assert(open_at(g, c, h, j));
        }
    }
}

/// The destinations of a piece are the squares it may legally move to, each
/// listed once.
pub proof fn lemma_destinations_are_legal_moves(g: Grid, c: Cell)
    requires
        in_range(c.0, c.1),
        g[c.0][c.1].is_piece(),
    ensures
        destinations(g, c).no_duplicates(),
        forall|d: Cell| #[trigger] destinations(g, c).contains(d) <==> legal_move(g, c.0, c.1, d.0, d.1),
{
    let free = g[c.0][c.1] == Tile::King;
    let a = ray(g, free, c, Heading::ColumnUp, 10);
    let b = ray(g, free, c, Heading::RowUp, 10);
    let e = ray(g, free, c, Heading::ColumnDown, 10);
    let f = ray(g, free, c, Heading::RowDown, 10);
    lemma_ray_distinct(g, free, c, Heading::ColumnUp, 10);
    lemma_ray_distinct(g, free, c, Heading::RowUp, 10);
    lemma_ray_distinct(g, free, c, Heading::ColumnDown, 10);
    lemma_ray_distinct(g, free, c, Heading::RowDown, 10);
    assert forall|d: Cell| #[trigger] destinations(g, c).contains(d) <==> legal_move(g, c.0, c.1, d.0, d.1) by {
        lemma_member_of_rays(g, c, d);
    }
    assert forall|i: int, j: int| 0 <= i < a.len() && 0 <= j < b.len() implies a[i] != b[j] by {
        lemma_ray_heading(g, free, c, Heading::ColumnUp, a[i]);
        lemma_ray_heading(g, free, c, Heading::RowUp, b[j]);
    }
    vstd::seq_lib::lemma_no_dup_in_concat(a, b);
    assert forall|i: int, j: int| 0 <= i < (a + b).len() && 0 <= j < e.len() implies (a + b)[i] != e[j] by {
        lemma_concat_contains(a, b, (a + b)[i]);
        lemma_ray_heading(g, free, c, Heading::ColumnUp, (a + b)[i]);
        lemma_ray_heading(g, free, c, Heading::RowUp, (a + b)[i]);
        lemma_ray_heading(g, free, c, Heading::ColumnDown, e[j]);
    }
    vstd::seq_lib::lemma_no_dup_in_concat(a + b, e);
    assert forall|i: int, j: int| 0 <= i < (a + b + e).len() && 0 <= j < f.len() implies (a + b + e)[i]
        != f[j] by {
        let x = (a + b + e)[i];
        lemma_concat_contains(a + b, e, x);
        lemma_concat_contains(a, b, x);
        lemma_ray_heading(g, free, c, Heading::ColumnUp, x);
        lemma_ray_heading(g, free, c, Heading::RowUp, x);
        lemma_ray_heading(g, free, c, Heading::ColumnDown, x);
        lemma_ray_heading(g, free, c, Heading::RowDown, f[j]);
    }
    vstd::seq_lib::lemma_no_dup_in_concat(a + b + e, f);
}

/// A square of a ray lies at least one step from the start, in the ray's
/// heading.
proof fn lemma_ray_heading(g: Grid, free: bool, c: Cell, h: Heading, d: Cell)
    ensures
        ray(g, free, c, h, 10).contains(d) ==> exists|k: int| 1 <= k <= 10 && d == #[trigger] h.shift(c, k),
{
    lemma_ray_contains(g, free, c, h, 10, d);
    if ray(g, free, c, h, 10).contains(d) {
        let k = choose|k: int| 1 <= k <= 10 && d == h.shift(c, k) && #[trigger] reaches(g, free, c, h, k);
        assert(d == h.shift(c, k));
    }
}

/// A square is among the destinations of a piece exactly when the piece may
/// legally move there.
proof fn lemma_member_of_rays(g: Grid, c: Cell, d: Cell)
    requires
        in_range(c.0, c.1),
        g[c.0][c.1].is_piece(),
    ensures
        destinations(g, c).contains(d) <==> legal_move(g, c.0, c.1, d.0, d.1),
{
    let free = g[c.0][c.1] == Tile::King;
    let a = ray(g, free, c, Heading::ColumnUp, 10);
    let b = ray(g, free, c, Heading::RowUp, 10);
    let e = ray(g, free, c, Heading::ColumnDown, 10);
    let f = ray(g, free, c, Heading::RowDown, 10);
    lemma_concat_contains(a + b + e, f, d);
    lemma_concat_contains(a + b, e, d);
    lemma_concat_contains(a, b, d);
    lemma_ray_contains(g, free, c, Heading::ColumnUp, 10, d);
    lemma_ray_contains(g, free, c, Heading::RowUp, 10, d);
    lemma_ray_contains(g, free, c, Heading::ColumnDown, 10, d);
    lemma_ray_contains(g, free, c, Heading::RowDown, 10, d);
    if destinations(g, c).contains(d) {
        let h = if a.contains(d) {
            Heading::ColumnUp
        } else if b.contains(d) {
            Heading::RowUp
        } else if e.contains(d) {
            Heading::ColumnDown
        } else {
            Heading::RowDown
        };
        let k = choose|k: int| 1 <= k <= 10 && d == h.shift(c, k) && #[trigger] reaches(g, free, c, h, k);
        lemma_legal_move_is_slide(g, c, h, k);
    }
    if legal_move(g, c.0, c.1, d.0, d.1) {
        let h = if d.1 > c.1 {
            Heading::ColumnUp
        } else if d.0 > c.0 {
            Heading::RowUp
        } else if d.1 < c.1 {
            Heading::ColumnDown
        } else {
            Heading::RowDown
        };
        let k = match h {
            Heading::ColumnUp => d.1 - c.1,
            Heading::RowUp => d.0 - c.0,
            Heading::ColumnDown => c.1 - d.1,
            Heading::RowDown => c.0 - d.0,
        };
        assert(d == h.shift(c, k));
        lemma_legal_move_is_slide(g, c, h, k);
        assert(reaches(g, free, c, h, k));
    }
}

/// A legal move crosses free squares only: every square on its way,
/// the last one too, is passable and holds no piece, and no square before
/// the last is a corner.
pub proof fn lemma_legal_move_crosses_free_squares(g: Grid, xf: int, yf: int, xt: int, yt: int, x: int, y: int)
    requires
        legal_move(g, xf, yf, xt, yt),
        on_path(xf, yf, xt, yt, x, y),
    ensures
        in_range(x, y),
        g[x][y].spec_passable(),
        !g[x][y].is_piece(),
        !(x == xt && y == yt) ==> !is_corner(x, y),
{
    assert(g[x][y].spec_passable());
}

/// A list of coordinates and the list of its squares hold the same squares,
/// and one repeats a square only if the other does.
pub proof fn lemma_cells_faithful(v: Seq<(usize, usize)>)
    ensures
        cells(v).no_duplicates() <==> v.no_duplicates(),
        forall|p: (usize, usize)| #[trigger] v.contains(p) <==> cells(v).contains((p.0 as int, p.1 as int)),
{
    let s = cells(v);
    if s.no_duplicates() {
        assert forall|i: int, j: int| 0 <= i < v.len() && 0 <= j < v.len() && i != j implies v[i] != v[j] by {
            assert(s[i] != s[j]);
        }
    }
    if v.no_duplicates() {
        assert forall|i: int, j: int| 0 <= i < s.len() && 0 <= j < s.len() && i != j implies s[i] != s[j] by {
            assert(v[i] != v[j]);
        }
    }
    assert forall|p: (usize, usize)| #[trigger] v.contains(p) <==> s.contains((p.0 as int, p.1 as int)) by {
        if v.contains(p) {
            let i = choose|i: int| 0 <= i < v.len() && v[i] == p;
            assert(s[i] == (p.0 as int, p.1 as int));
        }
        if s.contains((p.0 as int, p.1 as int)) {
            let i = choose|i: int| 0 <= i < s.len() && s[i] == (p.0 as int, p.1 as int);
            assert(v[i] == p);
        }
    }
}

/// Appends to `moves` what the piece at (x, y) reaches in one heading.
fn slide(board: &Board, free: bool, x: usize, y: usize, h: Heading, moves: &mut Vec<(usize, usize)>)
    requires
        in_range(x as int, y as int),
    ensures
        cells(final(moves)@) == cells(old(moves)@) + ray(board.grid(), free, (x as int, y as int), h, 10),
{
    let ghost g = board.grid();
    let ghost goal = cells(moves@) + ray(g, free, (x as int, y as int), h, 10);
    let mut cx = x;
    let mut cy = y;
    let mut n: usize = 10;
    while n > 0
        invariant
            g == board.grid(),
            in_range(cx as int, cy as int),
            n <= 10,
            cells(moves@) + ray(g, free, (cx as int, cy as int), h, n as nat) == goal,
        ensures
            cells(moves@) == goal,
        decreases n,
    {
        let ghost before = moves@;
        match h.next(cx, cy) {
            None => {
                assert(cells(moves@) + Seq::<Cell>::empty() =~= cells(moves@));
                break ;
            },
            Some(p) => {
                let tile = board.board[p.0][p.1];
                if !tile.passable() {
                    assert(cells(moves@) + Seq::<Cell>::empty() =~= cells(moves@));
                    break ;
                }
                let ghost rest = ray(g, free, (p.0 as int, p.1 as int), h, (n - 1) as nat);
                if free || tile.can_stand_on() {
                    moves.push(p);
                    assert(cells(moves@) + rest =~= cells(before) + (seq![(p.0 as int, p.1 as int)] + rest));
                }
                cx = p.0;
                cy = p.1;
                n = n - 1;
            },
        }
    }
    proof {
        if n == 0 {
            assert(cells(moves@) + Seq::<Cell>::empty() =~= cells(moves@));
        }
    }
}

/// Whether the piece at (x_from, y_from) may move to (x_to, y_to). A
/// coordinate off the board, a start without a piece, a move of no length or
/// off the straight line, a blocked path and an end that the piece may not
/// stand on all give `false`.
pub fn is_legal_move(board: &Board, x_from: usize, y_from: usize, x_to: usize, y_to: usize) -> (b: bool)
    ensures
        b == legal_move(board.grid(), x_from as int, y_from as int, x_to as int, y_to as int),
{
    if x_from > 10 || y_from > 10 || x_to > 10 || y_to > 10 {
        return false;
    }
    let from = board.board[x_from][y_from];
    let to = board.board[x_to][y_to];
    if from == Tile::Empty || from == Tile::Throne || from == Tile::Corner {
        return false;
    }
    if !to.can_stand_on() && from != Tile::King {
        return false;
    }
    if (x_from != x_to) == (y_from != y_to) {
        return false;
    }
    let (h, dist) = if y_to > y_from {
        (Heading::ColumnUp, y_to - y_from)
    } else if x_to > x_from {
        (Heading::RowUp, x_to - x_from)
    } else if y_to < y_from {
        (Heading::ColumnDown, y_from - y_to)
    } else {
        (Heading::RowDown, x_from - x_to)
    };
    let ghost g = board.grid();
    let ghost c: Cell = (x_from as int, y_from as int);
    proof {
        lemma_legal_move_is_slide(g, c, h, dist as int);
    }
    let mut cx = x_from;
    let mut cy = y_from;
    let mut k: usize = 0;
    while k < dist
        invariant
            g == board.grid(),
            c == (x_from as int, y_from as int),
            k <= dist <= 10,
            legal_move(g, x_from as int, y_from as int, x_to as int, y_to as int) ==> clear_run(
                g,
                c,
                h,
                dist as int,
            ),
            in_range(cx as int, cy as int),
            (cx as int, cy as int) == h.shift(c, k as int),
            clear_run(g, c, h, k as int),
        decreases dist - k,
    {
        match h.next(cx, cy) {
            None => {
                assert(h.shift(c, k + 1) == h.shift((cx as int, cy as int), 1));
                assert(!open_at(g, c, h, k + 1));
                return false;
            },
            Some(p) => {
                assert(h.shift(c, k + 1) == h.shift((cx as int, cy as int), 1));
                if !board.board[p.0][p.1].passable() {
                    assert(!open_at(g, c, h, k + 1));
                    return false;
                }
                assert(open_at(g, c, h, k + 1));
                cx = p.0;
                cy = p.1;
                k = k + 1;
            },
        }
    }
    true
}

/// Every square that the piece at (x, y) may move to.
///
/// Fails with `OutOfRange` when a coordinate exceeds 10, and with
/// `NoPieceAtSquare` when the square holds no piece. Otherwise the result
/// lists the destinations heading by heading, nearest first.
pub fn get_legal_moves(board: Board, x: usize, y: usize) -> (r: Result<Vec<(usize, usize)>, GameError>)
    ensures
        !in_range(x as int, y as int) ==> r == Err::<Vec<(usize, usize)>, GameError>(GameError::OutOfRange),
        in_range(x as int, y as int) && !board.grid()[x as int][y as int].is_piece() ==> r == Err::<
            Vec<(usize, usize)>,
            GameError,
        >(GameError::NoPieceAtSquare),
        in_range(x as int, y as int) && board.grid()[x as int][y as int].is_piece() ==> r is Ok && cells(
            r->Ok_0@,
        ) == destinations(board.grid(), (x as int, y as int)),
        r is Ok ==> r->Ok_0@.no_duplicates(),
        r is Ok ==> forall|xt: usize, yt: usize| #[trigger]
            r->Ok_0@.contains((xt, yt)) <==> legal_move(
                board.grid(),
                x as int,
                y as int,
                xt as int,
                yt as int,
            ),
{
    let piece_to_move = match board.get_tile(x, y) {
        Ok(tile) => tile,
        Err(e) => {
            return Err(e);
        },
    };
    match piece_to_move {
        Tile::Black | Tile::White | Tile::King => {
            let free = piece_to_move == Tile::King;
            let mut valid_moves: Vec<(usize, usize)> = Vec::new();
            assert(cells(valid_moves@) =~= Seq::<Cell>::empty());
            slide(&board, free, x, y, Heading::ColumnUp, &mut valid_moves);
            slide(&board, free, x, y, Heading::RowUp, &mut valid_moves);
            slide(&board, free, x, y, Heading::ColumnDown, &mut valid_moves);
            slide(&board, free, x, y, Heading::RowDown, &mut valid_moves);
            assert(cells(valid_moves@) =~= destinations(board.grid(), (x as int, y as int)));
            proof {
                lemma_destinations_are_legal_moves(board.grid(), (x as int, y as int));
                lemma_cells_faithful(valid_moves@);
            }
            Ok(valid_moves)
        },
        Tile::Empty | Tile::Corner | Tile::Throne => Err(GameError::NoPieceAtSquare),
    }
}

} // verus!
