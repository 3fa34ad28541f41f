use super::board::{in_range, Board, Cell, Color, Grid, HasColor, Tile};
use std::collections::VecDeque;
use vstd::prelude::*;
use vstd::set_lib::{lemma_int_range, lemma_len_subset, set_int_range};

verus! {

/// What a flood passes through.
#[derive(Clone, Copy)]
pub enum Fill {
    /// The squares held by one side.
    Group(Color),
    /// Every square that holds neither a Black nor a White piece: bare
    /// ground and the King.
    Shelter,
    /// Every square that Black does not hold, and each Black piece wedged
    /// between two flooded squares that face each other across it.
    Enclosure,
}

/// Some flooded square lies next to `c`.
pub open spec fn near(v: Set<Cell>, c: Cell) -> bool {
    v.contains((c.0 - 1, c.1)) || v.contains((c.0 + 1, c.1)) || v.contains((c.0, c.1 - 1))
        || v.contains((c.0, c.1 + 1))
}

/// Two flooded squares face each other across `c`, in its row or its column.
pub open spec fn pinched(v: Set<Cell>, c: Cell) -> bool {
    (v.contains((c.0 - 1, c.1)) && v.contains((c.0 + 1, c.1))) || (v.contains((c.0, c.1 - 1))
        && v.contains((c.0, c.1 + 1)))
}

/// The flood may enter square `c`, given what it has covered so far.
pub open spec fn admits(g: Grid, kind: Fill, v: Set<Cell>, c: Cell) -> bool {
    match kind {
        Fill::Group(color) => g[c.0][c.1].spec_color() == color,
        Fill::Shelter => g[c.0][c.1] != Tile::Black && g[c.0][c.1] != Tile::White,
        Fill::Enclosure => g[c.0][c.1].spec_color() != Color::Black || pinched(v, c),
    }
}

/// One round of flooding: what was covered, and every square of the board
/// next to it that the flood may enter.
pub open spec fn grow(g: Grid, kind: Fill, v: Set<Cell>) -> Set<Cell> {
    Set::new(|c: Cell| v.contains(c) || (in_range(c.0, c.1) && near(v, c) && admits(g, kind, v, c)))
}

/// What the flood covers after `n` rounds from `start`.
pub open spec fn flood(g: Grid, kind: Fill, start: Cell, n: nat) -> Set<Cell>
    decreases n,
{
    if n == 0 {
        set![start]
    } else {
        grow(g, kind, flood(g, kind, start, (n - 1) as nat))
    }
}

/// Every square that the flood from `start` reaches in some number of rounds.
pub open spec fn region(g: Grid, kind: Fill, start: Cell) -> Set<Cell> {
    Set::new(|c: Cell| exists|n: nat| flood(g, kind, start, n).contains(c))
}

/// A later round covers what an earlier round covered.
pub proof fn lemma_flood_grows(g: Grid, kind: Fill, start: Cell, n: nat, m: nat)
    requires
        n <= m,
    ensures
        flood(g, kind, start, n).subset_of(flood(g, kind, start, m)),
    decreases m,
{
    if n < m {
        lemma_flood_grows(g, kind, start, n, (m - 1) as nat);
    }
}

/// The flood never leaves the board.
pub proof fn lemma_flood_in_range(g: Grid, kind: Fill, start: Cell, n: nat)
    requires
        in_range(start.0, start.1),
    ensures
        forall|c: Cell| flood(g, kind, start, n).contains(c) ==> in_range(c.0, c.1),
    decreases n,
{
    if n > 0 {
        lemma_flood_in_range(g, kind, start, (n - 1) as nat);
        let f = flood(g, kind, start, (n - 1) as nat);
        assert forall|c: Cell| flood(g, kind, start, n).contains(c) implies in_range(c.0, c.1) by {
            assert(grow(g, kind, f).contains(c));
        }
    }
}

/// A region from a square of the board lies on the board and holds its
/// start.
pub proof fn lemma_region_in_range(g: Grid, kind: Fill, start: Cell)
    requires
        in_range(start.0, start.1),
    ensures
        region(g, kind, start).contains(start),
        forall|c: Cell| #[trigger] region(g, kind, start).contains(c) ==> in_range(c.0, c.1),
{
    assert(flood(g, kind, start, 0).contains(start));
    assert forall|c: Cell| #[trigger] region(g, kind, start).contains(c) implies in_range(c.0, c.1) by {
        let n = choose|n: nat| flood(g, kind, start, n).contains(c);
        lemma_flood_in_range(g, kind, start, n);
    }
}

/// A flood through the pieces of one side covers, beside its start, only
/// squares that this side holds.
pub proof fn lemma_group_is_one_side(g: Grid, side: Color, start: Cell, c: Cell)
    requires
        region(g, Fill::Group(side), start).contains(c),
        c != start,
    ensures
        g[c.0][c.1].spec_color() == side,
{
    let n = choose|n: nat| flood(g, Fill::Group(side), start, n).contains(c);
    lemma_flood_is_one_side(g, side, start, n, c);
}

/// After any number of rounds, a flood through the pieces of one side
/// covers, beside its start, only squares that this side holds.
proof fn lemma_flood_is_one_side(g: Grid, side: Color, start: Cell, n: nat, c: Cell)
    requires
        flood(g, Fill::Group(side), start, n).contains(c),
        c != start,
    ensures
        g[c.0][c.1].spec_color() == side,
    decreases n,
{
    if n > 0 {
        let f = flood(g, Fill::Group(side), start, (n - 1) as nat);
        assert(grow(g, Fill::Group(side), f).contains(c));
        if f.contains(c) {
            lemma_flood_is_one_side(g, side, start, (n - 1) as nat, c);
        }
    }
}

/// A set that holds `start` and that one more round of flooding does not
/// enlarge holds every round of the flood.
proof fn lemma_closed_holds_flood(g: Grid, kind: Fill, start: Cell, v: Set<Cell>, n: nat)
    requires
        v.contains(start),
        forall|c: Cell| in_range(c.0, c.1) && near(v, c) && admits(g, kind, v, c) ==> v.contains(c),
    ensures
        flood(g, kind, start, n).subset_of(v),
    decreases n,
{
    if n > 0 {
        lemma_closed_holds_flood(g, kind, start, v, (n - 1) as nat);
        let f = flood(g, kind, start, (n - 1) as nat);
        assert forall|c: Cell| grow(g, kind, f).contains(c) implies v.contains(c) by {
            if !f.contains(c) {
                assert(near(v, c));
                assert(admits(g, kind, v, c));
            }
        }
    }
}

/// The round by which the flood has covered `c`, if it ever does.
spec fn round_of(g: Grid, kind: Fill, start: Cell, c: Cell) -> nat {
    if region(g, kind, start).contains(c) {
        choose|n: nat| flood(g, kind, start, n).contains(c)
    } else {
        0
    }
}

spec fn max_nat(a: nat, b: nat) -> nat {
    if a >= b {
        a
    } else {
        b
    }
}

/// A square next to covered squares, which the flood may enter on their
/// account, is covered too.
proof fn lemma_region_step(g: Grid, kind: Fill, start: Cell, v: Set<Cell>, c: Cell)
    requires
        v.subset_of(region(g, kind, start)),
        in_range(c.0, c.1),
        near(v, c),
        admits(g, kind, v, c),
    ensures
        region(g, kind, start).contains(c),
{
    let up = (c.0 - 1, c.1);
    let down = (c.0 + 1, c.1);
    let left = (c.0, c.1 - 1);
    let right = (c.0, c.1 + 1);
    let n = max_nat(
        max_nat(round_of(g, kind, start, up), round_of(g, kind, start, down)),
        max_nat(round_of(g, kind, start, left), round_of(g, kind, start, right)),
    );
    lemma_flood_grows(g, kind, start, round_of(g, kind, start, up), n);
    lemma_flood_grows(g, kind, start, round_of(g, kind, start, down), n);
    lemma_flood_grows(g, kind, start, round_of(g, kind, start, left), n);
    lemma_flood_grows(g, kind, start, round_of(g, kind, start, right), n);
    let f = flood(g, kind, start, n);
    assert(v.contains(up) ==> f.contains(up));
    assert(v.contains(down) ==> f.contains(down));
    assert(v.contains(left) ==> f.contains(left));
    assert(v.contains(right) ==> f.contains(right));
    assert(near(f, c));
    assert(admits(g, kind, f, c));
    assert(flood(g, kind, start, n + 1).contains(c));
}

/// The squares that a flood has covered.
pub struct Region {
    pub cells: [[bool; 11]; 11],
}

impl View for Region {
    type V = Set<Cell>;

    open spec fn view(&self) -> Set<Cell> {
        Set::new(|c: Cell| in_range(c.0, c.1) && self.cells[c.0][c.1])
    }
}

impl Region {
    /// Whether the square is covered; a square off the board never is.
    pub fn contains(&self, x: usize, y: usize) -> (b: bool)
        ensures
            b == self@.contains((x as int, y as int)),
    {
        x <= 10 && y <= 10 && self.cells[x][y]
    }

    /// Whether two covered squares face each other across (x, y).
    fn pinches(&self, x: usize, y: usize) -> (b: bool)
        requires
            in_range(x as int, y as int),
        ensures
            b == pinched(self@, (x as int, y as int)),
    {
        (1 <= x && x <= 9 && self.cells[x - 1][y] && self.cells[x + 1][y]) || (1 <= y && y <= 9
            && self.cells[x][y - 1] && self.cells[x][y + 1])
    }

    /// Whether a covered square lies next to (x, y).
    pub(crate) fn touches(&self, x: usize, y: usize) -> (b: bool)
        requires
            in_range(x as int, y as int),
        ensures
            b == near(self@, (x as int, y as int)),
    {
        (x >= 1 && self.cells[x - 1][y]) || (x <= 9 && self.cells[x + 1][y]) || (y >= 1
            && self.cells[x][y - 1]) || (y <= 9 && self.cells[x][y + 1])
    }
}

/// The square occurs in the queue.
spec fn queued(q: Seq<(usize, usize)>, c: Cell) -> bool {
    exists|i: int| 0 <= i < q.len() && q[i].0 == c.0 && q[i].1 == c.1
}

/// Every queued square lies on the board, next to a covered square.
spec fn queue_ok(q: Seq<(usize, usize)>, v: Set<Cell>) -> bool {
    forall|i: int|
        0 <= i < q.len() ==> in_range((#[trigger] q[i]).0 as int, q[i].1 as int) && near(
            v,
            (q[i].0 as int, q[i].1 as int),
        )
}

fn admits_cell(board: &Board, kind: Fill, r: &Region, x: usize, y: usize) -> (b: bool)
    requires
        in_range(x as int, y as int),
    ensures
        b == admits(board.grid(), kind, r@, (x as int, y as int)),
{
    let t = board.board[x][y];
    match kind {
        Fill::Group(color) => t.color() == color,
        Fill::Shelter => t != Tile::Black && t != Tile::White,
        Fill::Enclosure => t.color() != Color::Black || r.pinches(x, y),
    }
}

/// Appends the neighbours of (x, y) that lie on the board.
fn push_neighbours(queue: &mut VecDeque<(usize, usize)>, x: usize, y: usize)
    requires
        in_range(x as int, y as int),
    ensures
        final(queue)@.len() <= old(queue)@.len() + 4,
        old(queue)@.len() <= final(queue)@.len(),
        forall|i: int| 0 <= i < old(queue)@.len() ==> final(queue)@[i] == old(queue)@[i],
        forall|i: int|
            old(queue)@.len() <= i < final(queue)@.len() ==> in_range(
                (#[trigger] final(queue)@[i]).0 as int,
                final(queue)@[i].1 as int,
            ) && near(set![(x as int, y as int)], (final(queue)@[i].0 as int, final(queue)@[i].1 as int)),
        forall|c: Cell|
            in_range(c.0, c.1) && near(set![(x as int, y as int)], c) ==> queued(final(queue)@, c),
{
    let ghost q0 = queue@;
    if x > 0 {
        queue.push_back((x - 1, y));
    }
    let ghost q1 = queue@;
    if y < 10 {
        queue.push_back((x, y + 1));
    }
    let ghost q2 = queue@;
    if x < 10 {
        queue.push_back((x + 1, y));
    }
    let ghost q3 = queue@;
    if y > 0 {
        queue.push_back((x, y - 1));
    }
    proof {
        let q4 = queue@;
        assert forall|c: Cell|
            in_range(c.0, c.1) && near(set![(x as int, y as int)], c) implies queued(q4, c) by {
            if c.0 == x - 1 {
                assert(q4[q0.len() as int] == (((x - 1) as usize, y)));
            } else if c.1 == y + 1 {
                assert(q4[q1.len() as int] == ((x, (y + 1) as usize)));
            } else if c.0 == x + 1 {
                assert(q4[q2.len() as int] == (((x + 1) as usize, y)));
            } else {
                assert(q4[q3.len() as int] == ((x, (y - 1) as usize)));
            }
        }
    }
}

/// Floods the board from (x, y) and returns every square covered. The start
/// is covered whatever stands on it; a start off the board covers nothing.
pub fn flood_fill(board: &Board, kind: Fill, x: usize, y: usize) -> (r: Region)
    ensures
        in_range(x as int, y as int) ==> r@ == region(board.grid(), kind, (x as int, y as int)),
        !in_range(x as int, y as int) ==> r@ == Set::<Cell>::empty(),
{
    let mut r = Region { cells: [[false;11];11] };
    if x > 10 || y > 10 {
        assert(r@ =~= Set::<Cell>::empty());
        return r;
    }
    let ghost g = board.grid();
    let ghost start: Cell = (x as int, y as int);
    r.cells[x][y] = true;
    let mut queue: VecDeque<(usize, usize)> = VecDeque::new();
    push_neighbours(&mut queue, x, y);
    let ghost mut seen: Set<int> = set![11 * x + y];
    proof {
        assert(r@ =~= set![start]);
        assert(flood(g, kind, start, 0).contains(start));
        lemma_int_range(0, 121);
        lemma_len_subset(seen, set_int_range(0, 121));
    }
    while queue.len() > 0
        invariant
            g == board.grid(),
            start == (x as int, y as int),
            in_range(start.0, start.1),
            r@.contains(start),
            queue_ok(queue@, r@),
            r@.subset_of(region(g, kind, start)),
            forall|c: Cell|
                in_range(c.0, c.1) && near(r@, c) ==> r@.contains(c) || queued(queue@, c) || !admits(
                    g,
                    kind,
                    r@,
                    c,
                ),
            seen.finite(),
            seen.len() <= 121,
            forall|k: int| seen.contains(k) ==> 0 <= k < 121,
            forall|c: Cell| #[trigger] r@.contains(c) <==> in_range(c.0, c.1) && seen.contains(11 * c.0 + c.1),
        decreases 5 * (121 - seen.len()) + queue@.len(),
    {
        let ghost q_old = queue@;
        let ghost v_old = r@;
        let (cx, cy) = queue.pop_front().unwrap();
        let ghost c: Cell = (cx as int, cy as int);
        let ghost q_mid = queue@;
        assert(in_range(c.0, c.1) && near(v_old, c)) by {
            assert(q_old[0] == (cx, cy));
        }
        assert forall|d: Cell| queued(q_old, d) implies queued(q_mid, d) || d == c by {
            let i = choose|i: int| 0 <= i < q_old.len() && q_old[i].0 == d.0 && q_old[i].1 == d.1;
            if i > 0 {
                assert(q_mid[i - 1] == q_old[i]);
            }
        }
        assert(queue_ok(q_mid, v_old)) by {
            assert forall|i: int| 0 <= i < q_mid.len() implies in_range(
                (#[trigger] q_mid[i]).0 as int,
                q_mid[i].1 as int,
            ) && near(v_old, (q_mid[i].0 as int, q_mid[i].1 as int)) by {
                assert(q_mid[i] == q_old[i + 1]);
            }
        }
        if !r.cells[cx][cy] && admits_cell(board, kind, &r, cx, cy) {
            r.cells[cx][cy] = true;
            push_neighbours(&mut queue, cx, cy);
            proof {
                let v_new = r@;
                let q_new = queue@;
                assert(v_new =~= v_old.insert(c));
                lemma_region_step(g, kind, start, v_old, c);
                assert(!seen.contains(11 * c.0 + c.1)) by {
                    assert(!v_old.contains(c));
                }
                seen = seen.insert(11 * c.0 + c.1);
                lemma_int_range(0, 121);
                lemma_len_subset(seen, set_int_range(0, 121));
                assert forall|d: Cell| queued(q_mid, d) implies queued(q_new, d) by {
                    let i = choose|i: int| 0 <= i < q_mid.len() && q_mid[i].0 == d.0 && q_mid[i].1 == d.1;
                    assert(q_new[i] == q_mid[i]);
                }
                assert(queue_ok(q_new, v_new)) by {
                    assert forall|i: int| 0 <= i < q_new.len() implies in_range(
                        (#[trigger] q_new[i]).0 as int,
                        q_new[i].1 as int,
                    ) && near(v_new, (q_new[i].0 as int, q_new[i].1 as int)) by {
                        if i < q_mid.len() {
                            assert(q_new[i] == q_mid[i]);
                        }
                    }
                }
                assert forall|d: Cell| in_range(d.0, d.1) && near(v_new, d) implies v_new.contains(d)
                    || queued(q_new, d) || !admits(g, kind, v_new, d) by {
                    if near(set![c], d) {
                        assert(queued(q_new, d));
                    } else {
                        assert(near(v_old, d));
                        assert(pinched(v_new, d) == pinched(v_old, d));
                    }
                }
                assert forall|d: Cell| #[trigger] v_new.contains(d) <==> in_range(d.0, d.1) && seen.contains(
                    11 * d.0 + d.1,
                ) by {}
            }
        } else {
            proof {
                assert forall|d: Cell| in_range(d.0, d.1) && near(v_old, d) implies v_old.contains(d)
                    || queued(q_mid, d) || !admits(g, kind, v_old, d) by {}
            }
        }
    }
    proof {
        assert forall|c: Cell| in_range(c.0, c.1) && near(r@, c) && admits(g, kind, r@, c) implies r@.contains(
            c,
        ) by {
            if queued(queue@, c) {
            }
        }
        assert forall|c: Cell| region(g, kind, start).contains(c) implies r@.contains(c) by {
            let n = choose|n: nat| flood(g, kind, start, n).contains(c);
            lemma_closed_holds_flood(g, kind, start, r@, n);
        }
        assert(r@ =~= region(g, kind, start));
    }
    r
}

} // verus!
