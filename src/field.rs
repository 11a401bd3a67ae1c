use rand::Rng;
use vstd::prelude::*;

verus! {

/// Why a reveal did not end in an ordinary, safe move.
#[derive(Debug, Clone, Copy, PartialEq, Eq, Structural)]
pub enum Fail {
    /// The coordinate lies outside the board; nothing changed.
    OutOfBounds,
    /// The revealed cell holds a mine; the board now shows it.
    MineExploded,
}

/// A minesweeper board: a grid of mines and a grid of what the player sees.
///
/// Row `y` of each grid holds the cells `(0, y) .. (width - 1, y)`.
pub struct Field {
    mines: Vec<Vec<bool>>,
    can_see: Vec<Vec<bool>>,
}

/// 1 for a true statement, 0 for a false one.
pub open spec fn tally(b: bool) -> nat {
    if b { 1 } else { 0 }
}

/// The character that shows a count of neighbouring mines from 1 to 8.
pub open spec fn digit_char(n: nat) -> char {
    (48 + n) as char
}

/// `(nx, ny)` is one of the eight cells around `(x, y)`.
pub open spec fn neighbours(x: int, y: int, nx: int, ny: int) -> bool {
    &&& -1 <= nx - x <= 1
    &&& -1 <= ny - y <= 1
    &&& !(nx == x && ny == y)
}

/// Column offset of the `k`-th neighbour, in the order in which a reveal
/// visits them.
pub open spec fn off_x(k: int) -> int {
    if k < 3 {
        -1
    } else if k < 5 {
        0
    } else {
        1
    }
}

/// Row offset of the `k`-th neighbour.
pub open spec fn off_y(k: int) -> int {
    if k == 0 || k == 3 || k == 5 {
        -1
    } else if k == 1 || k == 6 {
        0
    } else {
        1
    }
}

/// The number of hidden cells in a row.
pub open spec fn hidden_in_row(row: Seq<bool>) -> nat
    decreases row.len(),
{
    if row.len() == 0 {
        0
    } else {
        hidden_in_row(row.drop_last()) + tally(!row.last())
    }
}

/// The number of hidden cells in a grid.
pub open spec fn hidden_in_rows(rows: Seq<Vec<bool>>) -> nat
    decreases rows.len(),
{
    if rows.len() == 0 {
        0
    } else {
        hidden_in_rows(rows.drop_last()) + hidden_in_row(rows.last()@)
    }
}

/// Seeing more cells of a row never adds hidden ones, and seeing one more
/// removes one.
proof fn lemma_row_shrinks(a: Seq<bool>, b: Seq<bool>)
    requires
        a.len() == b.len(),
        forall|i: int| 0 <= i < a.len() && #[trigger] a[i] ==> b[i],
    ensures
        hidden_in_row(b) <= hidden_in_row(a),
        (exists|i: int| 0 <= i < a.len() && !a[i] && #[trigger] b[i]) ==> hidden_in_row(b)
            < hidden_in_row(a),
    decreases a.len(),
{
    if a.len() > 0 {
        let a0 = a.drop_last();
        let b0 = b.drop_last();
        assert forall|i: int| 0 <= i < a0.len() && #[trigger] a0[i] implies b0[i] by {
            assert(a[i]);
        }
        lemma_row_shrinks(a0, b0);
        if exists|i: int| 0 <= i < a.len() && !a[i] && #[trigger] b[i] {
            let i = choose|i: int| 0 <= i < a.len() && !a[i] && #[trigger] b[i];
            if i < a.len() - 1 {
                assert(!a0[i] && b0[i]);
            }
        }
    }
}

/// The same for a whole grid.
proof fn lemma_rows_shrink(a: Seq<Vec<bool>>, b: Seq<Vec<bool>>)
    requires
        a.len() == b.len(),
        forall|y: int| 0 <= y < a.len() ==> (#[trigger] a[y])@.len() == b[y]@.len(),
        forall|y: int, x: int|
            0 <= y < a.len() && 0 <= x < a[y]@.len() && #[trigger] a[y]@[x] ==> b[y]@[x],
    ensures
        hidden_in_rows(b) <= hidden_in_rows(a),
        (exists|y: int, x: int|
            0 <= y < a.len() && 0 <= x < a[y]@.len() && !a[y]@[x] && #[trigger] b[y]@[x])
            ==> hidden_in_rows(b) < hidden_in_rows(a),
    decreases a.len(),
{
    if a.len() > 0 {
        let a0 = a.drop_last();
        let b0 = b.drop_last();
        let last: int = a.len() - 1;
        assert forall|y: int| 0 <= y < a0.len() implies (#[trigger] a0[y])@.len() == b0[y]@.len() by {
            assert(a[y]@.len() == b[y]@.len());
        }
        assert forall|y: int, x: int|
            0 <= y < a0.len() && 0 <= x < a0[y]@.len() && #[trigger] a0[y]@[x] implies b0[y]@[x] by {
            assert(a[y]@[x]);
        }
        lemma_rows_shrink(a0, b0);
        assert(a[last]@.len() == b[last]@.len());
        assert forall|i: int| 0 <= i < a[last]@.len() && #[trigger] a[last]@[i] implies b[last]@[i] by {
        }
        lemma_row_shrinks(a[last]@, b[last]@);
        if exists|y: int, x: int|
            0 <= y < a.len() && 0 <= x < a[y]@.len() && !a[y]@[x] && #[trigger] b[y]@[x] {
            let (y, x) = choose|y: int, x: int|
                0 <= y < a.len() && 0 <= x < a[y]@.len() && !a[y]@[x] && #[trigger] b[y]@[x];
            if y < last {
                assert(!a0[y]@[x] && b0[y]@[x]);
            } else {
                assert(!a[last]@[x] && b[last]@[x]);
            }
        }
    }
}

/// The number of true entries of a row.
pub open spec fn count_true(row: Seq<bool>) -> nat
    decreases row.len(),
{
    if row.len() == 0 {
        0
    } else {
        count_true(row.drop_last()) + tally(row.last())
    }
}

/// The number of true entries of a grid.
pub open spec fn count_in_rows(rows: Seq<Vec<bool>>) -> nat
    decreases rows.len(),
{
    if rows.len() == 0 {
        0
    } else {
        count_in_rows(rows.drop_last()) + count_true(rows.last()@)
    }
}

/// The share of the cells, in hundredths, that a new board fills with mines.
pub const MINE_PERCENT: usize = 15;

/// How many mines a new board of `cells` cells holds: the whole part of
/// fifteen hundredths of it.
pub open spec fn mines_for(cells: int) -> int {
    cells * 15 / 100
}

/// Setting a false entry of a row adds one true entry.
proof fn lemma_count_set(row: Seq<bool>, i: int)
    requires
        0 <= i < row.len(),
        !row[i],
    ensures
        count_true(row.update(i, true)) == count_true(row) + 1,
    decreases row.len(),
{
    let r2 = row.update(i, true);
    if i == row.len() - 1 {
        assert(r2.drop_last() =~= row.drop_last());
    } else {
        assert(r2.drop_last() =~= row.drop_last().update(i, true));
        lemma_count_set(row.drop_last(), i);
    }
}

/// Setting a false entry of a grid adds one true entry.
proof fn lemma_count_rows_set(rows: Seq<Vec<bool>>, y: int, row: Vec<bool>, x: int)
    requires
        0 <= y < rows.len(),
        0 <= x < rows[y]@.len(),
        !rows[y]@[x],
        row@ == rows[y]@.update(x, true),
    ensures
        count_in_rows(rows.update(y, row)) == count_in_rows(rows) + 1,
    decreases rows.len(),
{
    let g2 = rows.update(y, row);
    if y == rows.len() - 1 {
        assert(g2.drop_last() =~= rows.drop_last());
        lemma_count_set(rows[y]@, x);
    } else {
        assert(g2.drop_last() =~= rows.drop_last().update(y, row));
        lemma_count_rows_set(rows.drop_last(), y, row, x);
    }
}

/// Names what `rand::thread_rng` hands back: a handle on the thread's
/// random number generator.
#[verifier::external_type_specification]
#[verifier::external_body]
pub struct ExThreadRng(rand::rngs::ThreadRng);

/// Relies on rand::thread_rng for a handle on the thread's generator;
/// nothing is promised of the numbers it gives.
pub assume_specification[ rand::thread_rng ]() -> rand::rngs::ThreadRng;

/// Relies on rand::Rng::gen_range over `0..n`: a number below `n`, drawn
/// uniformly; it panics on an empty range, which `n > 0` rules out.
#[verifier::external_body]
fn random_below(rng: &mut rand::rngs::ThreadRng, n: usize) -> (r: usize)
    requires
        n > 0,
    ensures
        r < n,
{
    rng.gen_range(0..n)
}

/// A grid of `height` rows of `width` false entries.
fn blank_grid(width: usize, height: usize) -> (g: Vec<Vec<bool>>)
    ensures
        g@.len() == height,
        forall|y: int| 0 <= y < height ==> (#[trigger] g@[y])@.len() == width,
        forall|y: int, x: int| 0 <= y < height && 0 <= x < width ==> !(#[trigger] g@[y]@[x]),
        count_in_rows(g@) == 0,
{
    let mut g: Vec<Vec<bool>> = Vec::new();
    let mut y: usize = 0;
    while y < height
        invariant
            y <= height,
            g@.len() == y,
            forall|yy: int| 0 <= yy < y ==> (#[trigger] g@[yy])@.len() == width,
            forall|yy: int, x: int| 0 <= yy < y && 0 <= x < width ==> !(#[trigger] g@[yy]@[x]),
            count_in_rows(g@) == 0,
        decreases height - y,
    {
        let mut row: Vec<bool> = Vec::new();
        let mut x: usize = 0;
        while x < width
            invariant
                x <= width,
                row@.len() == x,
                forall|xx: int| 0 <= xx < x ==> !(#[trigger] row@[xx]),
                count_true(row@) == 0,
            decreases width - x,
        {
            proof {
                assert(row@.push(false).drop_last() =~= row@);
            }
            row.push(false);
            x += 1;
        }
        proof {
            assert(g@.push(row).drop_last() =~= g@);
        }
        g.push(row);
        y += 1;
    }
    g
}

/// Every cell of a `width` by `height` board, each once, in rows.
fn all_cells(width: usize, height: usize) -> (cells: Vec<(usize, usize)>)
    requires
        width * height <= usize::MAX,
    ensures
        cells@.len() == width * height,
        cells@.no_duplicates(),
        forall|i: int| 0 <= i < cells@.len() ==> (#[trigger] cells@[i]).0 < width && cells@[i].1 < height,
{
    let mut cells: Vec<(usize, usize)> = Vec::new();
    let mut y: usize = 0;
    while y < height
        invariant
            y <= height,
            width * height <= usize::MAX,
            cells@.len() == y * width,
            cells@.no_duplicates(),
            forall|i: int| 0 <= i < cells@.len() ==> (#[trigger] cells@[i]).0 < width && cells@[i].1 < y,
        decreases height - y,
    {
        let mut x: usize = 0;
        while x < width
            invariant
                y < height,
                x <= width,
                width * height <= usize::MAX,
                cells@.len() == y * width + x,
                cells@.no_duplicates(),
                forall|i: int|
                    0 <= i < cells@.len() ==> (#[trigger] cells@[i]).0 < width && (cells@[i].1 < y
                        || (cells@[i].1 == y && cells@[i].0 < x)),
            decreases width - x,
        {
            proof {
                assert(y * width + x < width * height) by (nonlinear_arith)
                    requires
                        y < height,
                        x < width,
                ;
            }
            cells.push((x, y));
            x += 1;
        }
        proof {
            assert(y * width + width == (y + 1) * width) by (nonlinear_arith);
        }
        y += 1;
    }
    assert(y * width == width * height) by (nonlinear_arith)
        requires
            y == height,
    ;
    cells
}

/// A `width` by `height` grid of mines on `mines_for(width * height)` cells
/// drawn at random, none of them twice: each draw picks one of the cells
/// not drawn yet, all alike.
fn generate_mines(width: usize, height: usize) -> (g: Vec<Vec<bool>>)
    requires
        width * height <= usize::MAX,
    ensures
        g@.len() == height,
        forall|y: int| 0 <= y < height ==> (#[trigger] g@[y])@.len() == width,
        count_in_rows(g@) == mines_for(width * height),
{
    let mut rng = rand::thread_rng();
    let mut quads = blank_grid(width, height);
    let mut cells = all_cells(width, height);
    let total: usize = width * height;
    let total_mines: usize = total / 100 * MINE_PERCENT + total % 100 * MINE_PERCENT / 100;
    proof {
        let q = total as int / 100;
        let r = total as int % 100;
        assert(total as int == 100 * q + r && 0 <= r < 100);
        assert(total as int * 15 == 100 * (15 * q) + 15 * r) by (nonlinear_arith)
            requires
                total as int == 100 * q + r,
        ;
        assert(total_mines == mines_for(total as int)) by (nonlinear_arith)
            requires
                total as int * 15 == 100 * (15 * q) + 15 * r,
                0 <= r < 100,
                total_mines == q * 15 + r * 15 / 100,
                mines_for(total as int) == total as int * 15 / 100,
        ;
    }
    let mut t: usize = 0;
    while t < total_mines
        invariant
            t <= total_mines,
            total_mines <= total,
            total == cells@.len(),
            cells@.no_duplicates(),
            forall|i: int| 0 <= i < cells@.len() ==> (#[trigger] cells@[i]).0 < width && cells@[i].1 < height,
            quads@.len() == height,
            forall|y: int| 0 <= y < height ==> (#[trigger] quads@[y])@.len() == width,
            forall|x: int, y: int|
                0 <= x < width && 0 <= y < height ==> (#[trigger] quads@[y]@[x] <==> exists|i: int|
                    0 <= i < t && (#[trigger] cells@[i]).0 == x && cells@[i].1 == y),
            count_in_rows(quads@) == t,
        decreases total_mines - t,
    {
        let j: usize = t + random_below(&mut rng, total - t);
        let ghost before = cells@;
        let a = cells[t];
        let b = cells[j];
        cells.set(t, b);
        cells.set(j, a);
        proof {
            assert forall|i1: int, i2: int|
                0 <= i1 < cells@.len() && 0 <= i2 < cells@.len() && i1 != i2 implies cells@[i1]
                != cells@[i2] by {
                let o1 = if i1 == t { j as int } else if i1 == j { t as int } else { i1 };
                let o2 = if i2 == t { j as int } else if i2 == j { t as int } else { i2 };
                assert(cells@[i1] == before[o1] && cells@[i2] == before[o2]);
            }
            assert forall|i: int| 0 <= i < t implies cells@[i] == before[i] by {}
        }
        let (cx, cy) = cells[t];
        proof {
            if quads@[cy as int]@[cx as int] {
                let i = choose|i: int|
                    0 <= i < t && (#[trigger] before[i]).0 == cx && before[i].1 == cy;
                assert(cells@[i] == before[i]);
                assert(cells@[i] == cells@[t as int]);
            }
        }
        let ghost q0 = quads@;
        quads[cy][cx] = true;
        proof {
            lemma_count_rows_set(q0, cy as int, quads@[cy as int], cx as int);
            assert(q0.update(cy as int, quads@[cy as int]) =~= quads@);
            assert forall|x: int, y: int|
                0 <= x < width && 0 <= y < height implies (#[trigger] quads@[y]@[x] <==> exists|i: int|
                    0 <= i < t + 1 && (#[trigger] cells@[i]).0 == x && cells@[i].1 == y) by {
                if x == cx && y == cy {
                    assert(cells@[t as int].0 == x && cells@[t as int].1 == y);
                } else {
                    assert(quads@[y]@[x] == q0[y]@[x]);
                    if exists|i: int| 0 <= i < t + 1 && (#[trigger] cells@[i]).0 == x && cells@[i].1 == y {
                        let i = choose|i: int|
                            0 <= i < t + 1 && (#[trigger] cells@[i]).0 == x && cells@[i].1 == y;
                        assert(i < t);
                        assert(before[i] == cells@[i]);
                    }
                    if q0[y]@[x] {
                        let i = choose|i: int|
                            0 <= i < t && (#[trigger] before[i]).0 == x && before[i].1 == y;
                        assert(before[i] == cells@[i]);
                    }
                }
            }
        }
        t += 1;
    }
    quads
}

/// The offsets of the `k`-th neighbour, each raised by one.
fn neighbour_offset(k: usize) -> (r: (usize, usize))
    requires
        k < 8,
    ensures
        r.0 == off_x(k as int) + 1,
        r.1 == off_y(k as int) + 1,
{
    if k < 3 {
        (0, k)
    } else if k == 3 {
        (1, 0)
    } else if k == 4 {
        (1, 2)
    } else {
        (2, k - 5)
    }
}

/// Both grids have the same positive number of rows, and every row of either
/// grid has the length of the first row of mines, which is positive.
pub open spec fn grids_fit(mines: Seq<Vec<bool>>, can_see: Seq<Vec<bool>>) -> bool {
    &&& mines.len() > 0
    &&& can_see.len() == mines.len()
    &&& mines[0]@.len() > 0
    &&& forall|y: int|
        0 <= y < mines.len() ==> (#[trigger] mines[y])@.len() == mines[0]@.len() && can_see[y]@.len()
            == mines[0]@.len()
}

impl Field {
    /// Number of columns.
    pub closed spec fn width(self) -> int {
        self.mines@[0]@.len() as int
    }

    /// Number of rows.
    pub closed spec fn height(self) -> int {
        self.mines@.len() as int
    }

    /// Whether the cell `(x, y)` holds a mine (meaningful inside the board).
    pub closed spec fn is_mine(self, x: int, y: int) -> bool {
        self.mines@[y]@[x]
    }

    /// Whether the player sees the cell `(x, y)` (meaningful inside the board).
    pub closed spec fn is_seen(self, x: int, y: int) -> bool {
        self.can_see@[y]@[x]
    }

    /// Both grids have the same positive number of rows, and every row of
    /// either grid has the same positive length.
    pub closed spec fn wf(self) -> bool {
        &&& self.mines@.len() > 0
        &&& self.can_see@.len() == self.mines@.len()
        &&& self.mines@[0]@.len() > 0
        &&& forall|y: int|
            0 <= y < self.mines@.len() ==> (#[trigger] self.mines@[y])@.len()
                == self.mines@[0]@.len()
        &&& forall|y: int|
            0 <= y < self.mines@.len() ==> (#[trigger] self.can_see@[y])@.len()
                == self.mines@[0]@.len()
    }

    /// `(x, y)` lies on the board.
    pub open spec fn in_bounds(self, x: int, y: int) -> bool {
        0 <= x < self.width() && 0 <= y < self.height()
    }

    /// A mine stands at `(x, y)`; false outside the board.
    pub open spec fn mine_in(self, x: int, y: int) -> bool {
        self.in_bounds(x, y) && self.is_mine(x, y)
    }

    /// The number of mines among the up to eight cells around `(x, y)` that
    /// lie on the board.
    pub open spec fn adjacent_mines(self, x: int, y: int) -> nat {
        tally(self.mine_in(x - 1, y - 1)) + tally(self.mine_in(x - 1, y)) + tally(
            self.mine_in(x - 1, y + 1),
        ) + tally(self.mine_in(x, y - 1)) + tally(self.mine_in(x, y + 1)) + tally(
            self.mine_in(x + 1, y - 1),
        ) + tally(self.mine_in(x + 1, y)) + tally(self.mine_in(x + 1, y + 1))
    }

    /// The cell holds a mine or the player sees it.
    pub open spec fn safe_or_seen(self, x: int, y: int) -> bool {
        self.is_mine(x, y) || self.is_seen(x, y)
    }

    /// Every cell of the board is a mine or seen.
    pub open spec fn all_safe_seen(self) -> bool {
        forall|x: int, y: int| self.in_bounds(x, y) ==> #[trigger] self.safe_or_seen(x, y)
    }

    /// The number of mines on the board.
    pub closed spec fn mine_count(self) -> nat {
        count_in_rows(self.mines@)
    }

    /// The number of cells the player does not see yet.
    pub closed spec fn hidden_count(self) -> nat {
        hidden_in_rows(self.can_see@)
    }

    /// A cell of the board that the player does not see.
    pub open spec fn hidden(self, x: int, y: int) -> bool {
        self.in_bounds(x, y) && !self.is_seen(x, y)
    }

    /// A cell of the board with no mine on it nor around it: revealing it
    /// goes on to its neighbours.
    pub open spec fn opens(self, x: int, y: int) -> bool {
        self.in_bounds(x, y) && !self.is_mine(x, y) && self.adjacent_mines(x, y) == 0
    }

    /// The step into `(cx, cy)` from its neighbour `(px, py)`: that cell opens
    /// and is reached in at most `n` steps.
    pub open spec fn step_from(self, sx: int, sy: int, px: int, py: int, n: nat) -> bool
        decreases n, 1nat,
    {
        self.reach(sx, sy, px, py, n) && self.opens(px, py)
    }

    /// `(cx, cy)` is reached from `(sx, sy)` in at most `n` steps: every cell on
    /// the way is hidden, and every step leaves a cell that opens.
    pub open spec fn reach(self, sx: int, sy: int, cx: int, cy: int, n: nat) -> bool
        decreases n, 0nat,
    {
        &&& self.hidden(cx, cy)
        &&& {
            ||| cx == sx && cy == sy
            ||| n > 0 && {
                let m = (n - 1) as nat;
                ||| self.step_from(sx, sy, cx - 1, cy - 1, m)
                ||| self.step_from(sx, sy, cx - 1, cy, m)
                ||| self.step_from(sx, sy, cx - 1, cy + 1, m)
                ||| self.step_from(sx, sy, cx, cy - 1, m)
                ||| self.step_from(sx, sy, cx, cy + 1, m)
                ||| self.step_from(sx, sy, cx + 1, cy - 1, m)
                ||| self.step_from(sx, sy, cx + 1, cy, m)
                ||| self.step_from(sx, sy, cx + 1, cy + 1, m)
            }
        }
    }

    /// A reveal at `(sx, sy)` shows `(cx, cy)`.
    pub open spec fn reachable(self, sx: int, sy: int, cx: int, cy: int) -> bool {
        exists|n: nat| #[trigger] self.reach(sx, sy, cx, cy, n)
    }

    /// `other` is a well-formed board of the same size with the same mines.
    pub open spec fn same_board(self, other: Field) -> bool {
        &&& other.wf()
        &&& other.width() == self.width()
        &&& other.height() == self.height()
        &&& forall|x: int, y: int|
            self.in_bounds(x, y) ==> #[trigger] other.is_mine(x, y) == self.is_mine(x, y)
    }

    /// Every cell seen on `self` is seen on `other`.
    pub open spec fn sees_more(self, other: Field) -> bool {
        forall|x: int, y: int|
            self.in_bounds(x, y) && self.is_seen(x, y) ==> #[trigger] other.is_seen(x, y)
    }

    /// `(x, y)` is hidden on `self` and seen on `other`.
    pub open spec fn newly_seen(self, other: Field, x: int, y: int) -> bool {
        self.hidden(x, y) && other.is_seen(x, y)
    }

    /// Every cell around `(x, y)` that lies on the board is seen.
    pub open spec fn all_around_seen(self, x: int, y: int) -> bool {
        forall|nx: int, ny: int|
            neighbours(x, y, nx, ny) && self.in_bounds(nx, ny) ==> #[trigger] self.is_seen(nx, ny)
    }

    /// A cell is off the board or seen.
    pub open spec fn seen_or_off(self, x: int, y: int) -> bool {
        self.in_bounds(x, y) ==> self.is_seen(x, y)
    }

    /// Every cell newly seen on `other` is reached from `(sx, sy)` on `self`.
    pub open spec fn sound_from(self, other: Field, sx: int, sy: int) -> bool {
        forall|x: int, y: int| #[trigger] self.newly_seen(other, x, y) ==> self.reachable(sx, sy, x, y)
    }

    /// Around every cell newly seen on `other` that opens, all is seen.
    pub open spec fn closed_after(self, other: Field) -> bool {
        forall|x: int, y: int|
            #[trigger] self.newly_seen(other, x, y) && self.opens(x, y) ==> other.all_around_seen(x, y)
    }

    /// Around every cell newly seen on `other` that opens, but `(sx, sy)`, all
    /// is seen.
    pub open spec fn closed_but(self, other: Field, sx: int, sy: int) -> bool {
        forall|x: int, y: int|
            #[trigger] self.newly_seen(other, x, y) && self.opens(x, y) && !(x == sx && y == sy)
                ==> other.all_around_seen(x, y)
    }

    /// The `j`-th neighbour of `(x, y)` is off the board or seen.
    pub open spec fn neighbour_done(self, x: int, y: int, j: int) -> bool {
        self.seen_or_off(x + off_x(j), y + off_y(j))
    }

    /// `after` is `self` with the reveal at `(sx, sy)` done: the same board,
    /// where a cell is seen exactly when it was seen before or the reveal
    /// reaches it.
    pub open spec fn revealed_from(self, after: Field, sx: int, sy: int) -> bool {
        &&& self.same_board(after)
        &&& forall|x: int, y: int|
            self.in_bounds(x, y) ==> #[trigger] after.is_seen(x, y) == (self.is_seen(x, y)
                || self.reachable(sx, sy, x, y))
    }

    /// `after` and `r` are the board and the answer after a reveal at
    /// `(x, y)` on `self`.
    pub open spec fn clicked(self, after: Field, x: int, y: int, r: Result<(), Fail>) -> bool {
        &&& after.wf()
        &&& !self.in_bounds(x, y) ==> r == Err::<(), Fail>(Fail::OutOfBounds) && after == self
        &&& self.in_bounds(x, y) ==> {
            &&& self.revealed_from(after, x, y)
            &&& r == if self.is_mine(x, y) {
                Err::<(), Fail>(Fail::MineExploded)
            } else {
                Ok(())
            }
        }
    }

    /// What the player is shown at a cell of the board.
    pub open spec fn view_char(self, x: int, y: int) -> char {
        if !self.is_seen(x, y) {
            '-'
        } else if self.is_mine(x, y) {
            '*'
        } else if self.adjacent_mines(x, y) == 0 {
            ' '
        } else {
            digit_char(self.adjacent_mines(x, y))
        }
    }

    /// A new board of `width` by `height` cells, none of them seen, with
    /// mines on `mines_for(width * height)` cells drawn at random.
    pub fn new(width: usize, height: usize) -> (r: Self)
        requires
            width > 0,
            height > 0,
            width * height <= usize::MAX,
        ensures
            r.wf(),
            r.width() == width,
            r.height() == height,
            r.mine_count() == mines_for(width * height),
            forall|x: int, y: int| r.in_bounds(x, y) ==> !#[trigger] r.is_seen(x, y),
    {
        let mines = generate_mines(width, height);
        let can_see = blank_grid(width, height);
        let r = Field { mines, can_see };
        assert(r.mines@[0]@.len() == width);
        r
    }

    /// The number of columns.
    pub fn get_width(&self) -> (r: usize)
        requires
            self.wf(),
        ensures
            r == self.width(),
            r > 0,
    {
        self.mines[0].len()
    }

    /// The number of rows.
    pub fn get_height(&self) -> (r: usize)
        requires
            self.wf(),
        ensures
            r == self.height(),
            r > 0,
    {
        self.mines.len()
    }

    /// Whether `(x, y)` lies on the board.
    pub fn is_inside(&self, x: usize, y: usize) -> (r: bool)
        requires
            self.wf(),
        ensures
            r == self.in_bounds(x as int, y as int),
    {
        x < self.get_width() && y < self.get_height()
    }

    /// Whether a mine stands at `(x + dx - 1, y + dy - 1)`, with no arithmetic
    /// that could wrap around.
    fn mine_near(&self, x: usize, y: usize, dx: usize, dy: usize) -> (r: bool)
        requires
            self.wf(),
            dx <= 2,
            dy <= 2,
        ensures
            r == self.mine_in(x + dx - 1, y + dy - 1),
    {
        if (dx == 0 && x == 0) || (dy == 0 && y == 0) {
            return false;
        }
        if (dx == 2 && x >= self.get_width()) || (dy == 2 && y >= self.get_height()) {
            return false;
        }
        let nx: usize = if dx == 0 { x - 1 } else { x + (dx - 1) };
        let ny: usize = if dy == 0 { y - 1 } else { y + (dy - 1) };
        if self.is_inside(nx, ny) {
            self.mines[ny][nx]
        } else {
            false
        }
    }

    /// The number of mines around `(x, y)`, from 0 to 8.
    pub fn get_amount(&self, x: usize, y: usize) -> (r: usize)
        requires
            self.wf(),
        ensures
            r == self.adjacent_mines(x as int, y as int),
            r <= 8,
    {
        let mut count: usize = 0;
        if self.mine_near(x, y, 0, 0) { count += 1; }
        if self.mine_near(x, y, 0, 1) { count += 1; }
        if self.mine_near(x, y, 0, 2) { count += 1; }
        if self.mine_near(x, y, 1, 0) { count += 1; }
        if self.mine_near(x, y, 1, 2) { count += 1; }
        if self.mine_near(x, y, 2, 0) { count += 1; }
        if self.mine_near(x, y, 2, 1) { count += 1; }
        if self.mine_near(x, y, 2, 2) { count += 1; }
        count
    }

    /// What the player is shown at `(x, y)`: `None` off the board, `'-'` for a
    /// hidden cell, `'*'` for a mine, a space for a cell with no mine around
    /// it, and otherwise the digit of the count.
    pub fn get_view_character(&self, x: usize, y: usize) -> (r: Option<char>)
        requires
            self.wf(),
        ensures
            r == (if self.in_bounds(x as int, y as int) {
                Some(self.view_char(x as int, y as int))
            } else {
                None
            }),
    {
        if !self.is_inside(x, y) {
            return None;
        }
        if !self.can_see[y][x] {
            return Some('-');
        }
        if self.mines[y][x] {
            return Some('*');
        }
        let amount: usize = self.get_amount(x, y);
        if amount == 0 {
            Some(' ')
        } else {
            Some((48u8 + amount as u8) as char)
        }
    }

    /// Builds a board from given grids. `None` unless both grids have the
    /// same positive number of rows and every row of either grid has the
    /// same positive length.
    pub fn from_raw(mines: Vec<Vec<bool>>, can_see: Vec<Vec<bool>>) -> (r: Option<Self>)
        ensures
            r.is_some() <==> grids_fit(mines@, can_see@),
            r matches Some(f) ==> {
                &&& f.wf()
                &&& f.height() == mines@.len()
                &&& f.width() == mines@[0]@.len()
                &&& forall|x: int, y: int|
                    #![trigger f.is_mine(x, y)]
                    #![trigger f.is_seen(x, y)]
                    f.in_bounds(x, y) ==> f.is_mine(x, y) == mines@[y]@[x] && f.is_seen(x, y)
                        == can_see@[y]@[x]
            },
    {
        if mines.len() != can_see.len() || mines.len() == 0 {
            return None;
        }
        let width: usize = mines[0].len();
        if width == 0 {
            return None;
        }
        let mut i: usize = 0;
        while i < mines.len()
            invariant
                0 < width == mines@[0]@.len(),
                mines@.len() == can_see@.len() > 0,
                i <= mines@.len(),
                forall|j: int| 0 <= j < i ==> (#[trigger] mines@[j])@.len() == width,
                forall|j: int| 0 <= j < i ==> (#[trigger] can_see@[j])@.len() == width,
            decreases mines.len() - i,
        {
            if mines[i].len() != width || can_see[i].len() != width {
                assert(mines@[i as int]@.len() != width || can_see@[i as int]@.len() != width);
                return None;
            }
            assert(mines@[i as int]@.len() == width && can_see@[i as int]@.len() == width);
            i += 1;
        }
        assert(grids_fit(mines@, can_see@));
        let f = Field { mines, can_see };
        assert forall|y: int| 0 <= y < f.can_see@.len() implies (#[trigger] f.can_see@[y])@.len()
            == f.mines@[0]@.len() by {
            assert(f.mines@[y]@.len() == f.mines@[0]@.len());
        }
        Some(f)
    }

    /// Whether every cell is a mine or seen: the player has won.
    pub fn all_non_mine_visible(&self) -> (r: bool)
        requires
            self.wf(),
        ensures
            r == self.all_safe_seen(),
    {
        let height: usize = self.get_height();
        let width: usize = self.get_width();
        let mut y: usize = 0;
        while y < height
            invariant
                self.wf(),
                height == self.height(),
                width == self.width(),
                y <= height,
                forall|cx: int, cy: int|
                    0 <= cx < width && 0 <= cy < y ==> #[trigger] self.safe_or_seen(cx, cy),
            decreases height - y,
        {
            let mut x: usize = 0;
            while x < width
                invariant
                    self.wf(),
                    height == self.height(),
                    width == self.width(),
                    y < height,
                    x <= width,
                    forall|cx: int, cy: int|
                        0 <= cx < width && 0 <= cy < y ==> #[trigger] self.safe_or_seen(cx, cy),
                    forall|cx: int| 0 <= cx < x ==> #[trigger] self.safe_or_seen(cx, y as int),
                decreases width - x,
            {
                if !(self.mines[y][x] || self.can_see[y][x]) {
                    assert(!self.safe_or_seen(x as int, y as int));
                    return false;
                }
                x += 1;
            }
            y += 1;
        }
        true
    }

    /// The first neighbour of `(cx, cy)` from which a step leads into it.
    pub open spec fn pred_of(self, sx: int, sy: int, cx: int, cy: int, m: nat) -> (int, int) {
        if self.step_from(sx, sy, cx - 1, cy - 1, m) {
            (cx - 1, cy - 1)
        } else if self.step_from(sx, sy, cx - 1, cy, m) {
            (cx - 1, cy)
        } else if self.step_from(sx, sy, cx - 1, cy + 1, m) {
            (cx - 1, cy + 1)
        } else if self.step_from(sx, sy, cx, cy - 1, m) {
            (cx, cy - 1)
        } else if self.step_from(sx, sy, cx, cy + 1, m) {
            (cx, cy + 1)
        } else if self.step_from(sx, sy, cx + 1, cy - 1, m) {
            (cx + 1, cy - 1)
        } else if self.step_from(sx, sy, cx + 1, cy, m) {
            (cx + 1, cy)
        } else {
            (cx + 1, cy + 1)
        }
    }

    /// A reached cell other than the start is entered from a neighbour that
    /// opens and is reached in one step less.
    proof fn lemma_reach_pred(self, sx: int, sy: int, cx: int, cy: int, n: nat)
        requires
            self.reach(sx, sy, cx, cy, n),
            !(cx == sx && cy == sy),
        ensures
            n > 0,
            ({
                let (px, py) = self.pred_of(sx, sy, cx, cy, (n - 1) as nat);
                &&& neighbours(px, py, cx, cy)
                &&& self.reach(sx, sy, px, py, (n - 1) as nat)
                &&& self.opens(px, py)
            }),
    {
    }

    /// A hidden cell `(cx, cy)` next to a reached cell `(px, py)` that opens is
    /// reached in one step more.
    proof fn lemma_reach_step(self, sx: int, sy: int, px: int, py: int, cx: int, cy: int, n: nat)
        requires
            self.reach(sx, sy, px, py, n),
            self.opens(px, py),
            neighbours(px, py, cx, cy),
            self.hidden(cx, cy),
        ensures
            self.reach(sx, sy, cx, cy, n + 1),
    {
        assert(self.step_from(sx, sy, px, py, n));
        if px == cx - 1 && py == cy - 1 {
        } else if px == cx - 1 && py == cy {
        } else if px == cx - 1 && py == cy + 1 {
        } else if px == cx && py == cy - 1 {
        } else if px == cx && py == cy + 1 {
        } else if px == cx + 1 && py == cy - 1 {
        } else if px == cx + 1 && py == cy {
        } else {
        }
    }

    /// A cell reached from a neighbour `(dx, dy)` of a hidden opening cell
    /// `(sx, sy)`, on a board that sees more, is reached from `(sx, sy)` with one
    /// step more.
    proof fn lemma_reach_extends(
        self,
        pre: Field,
        sx: int,
        sy: int,
        dx: int,
        dy: int,
        cx: int,
        cy: int,
        n: nat,
    )
        requires
            self.same_board(pre),
            self.sees_more(pre),
            neighbours(sx, sy, dx, dy),
            self.hidden(sx, sy),
            self.opens(sx, sy),
            pre.reach(dx, dy, cx, cy, n),
        ensures
            self.reach(sx, sy, cx, cy, n + 1),
        decreases n,
    {
        assert(self.hidden(cx, cy));
        if cx == dx && cy == dy {
            assert(self.reach(sx, sy, sx, sy, n));
            self.lemma_reach_step(sx, sy, sx, sy, cx, cy, n);
        } else {
            pre.lemma_reach_pred(dx, dy, cx, cy, n);
            let (px, py) = pre.pred_of(dx, dy, cx, cy, (n - 1) as nat);
            self.lemma_reach_extends(pre, sx, sy, dx, dy, px, py, (n - 1) as nat);
            assert(self.opens(px, py));
            self.lemma_reach_step(sx, sy, px, py, cx, cy, n);
        }
    }

    /// After a reveal from `(sx, sy)` that is sound and closed, every cell
    /// reached from `(sx, sy)` is seen.
    proof fn lemma_reached_is_seen(self, after: Field, sx: int, sy: int, cx: int, cy: int, n: nat)
        requires
            self.same_board(after),
            self.sees_more(after),
            self.in_bounds(sx, sy) ==> after.is_seen(sx, sy),
            self.closed_after(after),
            self.reach(sx, sy, cx, cy, n),
        ensures
            after.is_seen(cx, cy),
        decreases n,
    {
        if !(cx == sx && cy == sy) {
            self.lemma_reach_pred(sx, sy, cx, cy, n);
            let (px, py) = self.pred_of(sx, sy, cx, cy, (n - 1) as nat);
            self.lemma_reached_is_seen(after, sx, sy, px, py, (n - 1) as nat);
            assert(self.newly_seen(after, px, py));
            assert(after.all_around_seen(px, py));
        }
    }

    /// Seeing more cells of the same board never adds hidden ones, and seeing
    /// `(x, y)` besides removes one.
    proof fn lemma_hidden_count(self, other: Field, x: int, y: int)
        requires
            self.wf(),
            self.same_board(other),
            self.sees_more(other),
        ensures
            other.hidden_count() <= self.hidden_count(),
            self.newly_seen(other, x, y) ==> other.hidden_count() < self.hidden_count(),
    {
        assert forall|y: int| 0 <= y < self.can_see@.len() implies (#[trigger] self.can_see@[y])@.len()
            == other.can_see@[y]@.len() by {
            assert(self.mines@[y]@.len() == self.width());
            assert(other.mines@[y]@.len() == other.width());
        }
        assert forall|yy: int, xx: int|
            0 <= yy < self.can_see@.len() && 0 <= xx < self.can_see@[yy]@.len()
                && #[trigger] self.can_see@[yy]@[xx] implies other.can_see@[yy]@[xx] by {
            assert(self.mines@[yy]@.len() == self.width());
            assert(self.is_seen(xx, yy));
            assert(other.is_seen(xx, yy));
        }
        lemma_rows_shrink(self.can_see@, other.can_see@);
        if self.newly_seen(other, x, y) {
            assert(self.mines@[y]@.len() == self.width());
            assert(!self.can_see@[y]@[x] && other.can_see@[y]@[x]);
        }
    }

    /// Two boards with the same mines count the same mines around a cell.
    proof fn lemma_same_counts(self, other: Field, x: int, y: int)
        requires
            self.same_board(other),
        ensures
            other.adjacent_mines(x, y) == self.adjacent_mines(x, y),
            other.opens(x, y) == self.opens(x, y),
    {
        assert(other.mine_in(x - 1, y - 1) == self.mine_in(x - 1, y - 1));
        assert(other.mine_in(x - 1, y) == self.mine_in(x - 1, y));
        assert(other.mine_in(x - 1, y + 1) == self.mine_in(x - 1, y + 1));
        assert(other.mine_in(x, y - 1) == self.mine_in(x, y - 1));
        assert(other.mine_in(x, y + 1) == self.mine_in(x, y + 1));
        assert(other.mine_in(x + 1, y - 1) == self.mine_in(x + 1, y - 1));
        assert(other.mine_in(x + 1, y) == self.mine_in(x + 1, y));
        assert(other.mine_in(x + 1, y + 1) == self.mine_in(x + 1, y + 1));
    }

    /// What a nested reveal from the neighbour `(dx, dy)` of `(sx, sy)` adds to
    /// the reveal from `(sx, sy)` that made it.
    proof fn lemma_nested_reveal(self, pre: Field, post: Field, sx: int, sy: int, dx: int, dy: int)
        requires
            self.wf(),
            self.hidden(sx, sy),
            self.opens(sx, sy),
            neighbours(sx, sy, dx, dy),
            self.same_board(pre),
            self.sees_more(pre),
            self.sound_from(pre, sx, sy),
            self.closed_but(pre, sx, sy),
            pre.same_board(post),
            pre.sees_more(post),
            pre.sound_from(post, dx, dy),
            pre.closed_after(post),
        ensures
            self.same_board(post),
            self.sees_more(post),
            self.sound_from(post, sx, sy),
            self.closed_but(post, sx, sy),
    {
        assert forall|x: int, y: int| #[trigger] self.newly_seen(post, x, y) implies self.reachable(
            sx,
            sy,
            x,
            y,
        ) by {
            if !self.newly_seen(pre, x, y) {
                assert(pre.newly_seen(post, x, y));
                let n = choose|n: nat| #[trigger] pre.reach(dx, dy, x, y, n);
                self.lemma_reach_extends(pre, sx, sy, dx, dy, x, y, n);
            }
        }
        assert forall|x: int, y: int|
            #[trigger] self.newly_seen(post, x, y) && self.opens(x, y) && !(x == sx && y == sy)
                implies post.all_around_seen(x, y) by {
            if self.newly_seen(pre, x, y) {
                assert(pre.all_around_seen(x, y));
                assert forall|nx: int, ny: int|
                    neighbours(x, y, nx, ny) && post.in_bounds(nx, ny) implies #[trigger] post.is_seen(
                    nx,
                    ny,
                ) by {
                    assert(pre.is_seen(nx, ny));
                }
            } else {
                assert(pre.newly_seen(post, x, y));
                self.lemma_same_counts(pre, x, y);
            }
        }
    }

    /// Shows the cell `(x, y)`, and changes nothing else.
    fn mark_seen(&mut self, x: usize, y: usize)
        requires
            old(self).wf(),
            old(self).in_bounds(x as int, y as int),
        ensures
            old(self).same_board(*final(self)),
            old(self).sees_more(*final(self)),
            final(self).is_seen(x as int, y as int),
            forall|cx: int, cy: int|
                old(self).in_bounds(cx, cy) && #[trigger] final(self).is_seen(cx, cy) && !(cx == x
                    && cy == y) ==> old(self).is_seen(cx, cy),
    {
        self.can_see[y][x] = true;
    }

    /// Reveals `(x, y)` and, where it has no mine on it nor around it, goes on
    /// to its neighbours. A cell off the board or seen already stops it.
    fn spread(&mut self, x: usize, y: usize)
        requires
            old(self).wf(),
        ensures
            old(self).same_board(*final(self)),
            old(self).sees_more(*final(self)),
            old(self).in_bounds(x as int, y as int) ==> final(self).is_seen(x as int, y as int),
            old(self).sound_from(*final(self), x as int, y as int),
            old(self).closed_after(*final(self)),
        decreases old(self).hidden_count(),
    {
        if !self.is_inside(x, y) || self.can_see[y][x] {
            return;
        }
        let ghost entry = *self;
        self.mark_seen(x, y);
        proof {
            entry.lemma_hidden_count(*self, x as int, y as int);
            assert(entry.reach(x as int, y as int, x as int, y as int, 0));
        }
        if self.mines[y][x] || self.get_amount(x, y) != 0 {
            proof {
                entry.lemma_same_counts(*self, x as int, y as int);
            }
            return;
        }
        proof {
            entry.lemma_same_counts(*self, x as int, y as int);
        }
        let width: usize = self.get_width();
        let height: usize = self.get_height();
        let mut k: usize = 0;
        while k < 8
            invariant
                entry == *old(self),
                entry.wf(),
                entry.in_bounds(x as int, y as int),
                width == entry.width(),
                height == entry.height(),
                entry.hidden(x as int, y as int),
                entry.opens(x as int, y as int),
                entry.same_board(*self),
                entry.sees_more(*self),
                self.is_seen(x as int, y as int),
                entry.sound_from(*self, x as int, y as int),
                entry.closed_but(*self, x as int, y as int),
                forall|j: int| 0 <= j < k ==> #[trigger] self.neighbour_done(x as int, y as int, j),
                self.hidden_count() < entry.hidden_count(),
                k <= 8,
            decreases 8 - k,
        {
            let (dx, dy) = neighbour_offset(k);
            if (dx > 0 || x > 0) && (dy > 0 || y > 0) {
                let nx: usize = if dx == 0 { x - 1 } else { x + (dx - 1) };
                let ny: usize = if dy == 0 { y - 1 } else { y + (dy - 1) };
                let ghost pre = *self;
                self.spread(nx, ny);
                proof {
                    entry.lemma_nested_reveal(pre, *self, x as int, y as int, nx as int, ny as int);
                    pre.lemma_hidden_count(*self, 0, 0);
                    assert forall|j: int| 0 <= j < k implies #[trigger] self.neighbour_done(
                        x as int,
                        y as int,
                        j,
                    ) by {
                        assert(pre.neighbour_done(x as int, y as int, j));
                    }
                }
            }
            assert(self.neighbour_done(x as int, y as int, k as int));
            k += 1;
        }
        proof {
            assert forall|nx: int, ny: int|
                neighbours(x as int, y as int, nx, ny) && self.in_bounds(nx, ny) implies #[trigger] self.is_seen(
                nx,
                ny,
            ) by {
                let j: int = if nx - x == -1 {
                    ny - y + 1
                } else if nx == x {
                    if ny - y == -1 {
                        3
                    } else {
                        4
                    }
                } else {
                    ny - y + 6
                };
                assert(self.neighbour_done(x as int, y as int, j));
            }
        }
    }

    /// Reveals the cell `(x, y)`. Off the board nothing changes and the
    /// answer is `OutOfBounds`. On the board the cell is shown and, from every
    /// shown cell with no mine on it nor around it, the reveal goes on to the
    /// cells around; the answer is `MineExploded` if the cell holds a mine,
    /// else `Ok`.
    pub fn click(&mut self, x: usize, y: usize) -> (r: Result<(), Fail>)
        requires
            old(self).wf(),
        ensures
            old(self).clicked(*final(self), x as int, y as int, r),
    {
        if !self.is_inside(x, y) {
            return Err(Fail::OutOfBounds);
        }
        let ghost before = *self;
        self.spread(x, y);
        proof {
            assert forall|cx: int, cy: int| before.in_bounds(cx, cy) implies #[trigger] self.is_seen(
                cx,
                cy,
            ) == (before.is_seen(cx, cy) || before.reachable(x as int, y as int, cx, cy)) by {
                if before.reachable(x as int, y as int, cx, cy) {
                    let n = choose|n: nat| #[trigger] before.reach(x as int, y as int, cx, cy, n);
                    before.lemma_reached_is_seen(*self, x as int, y as int, cx, cy, n);
                }
                if self.is_seen(cx, cy) && !before.is_seen(cx, cy) {
                    assert(before.newly_seen(*self, cx, cy));
                }
            }
            assert(self.is_mine(x as int, y as int) == before.is_mine(x as int, y as int));
        }
        if self.mines[y][x] {
            Err(Fail::MineExploded)
        } else {
            Ok(())
        }
    }

    /// Only a hidden start reaches anything.
    proof fn lemma_reach_needs_hidden_start(self, sx: int, sy: int, cx: int, cy: int, n: nat)
        requires
            self.reach(sx, sy, cx, cy, n),
        ensures
            self.hidden(sx, sy),
        decreases n,
    {
        if !(cx == sx && cy == sy) {
            self.lemma_reach_pred(sx, sy, cx, cy, n);
            let (px, py) = self.pred_of(sx, sy, cx, cy, (n - 1) as nat);
            self.lemma_reach_needs_hidden_start(sx, sy, px, py, (n - 1) as nat);
        }
    }

    /// From a start that does not open, nothing but the start is reached.
    proof fn lemma_reach_stops(self, sx: int, sy: int, cx: int, cy: int, n: nat)
        requires
            self.reach(sx, sy, cx, cy, n),
            !self.opens(sx, sy),
        ensures
            cx == sx && cy == sy,
        decreases n,
    {
        if !(cx == sx && cy == sy) {
            self.lemma_reach_pred(sx, sy, cx, cy, n);
            let (px, py) = self.pred_of(sx, sy, cx, cy, (n - 1) as nat);
            self.lemma_reach_stops(sx, sy, px, py, (n - 1) as nat);
        }
    }

    /// A reveal keeps the width and the height of the board, and keeps it
    /// well formed; so does every run of reveals.
    pub proof fn lemma_reveals_keep_size(
        boards: Seq<Field>,
        xs: Seq<int>,
        ys: Seq<int>,
        rs: Seq<Result<(), Fail>>,
    )
        requires
            boards.len() > 0,
            boards[0].wf(),
            xs.len() == boards.len() - 1,
            ys.len() == boards.len() - 1,
            rs.len() == boards.len() - 1,
            forall|i: int|
                0 <= i < boards.len() - 1 ==> #[trigger] boards[i].clicked(
                    boards[i + 1],
                    xs[i],
                    ys[i],
                    rs[i],
                ),
        ensures
            boards.last().wf(),
            boards.last().width() == boards[0].width(),
            boards.last().height() == boards[0].height(),
        decreases boards.len(),
    {
        if boards.len() > 1 {
            let n = boards.len() - 1;
            let (b0, x0, y0, r0) = (boards.drop_last(), xs.drop_last(), ys.drop_last(), rs.drop_last());
            Field::lemma_reveals_keep_size(b0, x0, y0, r0);
            let i = n - 1;
            assert(boards[i].clicked(boards[i + 1], xs[i], ys[i], rs[i]));
        }
    }

    /// Once seen, a cell stays seen through every run of reveals.
    pub proof fn lemma_reveals_keep_seen(
        boards: Seq<Field>,
        xs: Seq<int>,
        ys: Seq<int>,
        rs: Seq<Result<(), Fail>>,
        x: int,
        y: int,
    )
        requires
            boards.len() > 0,
            boards[0].wf(),
            xs.len() == boards.len() - 1,
            ys.len() == boards.len() - 1,
            rs.len() == boards.len() - 1,
            forall|i: int|
                0 <= i < boards.len() - 1 ==> #[trigger] boards[i].clicked(
                    boards[i + 1],
                    xs[i],
                    ys[i],
                    rs[i],
                ),
            boards[0].in_bounds(x, y),
            boards[0].is_seen(x, y),
        ensures
            boards.last().is_seen(x, y),
        decreases boards.len(),
    {
        if boards.len() > 1 {
            let n = boards.len() - 1;
            let (b0, x0, y0, r0) = (boards.drop_last(), xs.drop_last(), ys.drop_last(), rs.drop_last());
            Field::lemma_reveals_keep_size(b0, x0, y0, r0);
            Field::lemma_reveals_keep_seen(b0, x0, y0, r0, x, y);
            let i = n - 1;
            assert(boards[i].clicked(boards[i + 1], xs[i], ys[i], rs[i]));
            assert(boards[n - 1].in_bounds(x, y));
        }
    }

    /// A reveal at a cell already seen changes no cell, and answers by that
    /// cell's mine alone.
    pub proof fn lemma_reveal_seen_is_idle(
        self,
        after: Field,
        x: int,
        y: int,
        r: Result<(), Fail>,
    )
        requires
            self.wf(),
            self.in_bounds(x, y),
            self.is_seen(x, y),
            self.clicked(after, x, y, r),
        ensures
            self.same_board(after),
            forall|cx: int, cy: int|
                self.in_bounds(cx, cy) ==> #[trigger] after.is_seen(cx, cy) == self.is_seen(cx, cy),
            r == if self.is_mine(x, y) {
                Err::<(), Fail>(Fail::MineExploded)
            } else {
                Ok(())
            },
    {
        assert forall|cx: int, cy: int| self.in_bounds(cx, cy) implies #[trigger] after.is_seen(cx, cy)
            == self.is_seen(cx, cy) by {
            if self.reachable(x, y, cx, cy) {
                let n = choose|n: nat| #[trigger] self.reach(x, y, cx, cy, n);
                self.lemma_reach_needs_hidden_start(x, y, cx, cy, n);
            }
        }
    }

    /// A reveal goes on only from cells that open: a cell that it newly shows,
    /// other than the one revealed, lies next to a cell that it newly shows
    /// and that has no mine on it nor around it.
    pub proof fn lemma_reveal_spreads_from_openings(
        self,
        after: Field,
        x: int,
        y: int,
        r: Result<(), Fail>,
        cx: int,
        cy: int,
    )
        requires
            self.wf(),
            self.clicked(after, x, y, r),
            self.hidden(cx, cy),
            after.is_seen(cx, cy),
            !(cx == x && cy == y),
        ensures
            exists|px: int, py: int|
                neighbours(px, py, cx, cy) && self.opens(px, py) && self.hidden(px, py)
                    && #[trigger] after.is_seen(px, py),
    {
        let n = choose|n: nat| #[trigger] self.reach(x, y, cx, cy, n);
        self.lemma_reach_pred(x, y, cx, cy, n);
        let (px, py) = self.pred_of(x, y, cx, cy, (n - 1) as nat);
        assert(self.reachable(x, y, px, py));
        assert(after.is_seen(px, py));
    }

    /// A reveal at a hidden cell with a mine on it or around it shows that
    /// cell alone.
    pub proof fn lemma_reveal_stops_at_numbers(
        self,
        after: Field,
        x: int,
        y: int,
        r: Result<(), Fail>,
    )
        requires
            self.wf(),
            self.hidden(x, y),
            !self.opens(x, y),
            self.clicked(after, x, y, r),
        ensures
            after.is_seen(x, y),
            forall|cx: int, cy: int|
                self.in_bounds(cx, cy) && !(cx == x && cy == y) ==> #[trigger] after.is_seen(cx, cy)
                    == self.is_seen(cx, cy),
    {
        assert(self.reach(x, y, x, y, 0));
        assert forall|cx: int, cy: int|
            self.in_bounds(cx, cy) && !(cx == x && cy == y) implies #[trigger] after.is_seen(cx, cy)
                == self.is_seen(cx, cy) by {
            if self.reachable(x, y, cx, cy) {
                let n = choose|n: nat| #[trigger] self.reach(x, y, cx, cy, n);
                self.lemma_reach_stops(x, y, cx, cy, n);
            }
        }
    }

    /// A reveal one step past the right edge, or one row past the bottom,
    /// answers `OutOfBounds`.
    pub proof fn lemma_reveal_past_edge(
        self,
        after: Field,
        r: Result<(), Fail>,
        after2: Field,
        r2: Result<(), Fail>,
    )
        requires
            self.wf(),
            self.clicked(after, self.width(), 0, r),
            self.clicked(after2, 0, self.height(), r2),
        ensures
            r == Err::<(), Fail>(Fail::OutOfBounds),
            r2 == Err::<(), Fail>(Fail::OutOfBounds),
            after == self,
            after2 == self,
    {
    }

    /// A reveal on a mine answers `MineExploded`, and the board then shows
    /// the mine there.
    pub proof fn lemma_reveal_mine_shows_it(self, after: Field, x: int, y: int, r: Result<(), Fail>)
        requires
            self.wf(),
            self.in_bounds(x, y),
            self.is_mine(x, y),
            self.clicked(after, x, y, r),
        ensures
            r == Err::<(), Fail>(Fail::MineExploded),
            after.view_char(x, y) == '*',
    {
        if !self.is_seen(x, y) {
            assert(self.reach(x, y, x, y, 0));
        }
        assert(after.is_seen(x, y));
    }
}

} // verus!
