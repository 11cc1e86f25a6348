//! The dense representation: an `(n + 2) x (n + 2)` grid whose border ring is
//! always dead.
use vstd::prelude::*;
use crate::grid::{grid_cells, is_square, Grid};
use crate::rules::{
    checkerboard, in_interior, neighbor_count, next_generation, next_state, on_border,
    shift_source, shifted, within, Shift,
};

verus! {

/// A board of `n x n` interior cells surrounded by a dead border ring.
pub struct DenseBoard {
    n: usize,
    grid: Grid,
}

/// The largest interior side for which a padded grid can be allocated.
pub open spec fn side_fits(n: int) -> bool {
    0 <= n && (n + 2) * (n + 2) <= isize::MAX
}

proof fn lemma_side_fits(n: int)
    requires
        side_fits(n),
    ensures
        n + 2 <= isize::MAX,
{
    assert((n + 2) <= (n + 2) * (n + 2)) by (nonlinear_arith)
        requires
            n >= 0,
    ;
}

impl DenseBoard {
    /// Side length of the interior.
    pub closed spec fn side(&self) -> int {
        self.n as int
    }

    /// The grid is `(n + 2)` square and its border ring is dead.
    pub closed spec fn wf(&self) -> bool {
        let c = grid_cells(self.grid);
        let s = self.n + 2;
        &&& side_fits(self.n as int)
        &&& is_square(c, s)
        &&& forall|i: int, j: int|
            0 <= i < s && 0 <= j < s && on_border(self.n as int, i, j) ==> !#[trigger] c[i][j]
    }

    /// The live cells of the board.
    pub closed spec fn live(&self) -> Set<(int, int)> {
        Set::new(
            |p: (int, int)|
                in_interior(self.n as int, p.0, p.1) && grid_cells(self.grid)[p.0][p.1],
        )
    }

    proof fn lemma_cells(&self)
        requires
            self.wf(),
        ensures
            within(self.n as int, self.live()),
            forall|i: int, j: int|
                0 <= i < self.n + 2 && 0 <= j < self.n + 2 ==> #[trigger] grid_cells(
                    self.grid,
                )[i][j] == self.live().contains((i, j)),
    {
    }

    /// A well-formed board has a side that fits a padded grid.
    pub proof fn lemma_wf_fits(&self)
        requires
            self.wf(),
        ensures
            side_fits(self.side()),
    {
    }

    /// The live cells of a well-formed board lie in the interior.
    pub proof fn lemma_within(&self)
        requires
            self.wf(),
        ensures
            within(self.side(), self.live()),
    {
    }

    /// Side length of the interior.
    pub fn size(&self) -> (r: usize)
        ensures
            r == self.side(),
    {
        self.n
    }

    /// Whether `(x, y)` is live; `false` for any position outside the interior.
    pub fn is_live(&self, x: usize, y: usize) -> (r: bool)
        requires
            self.wf(),
        ensures
            r == self.live().contains((x as int, y as int)),
    {
        proof {
            self.lemma_cells();
        }
        if x >= 1 && x <= self.n && y >= 1 && y <= self.n {
            self.grid.get(x, y)
        } else {
            false
        }
    }
}

/// A board with every cell dead.
pub fn new_blank_board(n: usize) -> (r: DenseBoard)
    requires
        side_fits(n as int),
    ensures
        r.wf(),
        r.side() == n,
        r.live() == Set::<(int, int)>::empty(),
{
    proof {
        lemma_side_fits(n as int);
    }
    let r = DenseBoard { n, grid: Grid::blank(n + 2) };
    assert(r.live() =~= Set::<(int, int)>::empty());
    r
}

fn count_at(g: &Grid, x: usize, y: usize) -> (r: u8)
    requires
        x < grid_cells(*g).len(),
        y < grid_cells(*g)[x as int].len(),
    ensures
        r == (if grid_cells(*g)[x as int][y as int] { 1int } else { 0int }),
{
    if g.get(x, y) {
        1
    } else {
        0
    }
}

/// The state of interior cell `(x, y)` in the next generation.
fn next_cell(board: &DenseBoard, x: usize, y: usize) -> (r: bool)
    requires
        board.wf(),
        in_interior(board.side(), x as int, y as int),
    ensures
        r == next_state(
            board.live().contains((x as int, y as int)),
            neighbor_count(board.live(), x as int, y as int),
        ),
{
    proof {
        board.lemma_cells();
        lemma_side_fits(board.n as int);
    }
    let g = &board.grid;
    let count: u8 = count_at(g, x - 1, y - 1) + count_at(g, x, y - 1) + count_at(g, x + 1, y - 1)
        + count_at(g, x + 1, y) + count_at(g, x + 1, y + 1) + count_at(g, x, y + 1) + count_at(
        g,
        x - 1,
        y + 1,
    ) + count_at(g, x - 1, y);
    if g.get(x, y) {
        count == 2 || count == 3
    } else {
        count == 3
    }
}

/// Advances the board by one generation. Every cell is computed from the
/// previous state into a fresh grid, so all cells update simultaneously.
pub fn update_board(board: &mut DenseBoard)
    requires
        old(board).wf(),
    ensures
        final(board).wf(),
        final(board).side() == old(board).side(),
        final(board).live() == next_generation(old(board).side(), old(board).live()),
{
    let n = board.n;
    proof {
        lemma_side_fits(n as int);
    }
    let ghost target = next_generation(n as int, board.live());
    let mut g = Grid::blank(n + 2);
    let mut x: usize = 1;
    while x <= n
        invariant
            1 <= x <= n + 1,
            n == board.n,
            board.wf(),
            n + 2 <= isize::MAX,
            target == next_generation(n as int, board.live()),
            is_square(grid_cells(g), n + 2),
            forall|i: int, j: int|
                0 <= i < n + 2 && 0 <= j < n + 2 ==> #[trigger] grid_cells(g)[i][j] == (1 <= i
                    < x && 1 <= j <= n && target.contains((i, j))),
        decreases n + 1 - x,
    {
        let mut y: usize = 1;
        while y <= n
            invariant
                1 <= x <= n,
                1 <= y <= n + 1,
                n == board.n,
                board.wf(),
                n + 2 <= isize::MAX,
                target == next_generation(n as int, board.live()),
                is_square(grid_cells(g), n + 2),
                forall|i: int, j: int|
                    0 <= i < n + 2 && 0 <= j < n + 2 ==> #[trigger] grid_cells(g)[i][j] == ((((1
                        <= i < x && 1 <= j <= n) || (i == x && 1 <= j < y))) && target.contains(
                        (i, j),
                    )),
            decreases n + 1 - y,
        {
            let v = next_cell(board, x, y);
            g.set(x, y, v);
            y += 1;
        }
        x += 1;
    }
    *board = DenseBoard { n, grid: g };
    assert(board.live() =~= target);
}

/// A board whose live cells are the interior cells with an even coordinate sum.
pub fn new_checkerboard(n: usize) -> (r: DenseBoard)
    requires
        side_fits(n as int),
    ensures
        r.wf(),
        r.side() == n,
        r.live() == checkerboard(n as int),
{
    proof {
        lemma_side_fits(n as int);
    }
    let ghost target = checkerboard(n as int);
    let mut g = Grid::blank(n + 2);
    let mut x: usize = 1;
    while x <= n
        invariant
            1 <= x <= n + 1,
            n + 2 <= isize::MAX,
            target == checkerboard(n as int),
            is_square(grid_cells(g), n + 2),
            forall|i: int, j: int|
                0 <= i < n + 2 && 0 <= j < n + 2 ==> #[trigger] grid_cells(g)[i][j] == (1 <= i
                    < x && 1 <= j <= n && target.contains((i, j))),
        decreases n + 1 - x,
    {
        let mut y: usize = 1;
        while y <= n
            invariant
                1 <= x <= n,
                1 <= y <= n + 1,
                n + 2 <= isize::MAX,
                target == checkerboard(n as int),
                is_square(grid_cells(g), n + 2),
                forall|i: int, j: int|
                    0 <= i < n + 2 && 0 <= j < n + 2 ==> #[trigger] grid_cells(g)[i][j] == ((((1
                        <= i < x && 1 <= j <= n) || (i == x && 1 <= j < y))) && target.contains(
                        (i, j),
                    )),
            decreases n + 1 - y,
        {
            g.set(x, y, (x + y) % 2 == 0);
            y += 1;
        }
        x += 1;
    }
    let r = DenseBoard { n, grid: g };
    assert(r.live() =~= target);
    r
}

/// Whether the cell that moves to interior cell `(x, y)` under `s` is live.
fn shift_cell(board: &DenseBoard, s: Shift, x: usize, y: usize) -> (r: bool)
    requires
        board.wf(),
        in_interior(board.side(), x as int, y as int),
    ensures
        r == board.live().contains(shift_source(s, x as int, y as int)),
{
    proof {
        board.lemma_cells();
    }
    let n = board.n;
    match s {
        Shift::Up(d) => {
            if d <= n - y {
                board.grid.get(x, y + d)
            } else {
                false
            }
        },
        Shift::Down(d) => {
            if d < y {
                board.grid.get(x, y - d)
            } else {
                false
            }
        },
        Shift::Left(d) => {
            if d <= n - x {
                board.grid.get(x + d, y)
            } else {
                false
            }
        },
        Shift::Right(d) => {
            if d < x {
                board.grid.get(x - d, y)
            } else {
                false
            }
        },
    }
}

/// Translates the live pattern by `s`. Cells pushed past the border are
/// dropped, not wrapped, and vacated cells become dead.
pub fn shift_board(board: &mut DenseBoard, s: Shift)
    requires
        old(board).wf(),
    ensures
        final(board).wf(),
        final(board).side() == old(board).side(),
        final(board).live() == shifted(old(board).side(), old(board).live(), s),
{
    let n = board.n;
    proof {
        lemma_side_fits(n as int);
    }
    let ghost target = shifted(n as int, board.live(), s);
    let mut g = Grid::blank(n + 2);
    let mut x: usize = 1;
    while x <= n
        invariant
            1 <= x <= n + 1,
            n == board.n,
            board.wf(),
            n + 2 <= isize::MAX,
            target == shifted(n as int, board.live(), s),
            is_square(grid_cells(g), n + 2),
            forall|i: int, j: int|
                0 <= i < n + 2 && 0 <= j < n + 2 ==> #[trigger] grid_cells(g)[i][j] == (1 <= i
                    < x && 1 <= j <= n && target.contains((i, j))),
        decreases n + 1 - x,
    {
        let mut y: usize = 1;
        while y <= n
            invariant
                1 <= x <= n,
                1 <= y <= n + 1,
                n == board.n,
                board.wf(),
                n + 2 <= isize::MAX,
                target == shifted(n as int, board.live(), s),
                is_square(grid_cells(g), n + 2),
                forall|i: int, j: int|
                    0 <= i < n + 2 && 0 <= j < n + 2 ==> #[trigger] grid_cells(g)[i][j] == ((((1
                        <= i < x && 1 <= j <= n) || (i == x && 1 <= j < y))) && target.contains(
                        (i, j),
                    )),
            decreases n + 1 - y,
        {
            let v = shift_cell(board, s, x, y);
            g.set(x, y, v);
            y += 1;
        }
        x += 1;
    }
    *board = DenseBoard { n, grid: g };
    assert(board.live() =~= target);
}

/// Toggles interior cell `(x, y)`; a position outside the interior is ignored.
pub fn edit_board(board: &mut DenseBoard, x: usize, y: usize)
    requires
        old(board).wf(),
    ensures
        final(board).wf(),
        final(board).side() == old(board).side(),
        final(board).live() == (if in_interior(old(board).side(), x as int, y as int) {
            if old(board).live().contains((x as int, y as int)) {
                old(board).live().remove((x as int, y as int))
            } else {
                old(board).live().insert((x as int, y as int))
            }
        } else {
            old(board).live()
        }),
{
    let ghost before = board.live();
    if x >= 1 && x <= board.n && y >= 1 && y <= board.n {
        let v = board.grid.get(x, y);
        board.grid.set(x, y, !v);
        if v {
            assert(board.live() =~= before.remove((x as int, y as int)));
        } else {
            assert(board.live() =~= before.insert((x as int, y as int)));
        }
    }
}

/// Makes `(x, y)` live; a position outside the interior is ignored.
pub fn set_cell(board: &mut DenseBoard, x: usize, y: usize)
    requires
        old(board).wf(),
    ensures
        final(board).wf(),
        final(board).side() == old(board).side(),
        final(board).live() == (if in_interior(old(board).side(), x as int, y as int) {
            old(board).live().insert((x as int, y as int))
        } else {
            old(board).live()
        }),
{
    let ghost before = board.live();
    if x >= 1 && x <= board.n && y >= 1 && y <= board.n {
        board.grid.set(x, y, true);
        assert(board.live() =~= before.insert((x as int, y as int)));
    }
}

impl DenseBoard {
    /// The live cells, column by column; this is what a renderer paints.
    pub fn live_cells(&self) -> (r: Vec<(usize, usize)>)
        requires
            self.wf(),
        ensures
            forall|p: (int, int)|
                self.live().contains(p) <==> exists|i: int|
                    0 <= i < r@.len() && #[trigger] r@[i] == (p.0 as usize, p.1 as usize)
                        && in_interior(self.side(), p.0, p.1),
            forall|i: int|
                0 <= i < r@.len() ==> self.live().contains(
                    (#[trigger] r@[i].0 as int, r@[i].1 as int),
                ),
            r@.no_duplicates(),
    {
        let n = self.n;
        proof {
            self.lemma_cells();
            lemma_side_fits(n as int);
        }
        let mut r: Vec<(usize, usize)> = Vec::new();
        let mut x: usize = 1;
        while x <= n
            invariant
                1 <= x <= n + 1,
                n == self.n,
                n + 2 <= isize::MAX,
                self.wf(),
                r@.no_duplicates(),
                forall|i: int| 0 <= i < r@.len() ==> (#[trigger] r@[i]).0 < x,
                forall|i: int|
                    0 <= i < r@.len() ==> self.live().contains(
                        (#[trigger] r@[i].0 as int, r@[i].1 as int),
                    ),
                forall|p: (int, int)|
                    self.live().contains(p) && p.0 < x ==> exists|i: int|
                        0 <= i < r@.len() && #[trigger] r@[i] == (p.0 as usize, p.1 as usize),
            decreases n + 1 - x,
        {
            let mut y: usize = 1;
            while y <= n
                invariant
                    1 <= x <= n,
                    1 <= y <= n + 1,
                    n == self.n,
                    n + 2 <= isize::MAX,
                    self.wf(),
                    r@.no_duplicates(),
                    forall|i: int|
                        0 <= i < r@.len() ==> (#[trigger] r@[i]).0 < x || (r@[i].0 == x && r@[i].1 < y),
                    forall|i: int|
                        0 <= i < r@.len() ==> self.live().contains(
                            (#[trigger] r@[i].0 as int, r@[i].1 as int),
                        ),
                    forall|p: (int, int)|
                        self.live().contains(p) && (p.0 < x || (p.0 == x && p.1 < y)) ==> exists|
                            i: int,
                        | 0 <= i < r@.len() && #[trigger] r@[i] == (p.0 as usize, p.1 as usize),
                decreases n + 1 - y,
            {
                if self.grid.get(x, y) {
                    let ghost old_r = r@;
                    r.push((x, y));
                    proof {
                        assert(r@[r@.len() - 1] == (x, y));
                        assert forall|p: (int, int)|
                            self.live().contains(p) && (p.0 < x || (p.0 == x && p.1 < y + 1))
                                implies exists|i: int|
                            0 <= i < r@.len() && #[trigger] r@[i] == (p.0 as usize, p.1 as usize) by {
                            if p.0 < x || (p.0 == x && p.1 < y) {
                                let i = choose|i: int|
                                    0 <= i < old_r.len() && #[trigger] old_r[i] == (p.0 as usize, p.1 as usize);
                                assert(r@[i] == old_r[i]);
                            } else {
                                assert(r@[r@.len() - 1] == (p.0 as usize, p.1 as usize));
                            }
                        }
                    }
                }
                y += 1;
            }
            x += 1;
        }
        proof {
            assert forall|p: (int, int)|
                self.live().contains(p) <==> exists|i: int|
                    0 <= i < r@.len() && #[trigger] r@[i] == (p.0 as usize, p.1 as usize)
                        && in_interior(self.side(), p.0, p.1) by {
                if exists|i: int|
                    0 <= i < r@.len() && #[trigger] r@[i] == (p.0 as usize, p.1 as usize)
                        && in_interior(self.side(), p.0, p.1) {
                    let i = choose|i: int|
                        0 <= i < r@.len() && #[trigger] r@[i] == (p.0 as usize, p.1 as usize)
                            && in_interior(self.side(), p.0, p.1);
                    assert(self.live().contains((r@[i].0 as int, r@[i].1 as int)));
                }
                if self.live().contains(p) {
                    let i = choose|i: int|
                        0 <= i < r@.len() && #[trigger] r@[i] == (p.0 as usize, p.1 as usize);
                }
            }
        }
        r
    }
}

/// Column `x` of the next generation, border cells included: the unit of
/// work when a generation is computed in parallel.
pub fn next_column(board: &DenseBoard, x: usize) -> (r: Vec<bool>)
    requires
        board.wf(),
        1 <= x <= board.side(),
    ensures
        r@.len() == board.side() + 2,
        forall|y: int|
            0 <= y < r@.len() ==> #[trigger] r@[y] == next_generation(board.side(), board.live()).contains(
                (x as int, y),
            ),
{
    let n = board.n;
    proof {
        lemma_side_fits(n as int);
    }
    let mut r: Vec<bool> = Vec::new();
    r.push(false);
    let mut y: usize = 1;
    while y <= n
        invariant
            1 <= y <= n + 1,
            n == board.n,
            board.wf(),
            1 <= x <= n,
            n + 2 <= isize::MAX,
            r@.len() == y,
            forall|j: int|
                0 <= j < y ==> #[trigger] r@[j] == next_generation(n as int, board.live()).contains(
                    (x as int, j),
                ),
        decreases n + 1 - y,
    {
        let v = next_cell(board, x, y);
        r.push(v);
        y += 1;
    }
    r.push(false);
    r
}

/// A board whose interior column `x` is `cols[x - 1]`, indexed by `y`; the
/// border entries of each column are ignored.
pub fn from_columns(n: usize, cols: &Vec<Vec<bool>>) -> (r: DenseBoard)
    requires
        side_fits(n as int),
        cols@.len() == n,
        forall|i: int| 0 <= i < n ==> (#[trigger] cols@[i])@.len() == n + 2,
    ensures
        r.wf(),
        r.side() == n,
        forall|p: (int, int)|
            #[trigger] r.live().contains(p) <==> in_interior(n as int, p.0, p.1) && cols@[p.0
                - 1]@[p.1],
{
    proof {
        lemma_side_fits(n as int);
    }
    let mut g = Grid::blank(n + 2);
    let mut x: usize = 1;
    while x <= n
        invariant
            1 <= x <= n + 1,
            n + 2 <= isize::MAX,
            cols@.len() == n,
            forall|i: int| 0 <= i < n ==> (#[trigger] cols@[i])@.len() == n + 2,
            is_square(grid_cells(g), n + 2),
            forall|i: int, j: int|
                0 <= i < n + 2 && 0 <= j < n + 2 ==> #[trigger] grid_cells(g)[i][j] == (1 <= i
                    < x && 1 <= j <= n && cols@[i - 1]@[j]),
        decreases n + 1 - x,
    {
        let col = &cols[x - 1];
        let mut y: usize = 1;
        while y <= n
            invariant
                1 <= x <= n,
                1 <= y <= n + 1,
                n + 2 <= isize::MAX,
                cols@.len() == n,
                col == cols@[x - 1],
                forall|i: int| 0 <= i < n ==> (#[trigger] cols@[i])@.len() == n + 2,
                is_square(grid_cells(g), n + 2),
                forall|i: int, j: int|
                    0 <= i < n + 2 && 0 <= j < n + 2 ==> #[trigger] grid_cells(g)[i][j] == ((((1
                        <= i < x && 1 <= j <= n) || (i == x && 1 <= j < y))) && cols@[i - 1]@[j]),
            decreases n + 1 - y,
        {
            g.set(x, y, col[y]);
            y += 1;
        }
        x += 1;
    }
    DenseBoard { n, grid: g }
}

} // verus!
