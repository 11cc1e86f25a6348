//! The mathematical model shared by both board representations.
use vstd::prelude::*;

verus! {

/// Side length of the interior used by the application.
pub const BOARD_SIZE: usize = 1024;

/// `(x, y)` lies in the playable interior `[1, n] x [1, n]`.
pub open spec fn in_interior(n: int, x: int, y: int) -> bool {
    1 <= x <= n && 1 <= y <= n
}

/// Every cell of `live` lies in the interior.
pub open spec fn within(n: int, live: Set<(int, int)>) -> bool {
    forall|p: (int, int)| #[trigger] live.contains(p) ==> in_interior(n, p.0, p.1)
}

pub open spec fn alive(live: Set<(int, int)>, x: int, y: int) -> int {
    if live.contains((x, y)) {
        1
    } else {
        0
    }
}

/// Number of live cells among the eight Moore neighbours of `(x, y)`.
pub open spec fn neighbor_count(live: Set<(int, int)>, x: int, y: int) -> int {
    alive(live, x - 1, y - 1) + alive(live, x, y - 1) + alive(live, x + 1, y - 1)
        + alive(live, x + 1, y) + alive(live, x + 1, y + 1) + alive(live, x, y + 1)
        + alive(live, x - 1, y + 1) + alive(live, x - 1, y)
}

/// The survival/birth rule: a live cell stays with 2 or 3 live neighbours, a
/// dead one is born with exactly 3.
pub open spec fn next_state(is_live: bool, count: int) -> bool {
    if is_live {
        count == 2 || count == 3
    } else {
        count == 3
    }
}

/// The live cells one generation after `live` on an `n x n` interior.
pub open spec fn next_generation(n: int, live: Set<(int, int)>) -> Set<(int, int)> {
    Set::new(
        |p: (int, int)|
            in_interior(n, p.0, p.1) && next_state(
                live.contains(p),
                neighbor_count(live, p.0, p.1),
            ),
    )
}

/// The live cells after `k` generations.
pub open spec fn generations(n: int, live: Set<(int, int)>, k: nat) -> Set<(int, int)>
    decreases k,
{
    if k == 0 {
        live
    } else {
        next_generation(n, generations(n, live, (k - 1) as nat))
    }
}

/// The checkerboard seed: interior cells whose coordinate sum is even.
pub open spec fn checkerboard(n: int) -> Set<(int, int)> {
    Set::new(|p: (int, int)| in_interior(n, p.0, p.1) && (p.0 + p.1) % 2 == 0)
}

/// `(x, y)` lies on the dead border ring of an `n x n` interior.
pub open spec fn on_border(n: int, x: int, y: int) -> bool {
    x == 0 || y == 0 || x == n + 1 || y == n + 1
}

/// A translation of the pattern by a number of cells in one axis direction.
/// `Up` moves cells towards smaller `y`, `Left` towards smaller `x`.
#[derive(Clone, Copy, Debug, PartialEq, Eq, Structural)]
pub enum Shift {
    Up(usize),
    Down(usize),
    Left(usize),
    Right(usize),
}

/// The cell whose state moves to `(x, y)` under `s`.
pub open spec fn shift_source(s: Shift, x: int, y: int) -> (int, int) {
    match s {
        Shift::Up(d) => (x, y + d),
        Shift::Down(d) => (x, y - d),
        Shift::Left(d) => (x + d, y),
        Shift::Right(d) => (x - d, y),
    }
}

/// The live cells after shifting: cells pushed past the border are dropped,
/// vacated cells are dead.
pub open spec fn shifted(n: int, live: Set<(int, int)>, s: Shift) -> Set<(int, int)> {
    Set::new(
        |p: (int, int)| in_interior(n, p.0, p.1) && live.contains(shift_source(s, p.0, p.1)),
    )
}

/// Whether `(x, y)` lies on the border ring of a board whose interior is `n x n`.
pub fn is_edges(n: usize, x: usize, y: usize) -> (r: bool)
    requires
        n < usize::MAX,
    ensures
        r == on_border(n as int, x as int, y as int),
{
    x == 0 || y == 0 || x == n + 1 || y == n + 1
}

} // verus!
