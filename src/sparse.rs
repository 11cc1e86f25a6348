//! The sparse representation: the set of live cells and the frontier of dead
//! cells next to them, so that a generation costs time in proportion to the
//! live population rather than to the board's area.
use vstd::prelude::*;
use std::collections::HashSet;
use crate::rules::{checkerboard, in_interior, neighbor_count, next_generation, on_border, within};

verus! {

broadcast use vstd::std_specs::hash::group_hash_axioms;

/// Cells are stored as keys `x * KEY_BASE + y`.
pub const KEY_BASE: u64 = 0x1_0000_0000;

/// The cell that key `k` stands for.
pub open spec fn cell_of(k: u64) -> (int, int) {
    ((k / KEY_BASE) as int, (k % KEY_BASE) as int)
}

/// `p` is one of the eight Moore neighbours of `q`.
pub open spec fn adjacent(p: (int, int), q: (int, int)) -> bool {
    &&& p != q
    &&& -1 <= p.0 - q.0 <= 1
    &&& -1 <= p.1 - q.1 <= 1
}

/// The frontier of `live`: the dead interior cells with at least one live
/// neighbour.
pub open spec fn frontier_of(n: int, live: Set<(int, int)>) -> Set<(int, int)> {
    Set::new(
        |p: (int, int)|
            in_interior(n, p.0, p.1) && !live.contains(p) && exists|q: (int, int)|
                #[trigger] live.contains(q) && adjacent(p, q),
    )
}

proof fn lemma_key_cell(x: u32, y: u32)
    ensures
        0 <= x * KEY_BASE + y <= u64::MAX,
        cell_of((x * KEY_BASE + y) as u64) == (x as int, y as int),
{
    assert(0 <= x * KEY_BASE + y <= u64::MAX) by (nonlinear_arith)
        requires
            0 <= x < KEY_BASE,
            0 <= y < KEY_BASE,
    ;
    let k = (x * KEY_BASE + y) as u64;
    vstd::arithmetic::div_mod::lemma_fundamental_div_mod_converse(
        k as int,
        KEY_BASE as int,
        x as int,
        y as int,
    );
}

proof fn lemma_cell_key(k: u64)
    ensures
        0 <= cell_of(k).0 < KEY_BASE,
        0 <= cell_of(k).1 < KEY_BASE,
        cell_of(k).0 * KEY_BASE + cell_of(k).1 == k,
{
    vstd::arithmetic::div_mod::lemma_fundamental_div_mod(k as int, KEY_BASE as int);
    assert(k / KEY_BASE < KEY_BASE) by (nonlinear_arith)
        requires
            k <= u64::MAX,
            KEY_BASE == 0x1_0000_0000,
    ;
}

/// Distinct keys stand for distinct cells.
proof fn lemma_cell_of_injective(k1: u64, k2: u64)
    ensures
        cell_of(k1) == cell_of(k2) ==> k1 == k2,
{
    lemma_cell_key(k1);
    lemma_cell_key(k2);
}

fn key(x: u32, y: u32) -> (r: u64)
    ensures
        cell_of(r) == (x as int, y as int),
{
    proof {
        lemma_key_cell(x, y);
    }
    (x as u64) * KEY_BASE + (y as u64)
}

fn cell(k: u64) -> (r: (u32, u32))
    ensures
        (r.0 as int, r.1 as int) == cell_of(k),
{
    proof {
        lemma_cell_key(k);
    }
    ((k / KEY_BASE) as u32, (k % KEY_BASE) as u32)
}

/// The cells that `keys` stand for.
pub open spec fn cells_of(keys: Set<u64>) -> Set<(int, int)> {
    keys.map(|k: u64| cell_of(k))
}

proof fn lemma_cells_of_contains(keys: Set<u64>, k: u64)
    ensures
        cells_of(keys).contains(cell_of(k)) == keys.contains(k),
{
    if cells_of(keys).contains(cell_of(k)) {
        let k2 = choose|k2: u64| keys.contains(k2) && cell_of(k2) == cell_of(k);
        lemma_cell_of_injective(k, k2);
    }
}

/// `list` holds exactly the keys of `set`, each once.
pub open spec fn lists(list: Seq<u64>, set: Set<u64>) -> bool {
    &&& list.no_duplicates()
    &&& forall|k: u64| #[trigger] set.contains(k) <==> list.contains(k)
}

/// The eight Moore neighbours of an interior cell.
pub fn get_neighbors(pos: &(u32, u32)) -> (r: [(u32, u32); 8])
    requires
        1 <= pos.0 < u32::MAX,
        1 <= pos.1 < u32::MAX,
    ensures
        r@ == seq![
            ((pos.0 - 1) as u32, (pos.1 - 1) as u32),
            (pos.0, (pos.1 - 1) as u32),
            ((pos.0 + 1) as u32, (pos.1 - 1) as u32),
            ((pos.0 + 1) as u32, pos.1),
            ((pos.0 + 1) as u32, (pos.1 + 1) as u32),
            (pos.0, (pos.1 + 1) as u32),
            ((pos.0 - 1) as u32, (pos.1 + 1) as u32),
            ((pos.0 - 1) as u32, pos.1),
        ],
{
    let (x, y) = *pos;
    let r = [
        (x - 1, y - 1),
        (x, y - 1),
        (x + 1, y - 1),
        (x + 1, y),
        (x + 1, y + 1),
        (x, y + 1),
        (x - 1, y + 1),
        (x - 1, y),
    ];
    assert(r@ =~= seq![
            ((pos.0 - 1) as u32, (pos.1 - 1) as u32),
            (pos.0, (pos.1 - 1) as u32),
            ((pos.0 + 1) as u32, (pos.1 - 1) as u32),
            ((pos.0 + 1) as u32, pos.1),
            ((pos.0 + 1) as u32, (pos.1 + 1) as u32),
            (pos.0, (pos.1 + 1) as u32),
            ((pos.0 - 1) as u32, (pos.1 + 1) as u32),
            ((pos.0 - 1) as u32, pos.1),
        ]);
    r
}

/// Whether `pos` lies on the border ring of a board whose interior is `n x n`.
pub fn is_edge(n: u32, pos: &(u32, u32)) -> (r: bool)
    requires
        n < u32::MAX,
    ensures
        r == on_border(n as int, pos.0 as int, pos.1 as int),
{
    pos.0 == 0 || pos.1 == 0 || pos.0 == n + 1 || pos.1 == n + 1
}

/// Adds `p` to the frontier under construction when it is an interior cell
/// that is not live and not yet there.
fn add_candidate(
    n: u32,
    active: &HashSet<u64>,
    fset: &mut HashSet<u64>,
    flist: &mut Vec<u64>,
    p: (u32, u32),
)
    requires
        n < u32::MAX,
        p.0 <= n + 1,
        p.1 <= n + 1,
        lists(old(flist)@, old(fset)@),
    ensures
        lists(final(flist)@, final(fset)@),
        forall|k: u64|
            #[trigger] final(fset)@.contains(k) <==> (old(fset)@.contains(k) || (cell_of(k) == (
                p.0 as int,
                p.1 as int,
            ) && in_interior(n as int, p.0 as int, p.1 as int) && !active@.contains(k))),
{
    if !is_edge(n, &p) {
        let k = key(p.0, p.1);
        if !active.contains(&k) && !fset.contains(&k) {
            fset.insert(k);
            flist.push(k);
            proof {
                assert forall|j: u64| #[trigger] fset@.contains(j) <==> flist@.contains(j) by {
                    if j != k {
                        if old(fset)@.contains(j) {
                            assert(old(flist)@.contains(j));
                            let idx = choose|idx: int| 0 <= idx < old(flist)@.len() && old(flist)@[idx] == j;
                            assert(flist@[idx] == j);
                        }
                        if flist@.contains(j) {
                            let idx = choose|idx: int| 0 <= idx < flist@.len() && flist@[idx] == j;
                            assert(old(flist)@[idx] == j);
                        }
                    } else {
                        assert(flist@[flist@.len() - 1] == j);
                    }
                }
            }
        }
        proof {
            assert forall|j: u64|
                #[trigger] fset@.contains(j) <==> (old(fset)@.contains(j) || (cell_of(j) == (
                    p.0 as int,
                    p.1 as int,
                ) && in_interior(n as int, p.0 as int, p.1 as int) && !active@.contains(j))) by {
                lemma_cell_of_injective(j, k);
            }
        }
    }
}

/// The frontier of the live cells with keys `active`, listed in `list`: the
/// keys of the dead interior cells next to at least one live cell.
pub fn find_neighbor_cells(n: u32, active: &HashSet<u64>, list: &Vec<u64>) -> (r: (
    HashSet<u64>,
    Vec<u64>,
))
    requires
        n < u32::MAX - 1,
        lists(list@, active@),
        forall|k: u64| #[trigger] active@.contains(k) ==> in_interior(n as int, cell_of(k).0, cell_of(k).1),
    ensures
        lists(r.1@, r.0@),
        forall|k: u64|
            #[trigger] r.0@.contains(k) <==> frontier_of(n as int, cells_of(active@)).contains(
                cell_of(k),
            ),
{
    let mut fset: HashSet<u64> = HashSet::new();
    let mut flist: Vec<u64> = Vec::new();
    let mut i: usize = 0;
    while i < list.len()
        invariant
            n < u32::MAX - 1,
            i <= list@.len(),
            lists(list@, active@),
            forall|k: u64| #[trigger] active@.contains(k) ==> in_interior(n as int, cell_of(k).0, cell_of(k).1),
            lists(flist@, fset@),
            forall|k: u64|
                #[trigger] fset@.contains(k) <==> (in_interior(n as int, cell_of(k).0, cell_of(k).1)
                    && !active@.contains(k) && exists|idx: int|
                    0 <= idx < i && #[trigger] adjacent(cell_of(k), cell_of(list@[idx]))),
        decreases list@.len() - i,
    {
        let c = cell(list[i]);
        assert(active@.contains(list@[i as int]));
        let ghost before = fset@;
        let nb = get_neighbors(&c);
        add_candidate(n, active, &mut fset, &mut flist, nb[0]);
        add_candidate(n, active, &mut fset, &mut flist, nb[1]);
        add_candidate(n, active, &mut fset, &mut flist, nb[2]);
        add_candidate(n, active, &mut fset, &mut flist, nb[3]);
        add_candidate(n, active, &mut fset, &mut flist, nb[4]);
        add_candidate(n, active, &mut fset, &mut flist, nb[5]);
        add_candidate(n, active, &mut fset, &mut flist, nb[6]);
        add_candidate(n, active, &mut fset, &mut flist, nb[7]);
        proof {
            assert forall|k: u64|
                #[trigger] fset@.contains(k) <==> (in_interior(n as int, cell_of(k).0, cell_of(k).1)
                    && !active@.contains(k) && exists|idx: int|
                    0 <= idx < i + 1 && #[trigger] adjacent(cell_of(k), cell_of(list@[idx]))) by {
                if exists|idx: int| 0 <= idx < i + 1 && #[trigger] adjacent(cell_of(k), cell_of(list@[idx])) {
                    let idx = choose|idx: int| 0 <= idx < i + 1 && #[trigger] adjacent(cell_of(k), cell_of(list@[idx]));
                    if idx < i {
                    } else {
                        assert(adjacent(cell_of(k), cell_of(list@[i as int])));
                    }
                }
                if before.contains(k) {
                    let idx = choose|idx: int| 0 <= idx < i && #[trigger] adjacent(cell_of(k), cell_of(list@[idx]));
                    assert(0 <= idx < i + 1 && adjacent(cell_of(k), cell_of(list@[idx])));
                }
                if adjacent(cell_of(k), cell_of(list@[i as int])) && in_interior(n as int, cell_of(k).0, cell_of(k).1)
                    && !active@.contains(k) {
                    assert(0 <= i < i + 1 && adjacent(cell_of(k), cell_of(list@[i as int])));
                }
            }
        }
        i += 1;
    }
    proof {
        assert forall|k: u64|
            #[trigger] fset@.contains(k) <==> frontier_of(n as int, cells_of(active@)).contains(
                cell_of(k),
            ) by {
            lemma_cells_of_contains(active@, k);
            if fset@.contains(k) {
                let idx = choose|idx: int| 0 <= idx < i && #[trigger] adjacent(cell_of(k), cell_of(list@[idx]));
                assert(active@.contains(list@[idx]));
                assert(cells_of(active@).contains(cell_of(list@[idx])));
            }
            if frontier_of(n as int, cells_of(active@)).contains(cell_of(k)) {
                let q = choose|q: (int, int)| #[trigger] cells_of(active@).contains(q) && adjacent(cell_of(k), q);
                let kq = choose|kq: u64| active@.contains(kq) && cell_of(kq) == q;
                assert(list@.contains(kq));
                let idx = choose|idx: int| 0 <= idx < list@.len() && list@[idx] == kq;
                assert(adjacent(cell_of(k), cell_of(list@[idx])));
            }
        }
    }
    (fset, flist)
}

/// A cell with a live neighbour has a live cell adjacent to it.
proof fn lemma_count_positive(live: Set<(int, int)>, x: int, y: int)
    requires
        neighbor_count(live, x, y) > 0,
    ensures
        exists|q: (int, int)| #[trigger] live.contains(q) && adjacent((x, y), q),
{
    if live.contains((x - 1, y - 1)) {
        assert(adjacent((x, y), (x - 1, y - 1)));
    } else if live.contains((x, y - 1)) {
        assert(adjacent((x, y), (x, y - 1)));
    } else if live.contains((x + 1, y - 1)) {
        assert(adjacent((x, y), (x + 1, y - 1)));
    } else if live.contains((x + 1, y)) {
        assert(adjacent((x, y), (x + 1, y)));
    } else if live.contains((x + 1, y + 1)) {
        assert(adjacent((x, y), (x + 1, y + 1)));
    } else if live.contains((x, y + 1)) {
        assert(adjacent((x, y), (x, y + 1)));
    } else if live.contains((x - 1, y + 1)) {
        assert(adjacent((x, y), (x - 1, y + 1)));
    } else {
        assert(live.contains((x - 1, y)));
        assert(adjacent((x, y), (x - 1, y)));
    }
}

fn live_at(active: &HashSet<u64>, x: u32, y: u32) -> (r: u8)
    ensures
        r == (if cells_of(active@).contains((x as int, y as int)) { 1int } else { 0int }),
{
    let k = key(x, y);
    proof {
        lemma_cells_of_contains(active@, k);
    }
    if active.contains(&k) {
        1
    } else {
        0
    }
}

/// Number of live neighbours of interior cell `(x, y)`.
fn count_live(active: &HashSet<u64>, x: u32, y: u32) -> (r: u8)
    requires
        1 <= x < u32::MAX,
        1 <= y < u32::MAX,
    ensures
        r == neighbor_count(cells_of(active@), x as int, y as int),
{
    let nb = get_neighbors(&(x, y));
    live_at(active, nb[0].0, nb[0].1) + live_at(active, nb[1].0, nb[1].1) + live_at(
        active,
        nb[2].0,
        nb[2].1,
    ) + live_at(active, nb[3].0, nb[3].1) + live_at(active, nb[4].0, nb[4].1) + live_at(
        active,
        nb[5].0,
        nb[5].1,
    ) + live_at(active, nb[6].0, nb[6].1) + live_at(active, nb[7].0, nb[7].1)
}

/// A key set that holds exactly the keys of the cells of `target` stands for `target`.
proof fn lemma_cells_exact(keys: Set<u64>, target: Set<(int, int)>, n: int)
    requires
        n < u32::MAX,
        forall|k: u64| #[trigger] keys.contains(k) <==> target.contains(cell_of(k)),
        forall|p: (int, int)| #[trigger] target.contains(p) ==> in_interior(n, p.0, p.1),
    ensures
        cells_of(keys) == target,
{
    assert forall|p: (int, int)| #[trigger] target.contains(p) implies cells_of(keys).contains(p) by {
        lemma_key_cell(p.0 as u32, p.1 as u32);
        let k = (p.0 * KEY_BASE + p.1) as u64;
        assert(keys.contains(k));
    }
    assert(cells_of(keys) =~= target);
}

/// A board kept as its set of live cells and their frontier.
pub struct LifeBoard {
    n: u32,
    active: HashSet<u64>,
    active_list: Vec<u64>,
    neighbors: HashSet<u64>,
    neighbor_list: Vec<u64>,
}

impl LifeBoard {
    /// Side length of the interior.
    pub closed spec fn side(&self) -> int {
        self.n as int
    }

    /// The live cells.
    pub closed spec fn live(&self) -> Set<(int, int)> {
        cells_of(self.active@)
    }

    /// The frontier kept beside the live cells.
    pub closed spec fn frontier(&self) -> Set<(int, int)> {
        cells_of(self.neighbors@)
    }

    /// Live cells lie in the interior, and the frontier is exactly the dead
    /// interior cells next to a live one.
    pub closed spec fn wf(&self) -> bool {
        &&& self.n < u32::MAX - 1
        &&& lists(self.active_list@, self.active@)
        &&& lists(self.neighbor_list@, self.neighbors@)
        &&& forall|k: u64| #[trigger]
            self.active@.contains(k) ==> in_interior(self.n as int, cell_of(k).0, cell_of(k).1)
        &&& forall|k: u64| #[trigger]
            self.neighbors@.contains(k) <==> frontier_of(self.n as int, cells_of(self.active@)).contains(
                cell_of(k),
            )
    }

    /// Builds a board from live keys, computing the frontier.
    fn from_keys(n: u32, active: HashSet<u64>, active_list: Vec<u64>) -> (r: LifeBoard)
        requires
            n < u32::MAX - 1,
            lists(active_list@, active@),
            forall|k: u64| #[trigger] active@.contains(k) ==> in_interior(n as int, cell_of(k).0, cell_of(k).1),
        ensures
            r.wf(),
            r.side() == n,
            r.live() == cells_of(active@),
    {
        let (neighbors, neighbor_list) = find_neighbor_cells(n, &active, &active_list);
        LifeBoard { n, active, active_list, neighbors, neighbor_list }
    }

    /// Advances the board by one generation: live cells survive with 2 or 3
    /// live neighbours, frontier cells are born with exactly 3, and the
    /// frontier is then recomputed.
    pub fn update(&mut self)
        requires
            old(self).wf(),
        ensures
            final(self).wf(),
            final(self).side() == old(self).side(),
            final(self).live() == next_generation(old(self).side(), old(self).live()),
    {
        let n = self.n;
        let ghost live = self.live();
        let ghost target = next_generation(n as int, live);
        let mut new_set: HashSet<u64> = HashSet::new();
        let mut new_list: Vec<u64> = Vec::new();
        let mut i: usize = 0;
        while i < self.active_list.len()
            invariant
                self.wf(),
                n == self.n,
                live == self.live(),
                target == next_generation(n as int, live),
                i <= self.active_list@.len(),
                lists(new_list@, new_set@),
                forall|k: u64|
                    #[trigger] new_set@.contains(k) <==> (target.contains(cell_of(k)) && exists|
                        idx: int,
                    | 0 <= idx < i && self.active_list@[idx] == k),
            decreases self.active_list@.len() - i,
        {
            let k = self.active_list[i];
            assert(self.active@.contains(k));
            let c = cell(k);
            let count = count_live(&self.active, c.0, c.1);
            proof {
                lemma_cells_of_contains(self.active@, k);
            }
            if count == 2 || count == 3 {
                push_key(&mut new_set, &mut new_list, k);
            }
            proof {
                assert forall|j: u64|
                    #[trigger] new_set@.contains(j) <==> (target.contains(cell_of(j)) && exists|
                        idx: int,
                    | 0 <= idx < i + 1 && self.active_list@[idx] == j) by {
                    lemma_cell_of_injective(j, k);
                    if exists|idx: int| 0 <= idx < i + 1 && self.active_list@[idx] == j {
                        let idx = choose|idx: int| 0 <= idx < i + 1 && self.active_list@[idx] == j;
                        if idx < i {
                        }
                    }
                }
            }
            i += 1;
        }
        let mut j: usize = 0;
        while j < self.neighbor_list.len()
            invariant
                self.wf(),
                n == self.n,
                live == self.live(),
                target == next_generation(n as int, live),
                j <= self.neighbor_list@.len(),
                lists(new_list@, new_set@),
                forall|k: u64|
                    #[trigger] new_set@.contains(k) <==> (target.contains(cell_of(k)) && (
                    self.active@.contains(k) || exists|idx: int|
                        0 <= idx < j && self.neighbor_list@[idx] == k)),
            decreases self.neighbor_list@.len() - j,
        {
            let k = self.neighbor_list[j];
            assert(self.neighbors@.contains(k));
            let c = cell(k);
            let count = count_live(&self.active, c.0, c.1);
            proof {
                lemma_cells_of_contains(self.active@, k);
            }
            if count == 3 {
                push_key(&mut new_set, &mut new_list, k);
            }
            proof {
                assert forall|m: u64|
                    #[trigger] new_set@.contains(m) <==> (target.contains(cell_of(m)) && (
                    self.active@.contains(m) || exists|idx: int|
                        0 <= idx < j + 1 && self.neighbor_list@[idx] == m)) by {
                    lemma_cell_of_injective(m, k);
                    if exists|idx: int| 0 <= idx < j + 1 && self.neighbor_list@[idx] == m {
                        let idx = choose|idx: int| 0 <= idx < j + 1 && self.neighbor_list@[idx] == m;
                        if idx < j {
                        }
                    }
                }
            }
            j += 1;
        }
        proof {
            assert forall|k: u64| #[trigger] new_set@.contains(k) <==> target.contains(cell_of(k)) by {
                lemma_cells_of_contains(self.active@, k);
                if target.contains(cell_of(k)) && !self.active@.contains(k) {
                    lemma_count_positive(live, cell_of(k).0, cell_of(k).1);
                    assert(frontier_of(n as int, live).contains(cell_of(k)));
                    assert(self.neighbors@.contains(k));
                    assert(self.neighbor_list@.contains(k));
                    let idx = choose|idx: int| 0 <= idx < self.neighbor_list@.len() && self.neighbor_list@[idx] == k;
                    assert(0 <= idx < self.neighbor_list@.len() && self.neighbor_list@[idx] == k);
                }
            }
            assert forall|k: u64| #[trigger] new_set@.contains(k) implies in_interior(
                n as int,
                cell_of(k).0,
                cell_of(k).1,
            ) by {}
            assert forall|p: (int, int)| #[trigger] target.contains(p) implies cells_of(new_set@).contains(p) by {
                lemma_key_cell(p.0 as u32, p.1 as u32);
                let k = (p.0 * KEY_BASE + p.1) as u64;
                assert(new_set@.contains(k));
            }
            assert(cells_of(new_set@) =~= target);
        }
        *self = LifeBoard::from_keys(n, new_set, new_list);
    }
}

/// Inserts `k` into a set and its list.
fn push_key(set: &mut HashSet<u64>, list: &mut Vec<u64>, k: u64)
    requires
        lists(old(list)@, old(set)@),
    ensures
        lists(final(list)@, final(set)@),
        final(set)@ == old(set)@.insert(k),
{
    if !set.insert(k) {
        return;
    }
    list.push(k);
    proof {
        assert forall|j: u64| #[trigger] set@.contains(j) <==> list@.contains(j) by {
            if old(set)@.contains(j) {
                assert(old(list)@.contains(j));
                let idx = choose|idx: int| 0 <= idx < old(list)@.len() && old(list)@[idx] == j;
                assert(list@[idx] == j);
            }
            if list@.contains(j) && j != k {
                let idx = choose|idx: int| 0 <= idx < list@.len() && list@[idx] == j;
                assert(old(list)@[idx] == j);
            }
            if j == k {
                assert(list@[list@.len() - 1] == j);
            }
        }
    }
}

impl LifeBoard {
    /// A well-formed board keeps its live cells in the interior and its
    /// frontier equal to the dead interior cells next to a live one, disjoint
    /// from the live cells.
    pub proof fn lemma_wf(&self)
        requires
            self.wf(),
        ensures
            self.side() < u32::MAX - 1,
            within(self.side(), self.live()),
            self.frontier() == frontier_of(self.side(), self.live()),
            self.frontier().disjoint(self.live()),
    {
        assert forall|p: (int, int)| #[trigger] self.live().contains(p) implies in_interior(
            self.side(),
            p.0,
            p.1,
        ) by {
            let k = choose|k: u64| self.active@.contains(k) && cell_of(k) == p;
        }
        assert forall|p: (int, int)| #[trigger] frontier_of(self.side(), self.live()).contains(p)
            implies self.frontier().contains(p) by {
            lemma_key_cell(p.0 as u32, p.1 as u32);
            let k = (p.0 * KEY_BASE + p.1) as u64;
            assert(self.neighbors@.contains(k));
        }
        assert(self.frontier() =~= frontier_of(self.side(), self.live()));
    }

    /// Side length of the interior.
    pub fn size(&self) -> (r: u32)
        ensures
            r == self.side(),
    {
        self.n
    }

    /// Whether `(x, y)` is live.
    pub fn is_live(&self, x: u32, y: u32) -> (r: bool)
        ensures
            r == self.live().contains((x as int, y as int)),
    {
        live_at(&self.active, x, y) == 1
    }

    /// A board whose live cells are the interior cells with an even
    /// coordinate sum.
    pub fn new_checkerboard(n: u32) -> (r: LifeBoard)
        requires
            n < u32::MAX - 1,
        ensures
            r.wf(),
            r.side() == n,
            r.live() == checkerboard(n as int),
    {
        let ghost target = checkerboard(n as int);
        let mut set: HashSet<u64> = HashSet::new();
        let mut list: Vec<u64> = Vec::new();
        let mut x: u32 = 1;
        while x <= n
            invariant
                1 <= x <= n + 1,
                n < u32::MAX - 1,
                target == checkerboard(n as int),
                lists(list@, set@),
                forall|k: u64|
                    #[trigger] set@.contains(k) <==> (target.contains(cell_of(k)) && cell_of(k).0 < x),
            decreases n + 1 - x,
        {
            let mut y: u32 = 1;
            while y <= n
                invariant
                    1 <= x <= n,
                    1 <= y <= n + 1,
                    n < u32::MAX - 1,
                    target == checkerboard(n as int),
                    lists(list@, set@),
                    forall|k: u64|
                        #[trigger] set@.contains(k) <==> (target.contains(cell_of(k)) && (cell_of(k).0
                            < x || (cell_of(k).0 == x && cell_of(k).1 < y))),
                decreases n + 1 - y,
            {
                if (x as u64 + y as u64) % 2 == 0 {
                    let k = key(x, y);
                    push_key(&mut set, &mut list, k);
                    proof {
                        assert forall|j: u64| #[trigger] set@.contains(j) <==> (target.contains(cell_of(j))
                            && (cell_of(j).0 < x || (cell_of(j).0 == x && cell_of(j).1 < y + 1))) by {
                            lemma_cell_of_injective(j, k);
                        }
                    }
                }
                y += 1;
            }
            x += 1;
        }
        proof {
            lemma_cells_exact(set@, target, n as int);
        }
        LifeBoard::from_keys(n, set, list)
    }

    /// A board whose live cells are the interior cells among `cells`;
    /// positions outside the interior are dropped.
    pub fn from_cells(n: u32, cells: &Vec<(u32, u32)>) -> (r: LifeBoard)
        requires
            n < u32::MAX - 1,
        ensures
            r.wf(),
            r.side() == n,
            r.live() == listed_cells(n as int, cells@),
    {
        let ghost target = listed_cells(n as int, cells@);
        let mut set: HashSet<u64> = HashSet::new();
        let mut list: Vec<u64> = Vec::new();
        let mut i: usize = 0;
        while i < cells.len()
            invariant
                i <= cells@.len(),
                n < u32::MAX - 1,
                target == listed_cells(n as int, cells@),
                lists(list@, set@),
                forall|k: u64|
                    #[trigger] set@.contains(k) <==> (in_interior(n as int, cell_of(k).0, cell_of(k).1)
                        && exists|idx: int| 0 <= idx < i && #[trigger] listed_at(cells@, idx, cell_of(k))),
            decreases cells@.len() - i,
        {
            let (x, y) = cells[i];
            if x >= 1 && x <= n && y >= 1 && y <= n {
                let k = key(x, y);
                push_key(&mut set, &mut list, k);
            }
            proof {
                assert forall|j: u64| #[trigger] set@.contains(j) <==> (in_interior(n as int, cell_of(j).0, cell_of(j).1)
                    && exists|idx: int| 0 <= idx < i + 1 && #[trigger] listed_at(cells@, idx, cell_of(j))) by {
                    lemma_key_cell(x, y);
                    lemma_cell_of_injective(j, (x * KEY_BASE + y) as u64);
                    if exists|idx: int| 0 <= idx < i + 1 && #[trigger] listed_at(cells@, idx, cell_of(j)) {
                        let idx = choose|idx: int| 0 <= idx < i + 1 && #[trigger] listed_at(cells@, idx, cell_of(j));
                        if idx < i {
                        }
                    }
                    if listed_at(cells@, i as int, cell_of(j)) {
                        assert(0 <= i < i + 1 && listed_at(cells@, i as int, cell_of(j)));
                    }
                }
            }
            i += 1;
        }
        proof {
            assert forall|k: u64| #[trigger] set@.contains(k) <==> target.contains(cell_of(k)) by {}
            lemma_cells_exact(set@, target, n as int);
        }
        LifeBoard::from_keys(n, set, list)
    }
}

/// Entry `idx` of `cells` is the cell `p`.
pub open spec fn listed_at(cells: Seq<(u32, u32)>, idx: int, p: (int, int)) -> bool {
    cells[idx].0 as int == p.0 && cells[idx].1 as int == p.1
}

/// The interior cells among `cells`.
pub open spec fn listed_cells(n: int, cells: Seq<(u32, u32)>) -> Set<(int, int)> {
    Set::new(
        |p: (int, int)|
            in_interior(n, p.0, p.1) && exists|idx: int|
                0 <= idx < cells.len() && #[trigger] listed_at(cells, idx, p),
    )
}

/// The display bucket of cell `p` when a bucket covers `c x c` cells.
pub open spec fn bucket_of(p: (int, int), c: int) -> (int, int) {
    ((p.0 - 1) / c, (p.1 - 1) / c)
}

/// Number of buckets along each side of an `n x n` interior.
pub open spec fn buckets_per_side(n: int, c: int) -> int {
    (n + c - 1) / c
}

/// The live cells that fall in bucket `b`.
pub open spec fn bucket_cells(live: Set<(int, int)>, c: int, b: (int, int)) -> Set<(int, int)> {
    Set::new(|p: (int, int)| live.contains(p) && bucket_of(p, c) == b)
}

/// The cells of the first `i` keys of `list` that fall in bucket `b`.
spec fn counted(list: Seq<u64>, i: int, c: int, b: (int, int)) -> Set<(int, int)> {
    Set::new(
        |p: (int, int)|
            bucket_of(p, c) == b && exists|idx: int|
                0 <= idx < i && #[trigger] cell_of(list[idx]) == p,
    )
}

proof fn lemma_flat_index(bx: int, by: int, m: int, k: int)
    requires
        0 <= bx < m,
        0 <= by < m,
        0 <= k,
    ensures
        0 <= bx * m + by < m * m,
        (bx * m + by) / m == bx,
        (bx * m + by) % m == by,
        k / m == bx && k % m == by ==> k == bx * m + by,
{
    assert(0 <= bx * m + by < m * m) by (nonlinear_arith)
        requires
            0 <= bx < m,
            0 <= by < m,
    ;
    vstd::arithmetic::div_mod::lemma_fundamental_div_mod_converse(bx * m + by, m, bx, by);
    vstd::arithmetic::div_mod::lemma_fundamental_div_mod(k, m);
    if k / m == bx && k % m == by {
        assert(k == bx * m + by) by (nonlinear_arith)
            requires
                k == m * (k / m) + k % m,
                k / m == bx,
                k % m == by,
        ;
    }
}

impl LifeBoard {
    /// Live-cell counts of the display buckets, each covering `c x c`
    /// cells, as a flat table: bucket `(bx, by)` stands at `bx * m + by`,
    /// where `m` buckets cover each side. A renderer turns each count into
    /// an intensity.
    pub fn density(&self, c: u32) -> (r: Vec<usize>)
        requires
            self.wf(),
            c >= 1,
            self.side() * self.side() <= usize::MAX,
        ensures
            r@.len() == buckets_per_side(self.side(), c as int) * buckets_per_side(self.side(), c as int),
            forall|bx: int, by: int|
                0 <= bx < buckets_per_side(self.side(), c as int) && 0 <= by < buckets_per_side(
                    self.side(),
                    c as int,
                ) ==> r@[bx * buckets_per_side(self.side(), c as int) + by] == #[trigger] bucket_cells(
                    self.live(),
                    c as int,
                    (bx, by),
                ).len(),
    {
        let ghost ci = c as int;
        let m64: u64 = (self.n as u64 + c as u64 - 1) / c as u64;
        let ghost m = m64 as int;
        assert(m <= self.n) by (nonlinear_arith)
            requires
                m == (self.n + c - 1) / (c as int),
                c >= 1,
        ;
        assert(m * m <= self.n * self.n) by (nonlinear_arith)
            requires
                0 <= m <= self.n,
        ;
        let m = m64 as usize;
        let total = m * m;
        let mut r: Vec<usize> = Vec::new();
        while r.len() < total
            invariant
                r@.len() <= total,
                forall|k: int| 0 <= k < r@.len() ==> r@[k] == 0,
            decreases total - r@.len(),
        {
            r.push(0);
        }
        let list = &self.active_list;
        proof {
            assert forall|k: int| 0 <= k < total implies #[trigger] r@[k] == counted(list@, 0, ci, (k / m as int, k % m as int)).len()
                && counted(list@, 0, ci, (k / m as int, k % m as int)).finite() && r@[k] <= 0 by {
                assert(counted(list@, 0, ci, (k / m as int, k % m as int)) =~= Set::empty());
            }
        }
        let mut i: usize = 0;
        while i < list.len()
            invariant
                self.wf(),
                list == &self.active_list,
                i <= list@.len(),
                c >= 1,
                ci == c,
                m == (self.n + c - 1) / (c as int),
                total == m * m,
                r@.len() == total,
                forall|k: int|
                    0 <= k < total ==> #[trigger] r@[k] == counted(list@, i as int, ci, (k / m as int, k % m as int)).len()
                        && counted(list@, i as int, ci, (k / m as int, k % m as int)).finite()
                        && r@[k] <= i,
            decreases list@.len() - i,
        {
            let key_i = list[i];
            assert(self.active@.contains(key_i));
            let (x, y) = cell(key_i);
            let bx = ((x - 1) / c) as usize;
            let by = ((y - 1) / c) as usize;
            assert(bx < m && by < m) by (nonlinear_arith)
                requires
                    1 <= x <= self.n,
                    1 <= y <= self.n,
                    bx == (x - 1) / (c as int),
                    by == (y - 1) / (c as int),
                    m == (self.n + c - 1) / (c as int),
                    c >= 1,
            ;
            proof {
                lemma_flat_index(bx as int, by as int, m as int, 0);
            }
            let t = bx * m + by;
            let ghost old_r = r@;
            let v = r[t];
            r.set(t, v + 1);
            proof {
                let cp = cell_of(key_i);
                assert forall|k: int|
                    0 <= k < total implies #[trigger] r@[k] == counted(list@, i + 1, ci, (k / m as int, k % m as int)).len()
                        && counted(list@, i + 1, ci, (k / m as int, k % m as int)).finite()
                        && r@[k] <= i + 1 by {
                    let b = (k / m as int, k % m as int);
                    lemma_flat_index(bx as int, by as int, m as int, k);
                    assert(old_r[k] == counted(list@, i as int, ci, b).len());
                    assert(counted(list@, i as int, ci, b).finite());
                    assert(old_r[k] <= i);
                    assert(!counted(list@, i as int, ci, b).contains(cp)) by {
                        if counted(list@, i as int, ci, b).contains(cp) {
                            let idx = choose|idx: int| 0 <= idx < i && #[trigger] cell_of(list@[idx]) == cp;
                            lemma_cell_of_injective(list@[idx], key_i);
                        }
                    }
                    if k == t {
                        assert(counted(list@, i + 1, ci, b) =~= counted(list@, i as int, ci, b).insert(cp)) by {
                            assert(cell_of(list@[i as int]) == cp);
                        }
                    } else {
                        assert(counted(list@, i + 1, ci, b) =~= counted(list@, i as int, ci, b)) by {
                            assert(bucket_of(cp, ci) == (bx as int, by as int));
                        }
                    }
                }
            }
            i += 1;
        }
        proof {
            assert forall|bx: int, by: int|
                0 <= bx < m && 0 <= by < m implies r@[bx * m + by] == #[trigger] bucket_cells(
                    self.live(),
                    ci,
                    (bx, by),
                ).len() by {
                lemma_flat_index(bx, by, m as int, 0);
                let k = bx * m + by;
                assert(r@[k] == counted(list@, list@.len() as int, ci, (k / m as int, k % m as int)).len());
                assert(counted(list@, list@.len() as int, ci, (bx, by)) =~= bucket_cells(self.live(), ci, (bx, by))) by {
                    assert forall|p: (int, int)| #[trigger] bucket_cells(self.live(), ci, (bx, by)).contains(p)
                        implies counted(list@, list@.len() as int, ci, (bx, by)).contains(p) by {
                        let kk = choose|kk: u64| self.active@.contains(kk) && cell_of(kk) == p;
                        assert(list@.contains(kk));
                        let idx = choose|idx: int| 0 <= idx < list@.len() && list@[idx] == kk;
                        assert(cell_of(list@[idx]) == p);
                    }
                    assert forall|p: (int, int)| #[trigger] counted(list@, list@.len() as int, ci, (bx, by)).contains(p)
                        implies bucket_cells(self.live(), ci, (bx, by)).contains(p) by {
                        let idx = choose|idx: int| 0 <= idx < list@.len() && #[trigger] cell_of(list@[idx]) == p;
                        assert(self.active@.contains(list@[idx]));
                    }
                }
            }
        }
        r
    }
}

} // verus!
