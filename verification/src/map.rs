//! The sparse maze map, in coordinates relative to the start cell `(0, 0)`.
//!
//! A cell's walls are a four-bit mask (bit `d.idx()` set when a wall was seen
//! on side `d`). Cells with no entry have no known walls. The map also keeps
//! the cells the robot has stood on (`visited`) and the cells known to be
//! reachable through a confirmed opening but not yet visited (`frontier`).
//!
//! Cells are stored under a 64-bit key; `cell_key` is a bijection between the
//! `i32 × i32` grid and `u64`.
use vstd::prelude::*;
use std::collections::{HashMap, HashSet};
use vstd::arithmetic::div_mod::{lemma_fundamental_div_mod, lemma_fundamental_div_mod_converse};
use crate::dir::{Dir, GridCell, cell_of, in_grid, step, neighbor, lemma_step_back};

verus! {

broadcast use vstd::std_specs::hash::group_hash_axioms;

/// The key under which a cell is stored.
pub open spec fn cell_key(p: GridCell) -> int {
    (p.0 + 0x8000_0000) * 0x1_0000_0000 + (p.1 + 0x8000_0000)
}

/// The cell that a key stands for.
pub open spec fn key_cell(k: int) -> GridCell {
    (k / 0x1_0000_0000 - 0x8000_0000, k % 0x1_0000_0000 - 0x8000_0000)
}

/// Keys of grid cells are 64-bit and decode back to the cell.
pub proof fn lemma_cell_key(p: GridCell)
    requires
        in_grid(p),
    ensures
        0 <= cell_key(p) <= u64::MAX,
        key_cell(cell_key(p)) == p,
{
    let r = p.0 + 0x8000_0000;
    let c = p.1 + 0x8000_0000;
    assert(0 <= r * 0x1_0000_0000 <= 0xffff_ffff * 0x1_0000_0000) by (nonlinear_arith)
        requires
            0 <= r <= 0xffff_ffff,
    ;
    lemma_fundamental_div_mod_converse(cell_key(p), 0x1_0000_0000, r, c);
}

/// Every 64-bit key is the key of exactly one grid cell.
pub proof fn lemma_key_cell(k: int)
    requires
        0 <= k <= u64::MAX,
    ensures
        in_grid(key_cell(k)),
        cell_key(key_cell(k)) == k,
{
    lemma_fundamental_div_mod(k, 0x1_0000_0000);
    let q = k / 0x1_0000_0000;
    let r = k % 0x1_0000_0000;
    assert(0 <= q < 0x1_0000_0000) by (nonlinear_arith)
        requires
            0 <= k <= 0xffff_ffff_ffff_ffff,
            k == 0x1_0000_0000 * q + r,
            0 <= r < 0x1_0000_0000,
    ;
}

/// Distinct grid cells have distinct keys.
pub proof fn lemma_cell_key_injective(p: GridCell, q: GridCell)
    requires
        in_grid(p),
        in_grid(q),
        cell_key(p) == cell_key(q),
    ensures
        p == q,
{
    lemma_cell_key(p);
    lemma_cell_key(q);
}

/// The key of a cell.
pub fn key_of(p: (i32, i32)) -> (k: u64)
    ensures
        k as int == cell_key(cell_of(p)),
{
    proof {
        lemma_cell_key(cell_of(p));
    }
    let r: u64 = (p.0 as i64 + 0x8000_0000i64) as u64;
    let c: u64 = (p.1 as i64 + 0x8000_0000i64) as u64;
    assert(r * 0x1_0000_0000 <= 0xffff_ffff * 0x1_0000_0000) by (nonlinear_arith)
        requires
            r <= 0xffff_ffff,
    ;
    r * 0x1_0000_0000u64 + c
}

/// The cells whose keys lie in a set of keys.
pub open spec fn cells_of_keys(keys: Set<u64>) -> Set<GridCell> {
    Set::new(|p: GridCell| in_grid(p) && keys.contains(cell_key(p) as u64))
}

/// The cells of a finite key set form a finite set of the same size.
pub proof fn lemma_cells_of_keys(keys: Set<u64>)
    requires
        keys.finite(),
    ensures
        cells_of_keys(keys).finite(),
        cells_of_keys(keys).len() == keys.len(),
{
    let cells = cells_of_keys(keys);
    let f = |k: u64| key_cell(k as int);
    assert forall|k1: u64, k2: u64| keys.contains(k1) && keys.contains(k2) && f(k1) == f(k2)
        implies k1 == k2 by {
        lemma_key_cell(k1 as int);
        lemma_key_cell(k2 as int);
    }
    assert forall|p: GridCell| cells.contains(p) <==> keys.map(f).contains(p) by {
        if cells.contains(p) {
            lemma_cell_key(p);
            assert(f(cell_key(p) as u64) == p);
        }
        if keys.map(f).contains(p) {
            let k = choose|k: u64| keys.contains(k) && f(k) == p;
            lemma_key_cell(k as int);
        }
    }
    assert(keys.map(f) =~= cells);
    vstd::set_lib::lemma_map_size(keys, cells, f);
}

/// Whether bit `d` is set in a wall mask.
pub open spec fn mask_has(b: u8, d: Dir) -> bool {
    b & (1u8 << (d.idx() as u8)) != 0
}

proof fn lemma_mask_set(b: u8, i: u8, j: u8)
    requires
        i < 4,
        j < 4,
    ensures
        ((b | (1u8 << i)) & (1u8 << j) != 0) == ((b & (1u8 << j) != 0) || i == j),
{
    assert(((b | (1u8 << i)) & (1u8 << j) != 0) == ((b & (1u8 << j) != 0) || i == j))
        by (bit_vector)
        requires
            i < 4,
            j < 4,
    ;
}

proof fn lemma_mask_clear(b: u8, i: u8, j: u8)
    requires
        i < 4,
        j < 4,
    ensures
        ((b & !(1u8 << i)) & (1u8 << j) != 0) == ((b & (1u8 << j) != 0) && i != j),
{
    assert(((b & !(1u8 << i)) & (1u8 << j) != 0) == ((b & (1u8 << j) != 0) && i != j))
        by (bit_vector)
        requires
            i < 4,
            j < 4,
    ;
}

proof fn lemma_mask_zero(j: u8)
    requires
        j < 4,
    ensures
        (0u8 & (1u8 << j)) == 0,
{
    assert((0u8 & (1u8 << j)) == 0) by (bit_vector);
}

/// Sparse map in coordinates relative to the start cell.
pub struct DynMap {
    walls: HashMap<u64, u8>,
    visited: HashSet<u64>,
    frontier: HashSet<u64>,
}

impl DynMap {
    /// The wall mask recorded for a cell, 0 where none is recorded.
    pub closed spec fn mask(self, p: GridCell) -> u8 {
        if self.walls@.contains_key(cell_key(p) as u64) {
            self.walls@[cell_key(p) as u64]
        } else {
            0
        }
    }

    /// Whether a wall is recorded on side `d` of cell `p`.
    pub open spec fn wall(self, p: GridCell, d: Dir) -> bool {
        mask_has(self.mask(p), d)
    }

    /// The cells the robot has stood on.
    pub closed spec fn visited_cells(self) -> Set<GridCell> {
        cells_of_keys(self.visited@)
    }

    /// The cells known to be reachable but not yet visited.
    pub closed spec fn frontier_cells(self) -> Set<GridCell> {
        cells_of_keys(self.frontier@)
    }

    /// Keys of the visited cells.
    pub closed spec fn visited_keys(self) -> Set<u64> {
        self.visited@
    }

    /// Keys of the frontier cells.
    pub closed spec fn frontier_keys(self) -> Set<u64> {
        self.frontier@
    }

    /// Well-formedness: the key sets are finite, no cell is both visited and
    /// on the frontier, and every wall is recorded from both of its sides.
    pub open spec fn wf(self) -> bool {
        &&& self.visited_cells().finite()
        &&& self.frontier_cells().finite()
        &&& self.visited_cells().disjoint(self.frontier_cells())
        &&& self.walls_symmetric()
        &&& self.visited_keys().finite()
        &&& self.frontier_keys().finite()
        &&& self.visited_cells() == cells_of_keys(self.visited_keys())
        &&& self.frontier_cells() == cells_of_keys(self.frontier_keys())
    }

    /// A wall between two neighbouring cells is seen from both of them.
    pub open spec fn walls_symmetric(self) -> bool {
        forall|p: GridCell, d: Dir|
            in_grid(p) && in_grid(#[trigger] step(p, d)) ==> self.wall(p, d) == self.wall(
                step(p, d),
                d.reverse(),
            )
    }

    proof fn lemma_wf_from_keys(self)
        requires
            self.visited@.finite(),
            self.frontier@.finite(),
            self.walls_symmetric(),
            self.visited_cells().disjoint(self.frontier_cells()),
        ensures
            self.wf(),
    {
        lemma_cells_of_keys(self.visited@);
        lemma_cells_of_keys(self.frontier@);
    }

    /// An empty map.
    pub fn new() -> (m: Self)
        ensures
            m.wf(),
            forall|p: GridCell, d: Dir| !m.wall(p, d),
            m.visited_cells() == Set::<GridCell>::empty(),
            m.frontier_cells() == Set::<GridCell>::empty(),
    {
        let m = DynMap { walls: HashMap::new(), visited: HashSet::new(), frontier: HashSet::new() };
        proof {
            assert forall|p: GridCell, d: Dir| !m.wall(p, d) by {
                lemma_mask_zero(d.idx() as u8);
            }
            assert(m.visited_cells() =~= Set::<GridCell>::empty());
            assert(m.frontier_cells() =~= Set::<GridCell>::empty());
            m.lemma_wf_from_keys();
        }
        m
    }

    /// Records a wall on side `dir` of `pos`, and on the facing side of its neighbour.
    pub fn record_wall(&mut self, pos: (i32, i32), dir: Dir)
        requires
            old(self).wf(),
            in_grid(step(cell_of(pos), dir)),
        ensures
            final(self).wf(),
            final(self).visited_cells() == old(self).visited_cells(),
            final(self).frontier_cells() == old(self).frontier_cells(),
            forall|p: GridCell, e: Dir|
                in_grid(p) ==> #[trigger] final(self).wall(p, e) == (old(self).wall(p, e) || (p
                    == cell_of(pos) && e == dir) || (p == step(cell_of(pos), dir) && e
                    == dir.reverse())),
    {
        let nb = neighbor(pos, dir);
        let opp = dir.opposite();
        self.or_mask(pos, dir);
        self.or_mask(nb, opp);
        proof {
            let a = cell_of(pos);
            let b = cell_of(nb);
            lemma_step_back(a, dir);
            assert forall|p: GridCell, d: Dir|
                in_grid(p) && in_grid(#[trigger] step(p, d)) implies self.wall(p, d) == self.wall(
                step(p, d),
                d.reverse(),
            ) by {
                lemma_step_back(p, d);
                assert(old(self).wall(p, d) == old(self).wall(step(p, d), d.reverse()));
            }
        }
    }

    /// Sets bit `dir` in the mask of `pos`.
    fn or_mask(&mut self, pos: (i32, i32), dir: Dir)
        ensures
            final(self).visited == old(self).visited,
            final(self).frontier == old(self).frontier,
            forall|p: GridCell, e: Dir|
                in_grid(p) ==> #[trigger] final(self).wall(p, e) == (old(self).wall(p, e) || (p
                    == cell_of(pos) && e == dir)),
    {
        let k = key_of(pos);
        let cur: u8 = match self.walls.get(&k) {
            Some(v) => *v,
            None => 0,
        };
        let bit: u8 = 1u8 << dir.index();
        self.walls.insert(k, cur | bit);
        proof {
            assert forall|p: GridCell, e: Dir| in_grid(p) implies #[trigger] self.wall(p, e) == (
            old(self).wall(p, e) || (p == cell_of(pos) && e == dir)) by {
                lemma_mask_set(cur, dir.idx() as u8, e.idx() as u8);
                lemma_cell_key(p);
                lemma_cell_key(cell_of(pos));
                if p != cell_of(pos) {
                    if cell_key(p) == cell_key(cell_of(pos)) {
                        lemma_cell_key_injective(p, cell_of(pos));
                    }
                } else {
                    if !old(self).walls@.contains_key(k) {
                        lemma_mask_zero(e.idx() as u8);
                    }
                }
            }
        }
    }

    /// Clears bit `dir` in the mask of `pos`.
    fn clear_mask(&mut self, pos: (i32, i32), dir: Dir)
        ensures
            final(self).visited == old(self).visited,
            final(self).frontier == old(self).frontier,
            forall|p: GridCell, e: Dir|
                in_grid(p) ==> #[trigger] final(self).wall(p, e) == (old(self).wall(p, e) && !(p
                    == cell_of(pos) && e == dir)),
    {
        let k = key_of(pos);
        let cur: u8 = match self.walls.get(&k) {
            Some(v) => *v,
            None => 0,
        };
        let bit: u8 = 1u8 << dir.index();
        self.walls.insert(k, cur & !bit);
        proof {
            assert forall|p: GridCell, e: Dir| in_grid(p) implies #[trigger] self.wall(p, e) == (
            old(self).wall(p, e) && !(p == cell_of(pos) && e == dir)) by {
                lemma_mask_clear(cur, dir.idx() as u8, e.idx() as u8);
                lemma_cell_key(p);
                lemma_cell_key(cell_of(pos));
                if p != cell_of(pos) {
                    if cell_key(p) == cell_key(cell_of(pos)) {
                        lemma_cell_key_injective(p, cell_of(pos));
                    }
                } else {
                    if !old(self).walls@.contains_key(k) {
                        lemma_mask_zero(e.idx() as u8);
                    }
                }
            }
        }
    }

    /// Records that side `dir` of `pos` is open: clears the wall on both sides
    /// and, unless the neighbour was visited, puts it on the frontier.
    pub fn record_open(&mut self, pos: (i32, i32), dir: Dir)
        requires
            old(self).wf(),
            in_grid(step(cell_of(pos), dir)),
        ensures
            final(self).wf(),
            final(self).visited_cells() == old(self).visited_cells(),
            final(self).frontier_cells() == (if old(self).visited_cells().contains(
                step(cell_of(pos), dir),
            ) {
                old(self).frontier_cells()
            } else {
                old(self).frontier_cells().insert(step(cell_of(pos), dir))
            }),
            forall|p: GridCell, e: Dir|
                in_grid(p) ==> #[trigger] final(self).wall(p, e) == (old(self).wall(p, e) && !(p
                    == cell_of(pos) && e == dir) && !(p == step(cell_of(pos), dir) && e
                    == dir.reverse())),
    {
        let nb = neighbor(pos, dir);
        let nk = key_of(nb);
        proof {
            lemma_cell_key(cell_of(nb));
        }
        if !self.visited.contains(&nk) {
            self.frontier.insert(nk);
        }
        let opp = dir.opposite();
        self.clear_mask(pos, dir);
        self.clear_mask(nb, opp);
        proof {
            let a = cell_of(pos);
            let b = cell_of(nb);
            lemma_step_back(a, dir);
            let nf = if old(self).visited_cells().contains(b) {
                old(self).frontier_cells()
            } else {
                old(self).frontier_cells().insert(b)
            };
            assert forall|p: GridCell| #[trigger] cells_of_keys(self.frontier@).contains(p)
                <==> nf.contains(p) by {
                if in_grid(p) {
                    lemma_cell_key(p);
                    if cell_key(p) == cell_key(b) {
                        lemma_cell_key_injective(p, b);
                    }
                }
            }
            assert(cells_of_keys(self.frontier@) =~= nf);
            assert forall|p: GridCell, d: Dir|
                in_grid(p) && in_grid(#[trigger] step(p, d)) implies self.wall(p, d) == self.wall(
                step(p, d),
                d.reverse(),
            ) by {
                lemma_step_back(p, d);
                assert(old(self).wall(p, d) == old(self).wall(step(p, d), d.reverse()));
            }
            self.lemma_wf_from_keys();
        }
    }

    /// Marks `pos` visited: it leaves the frontier and joins the visited cells.
    pub fn mark_visited(&mut self, pos: (i32, i32))
        requires
            old(self).wf(),
        ensures
            final(self).wf(),
            final(self).visited_cells() == old(self).visited_cells().insert(cell_of(pos)),
            final(self).frontier_cells() == old(self).frontier_cells().remove(cell_of(pos)),
            forall|p: GridCell, e: Dir| #[trigger] final(self).wall(p, e) == old(self).wall(p, e),
    {
        let k = key_of(pos);
        self.frontier.remove(&k);
        self.visited.insert(k);
        if !self.walls.contains_key(&k) {
            self.walls.insert(k, 0);
        }
        proof {
            let a = cell_of(pos);
            lemma_cell_key(a);
            assert forall|p: GridCell| #[trigger]
                cells_of_keys(self.frontier@).contains(p) <==> old(
                self,
            ).frontier_cells().remove(a).contains(p) by {
                if in_grid(p) {
                    lemma_cell_key(p);
                    if cell_key(p) == cell_key(a) {
                        lemma_cell_key_injective(p, a);
                    }
                }
            }
            assert forall|p: GridCell| #[trigger]
                cells_of_keys(self.visited@).contains(p) <==> old(
                self,
            ).visited_cells().insert(a).contains(p) by {
                if in_grid(p) {
                    lemma_cell_key(p);
                    if cell_key(p) == cell_key(a) {
                        lemma_cell_key_injective(p, a);
                    }
                }
            }
            assert(cells_of_keys(self.frontier@) =~= old(self).frontier_cells().remove(a));
            assert(cells_of_keys(self.visited@) =~= old(self).visited_cells().insert(a));
            assert forall|p: GridCell, e: Dir| #[trigger] self.wall(p, e) == old(self).wall(
                p,
                e,
            ) by {
                if cell_key(p) as u64 == k && !old(self).walls@.contains_key(k) {
                    lemma_mask_zero(e.idx() as u8);
                }
            }
            self.lemma_wf_from_keys();
        }
    }

    /// Whether a wall is recorded on side `dir` of `pos`.
    pub fn has_wall(&self, pos: (i32, i32), dir: Dir) -> (r: bool)
        ensures
            r == self.wall(cell_of(pos), dir),
    {
        let k = key_of(pos);
        match self.walls.get(&k) {
            Some(w) => *w & (1u8 << dir.index()) != 0,
            None => {
                proof {
                    lemma_mask_zero(dir.idx() as u8);
                }
                false
            },
        }
    }

    /// Whether `pos` has been visited.
    pub fn is_visited(&self, pos: (i32, i32)) -> (r: bool)
        requires
            self.wf(),
        ensures
            r == self.visited_cells().contains(cell_of(pos)),
    {
        proof {
            lemma_cell_key(cell_of(pos));
        }
        self.visited.contains(&key_of(pos))
    }

    /// Whether `pos` is on the frontier.
    pub fn in_frontier(&self, pos: (i32, i32)) -> (r: bool)
        requires
            self.wf(),
        ensures
            r == self.frontier_cells().contains(cell_of(pos)),
    {
        proof {
            lemma_cell_key(cell_of(pos));
        }
        self.frontier.contains(&key_of(pos))
    }

    /// Number of visited cells.
    pub fn visited_len(&self) -> (r: usize)
        requires
            self.wf(),
        ensures
            r == self.visited_cells().len(),
    {
        proof {
            lemma_cells_of_keys(self.visited@);
        }
        self.visited.len()
    }

    /// Number of frontier cells.
    pub fn frontier_len(&self) -> (r: usize)
        requires
            self.wf(),
        ensures
            r == self.frontier_cells().len(),
    {
        proof {
            lemma_cells_of_keys(self.frontier@);
        }
        self.frontier.len()
    }

    /// Whether the frontier is empty.
    pub fn frontier_is_empty(&self) -> (r: bool)
        requires
            self.wf(),
        ensures
            r == (self.frontier_cells() == Set::<GridCell>::empty()),
    {
        proof {
            lemma_cells_of_keys(self.frontier@);
        }
        let r = self.frontier.is_empty();
        proof {
            if !r {
                let k = self.frontier@.choose();
                lemma_key_cell(k as int);
                assert(self.frontier_cells().contains(key_cell(k as int)));
            } else {
                assert(self.frontier_cells() =~= Set::<GridCell>::empty());
            }
        }
        r
    }
}

} // verus!
