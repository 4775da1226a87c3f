//! The game state: live cells, the cells to look at next generation, and the
//! live-neighbour count of every cell that has live neighbours.
use vstd::prelude::*;
use vstd::string::*;
use rand::rngs::ThreadRng;
use std::time::Instant;
use crate::chance::{random_range_i32, thread_rng};
use crate::collections::{
    deltas_drain, deltas_get, deltas_insert, deltas_new, deltas_reserve, delta_map_view, DeltaMap,
    counts_get, counts_insert, counts_new, counts_remove, count_map_view, set_drain, set_insert, set_new,
    set_remove, set_view, CellSet, CountMap,
};
use crate::life::{
    count_where, eq_count, ind, in_block, is_neighbor, lemma_count_where_balance, lemma_count_where_some,
    lemma_count_where_witness,
    lemma_count_where_none, lemma_eq_count, lemma_is_neighbor_symmetric,
    lemma_live_neighbors_bound, lemma_neighbor_back, lemma_push_contains, life_step, lemma_seq_hits, lemma_seq_hits_bound, seq_hits, lemma_push_no_duplicates, lemma_neighbors_distinct, live_neighbors,
    next_alive,
};
use crate::ppair::{allaround, around, block_cell, hi_spec, lo_spec, neighbor, pack, pack_spec, Pair, PPair};
use crate::timing::{instant_now, Timestamp};
use crate::collections::{set_contains, set_elements, set_len};
use crate::screen::{fits_i32, trunc_div, trunc_rem};
use crate::overlay::dec_digits;

verus! {

/// The game.
pub struct Game {
    /// The live cells.
    pub cells: CellSet,
    /// The cells that may change in the next generation.
    pub active: CellSet,
    /// The number of live neighbours of each cell that has any.
    pub nmap: CountMap,
    /// The part of the plane shown: bottom-left and top-right corners.
    pub bounds: (Pair, Pair),
    /// The number of generations so far.
    pub lifetime: i32,
    /// A stopwatch for timing reports.
    pub ts: Timestamp,
    /// The random number generator.
    pub seed: ThreadRng,
    /// When the last terminal frame was shown.
    pub frametimer: Instant,
    /// Cells to be born and cells to die, gathered during a generation.
    pub nrcells: (Vec<PPair>, Vec<PPair>),
    /// The generation at the last terminal frame.
    pub prevgen: i32,
}

/// The count map holds, for `c`, the number of live neighbours of `c`, and no
/// entry where that number is zero.
pub open spec fn count_ok_at(cells: Set<i64>, m: Map<i64, u8>, c: i64) -> bool {
    if m.contains_key(c) {
        m[c] as nat == live_neighbors(cells, c) && m[c] > 0
    } else {
        live_neighbors(cells, c) == 0
    }
}

/// The count map is right everywhere.
pub open spec fn counts_ok(cells: Set<i64>, m: Map<i64, u8>) -> bool {
    forall|c: i64| #[trigger] count_ok_at(cells, m, c)
}

/// `c` is marked for a look, or the next generation leaves it as it is.
pub open spec fn stable_at(cells: Set<i64>, active: Set<i64>, c: i64) -> bool {
    active.contains(c) || next_alive(cells.contains(c), live_neighbors(cells, c)) == cells.contains(c)
}

/// Every cell the next generation changes is marked for a look.
pub open spec fn stable(cells: Set<i64>, active: Set<i64>) -> bool {
    forall|c: i64| #[trigger] stable_at(cells, active, c)
}

/// `after` once the cells around `x` up to the `k`-th include `c`, `before`
/// until then.
pub open spec fn cells_when_done(before: Set<i64>, after: Set<i64>, x: i64, c: i64, k: int) -> Set<i64> {
    if eq_count(x, c, k) > 0 {
        after
    } else {
        before
    }
}

/// `y` is marked and alive, and dies in the next generation.
pub open spec fn dies(cells: Set<i64>, active: Set<i64>, y: i64) -> bool {
    active.contains(y) && cells.contains(y) && !next_alive(true, live_neighbors(cells, y))
}

/// `y` is marked and dead, and is born in the next generation.
pub open spec fn born(cells: Set<i64>, active: Set<i64>, y: i64) -> bool {
    active.contains(y) && !cells.contains(y) && next_alive(false, live_neighbors(cells, y))
}

/// The change held for `c` in a change map, zero where there is none.
pub open spec fn dval(m: Map<i64, i8>, c: i64) -> int {
    if m.contains_key(c) {
        m[c] as int
    } else {
        0
    }
}

/// The five cells of a glider with its corner at the origin.
pub open spec fn glider() -> Set<i64> {
    set![pack_spec(0, 1), pack_spec(1, 0), pack_spec(2, 0), pack_spec(2, 1), pack_spec(2, 2)]
}

/// The cell `p` lies within `bounds`, edges included.
pub open spec fn in_bounds(bounds: (Pair, Pair), p: i64) -> bool {
    bounds.0.0 <= hi_spec(p) <= bounds.1.0 && bounds.0.1 <= lo_spec(p) <= bounds.1.1
}

/// The 3x3 block centred on `c`.
pub open spec fn block(c: i64) -> Set<i64> {
    Set::new(|x: i64| in_block(c, x))
}

/// Adding `x` (absent before) changes the live-neighbour count of `c` by one
/// exactly when `x` is around `c`.
pub proof fn lemma_live_insert(cells: Set<i64>, x: i64, c: i64)
    requires
        !cells.contains(x),
    ensures
        live_neighbors(cells.insert(x), c) == live_neighbors(cells, c) + ind(is_neighbor(c, x)),
{
    let n = cells.insert(x);
    let f = |k: int| n.contains(neighbor(c, k));
    let h = |k: int| false;
    let g = |k: int| cells.contains(neighbor(c, k));
    let i = |k: int| neighbor(c, k) == x;
    assert forall|k: int| 0 <= k < 8 implies ind(#[trigger] f(k)) + ind(h(k)) == ind(g(k)) + ind(i(k)) by {
    }
    lemma_count_where_balance(f, h, g, i, 8);
    lemma_count_where_none(h, 8);
    lemma_eq_count(c, x);
}

/// Removing `x` (present before) changes the live-neighbour count of `c` by one
/// exactly when `x` is around `c`.
pub proof fn lemma_live_remove(cells: Set<i64>, x: i64, c: i64)
    requires
        cells.contains(x),
    ensures
        live_neighbors(cells.remove(x), c) + ind(is_neighbor(c, x)) == live_neighbors(cells, c),
{
    let n = cells.remove(x);
    let f = |k: int| n.contains(neighbor(c, k));
    let h = |k: int| neighbor(c, k) == x;
    let g = |k: int| cells.contains(neighbor(c, k));
    let i = |k: int| false;
    assert forall|k: int| 0 <= k < 8 implies ind(#[trigger] f(k)) + ind(h(k)) == ind(g(k)) + ind(i(k)) by {
    }
    lemma_count_where_balance(f, h, g, i, 8);
    lemma_count_where_none(i, 8);
    lemma_eq_count(c, x);
}

/// Live-neighbour counts agree where the cells around `c` agree.
pub proof fn lemma_live_same(a: Set<i64>, b: Set<i64>, c: i64)
    requires
        forall|k: int| 0 <= k < 8 ==> a.contains(#[trigger] neighbor(c, k)) == b.contains(neighbor(c, k)),
    ensures
        live_neighbors(a, c) == live_neighbors(b, c),
{
    let f = |k: int| a.contains(neighbor(c, k));
    let g = |k: int| b.contains(neighbor(c, k));
    let h = |k: int| false;
    assert forall|k: int| 0 <= k < 8 implies ind(#[trigger] f(k)) + ind(h(k)) == ind(g(k)) + ind(h(k)) by {
    }
    lemma_count_where_balance(f, h, g, h, 8);
}

/// A generation that kills `dead` (all alive) and brings `born` (all dead) to
/// life, where these are exactly the marked cells that the rules kill and
/// bring to life, yields the next generation, provided every unmarked cell is
/// stable.
pub proof fn lemma_step_result(cells: Set<i64>, active: Set<i64>, dead: Set<i64>, newborn: Set<i64>, result: Set<i64>)
    requires
        stable(cells, active),
        forall|y: i64| #[trigger] dead.contains(y) == dies(cells, active, y),
        forall|y: i64| #[trigger] newborn.contains(y) == born(cells, active, y),
        forall|y: i64| #[trigger] result.contains(y) == ((cells.contains(y) && !dead.contains(y)) || newborn.contains(y)),
    ensures
        result == life_step(cells),
{
    assert forall|y: i64| #[trigger] result.contains(y) == life_step(cells).contains(y) by {
        assert(stable_at(cells, active, y));
        assert(dead.contains(y) == dies(cells, active, y));
        assert(newborn.contains(y) == born(cells, active, y));
    }
    assert(result =~= life_step(cells));
}

/// The cells alive in exactly one of `before` and `after`: those a step
/// changed.
pub open spec fn changed(before: Set<i64>, after: Set<i64>) -> Set<i64> {
    Set::new(|c: i64| before.contains(c) != after.contains(c))
}

/// The cells of the 3x3 blocks centred on the cells of `s`.
pub open spec fn blocks(s: Set<i64>) -> Set<i64> {
    Set::new(|y: i64| exists|c: i64| s.contains(c) && #[trigger] in_block(c, y))
}

/// A cell is in a listed cell's block exactly when it is listed or some step
/// from a listed cell lands on it.
proof fn lemma_hits_in_blocks(s: Seq<i64>, y: i64)
    requires
        s.no_duplicates(),
    ensures
        (s.contains(y) || seq_hits(s, y) > 0) == blocks(s.to_set()).contains(y),
{
    lemma_seq_hits(s, y);
    let f = |k: int| s.contains(neighbor(y, k));
    if seq_hits(s, y) > 0 {
        let k = lemma_count_where_witness(f, 8);
        let c = neighbor(y, k);
        assert(s.contains(c));
        assert(is_neighbor(y, c));
        lemma_is_neighbor_symmetric(y, c);
        assert(in_block(c, y));
        assert(s.to_set().contains(c));
    }
    if s.contains(y) {
        assert(in_block(y, y));
        assert(s.to_set().contains(y));
    }
    if blocks(s.to_set()).contains(y) {
        let c = choose|c: i64| s.to_set().contains(c) && #[trigger] in_block(c, y);
        if c != y {
            assert(is_neighbor(c, y));
            lemma_is_neighbor_symmetric(c, y);
            let k = choose|k: int| 0 <= k < 8 && #[trigger] neighbor(y, k) == c;
            lemma_count_where_some(f, 8, k);
        }
    }
}

/// Adding one cell to `s` adds its block to the blocks of `s`.
proof fn lemma_blocks_insert(s: Set<i64>, x: i64)
    ensures
        blocks(s.insert(x)) == blocks(s).union(block(x)),
{
    assert forall|y: i64| #[trigger] blocks(s.insert(x)).contains(y) == blocks(s).union(block(x)).contains(y) by {
        if blocks(s.insert(x)).contains(y) {
            let c = choose|c: i64| s.insert(x).contains(c) && #[trigger] in_block(c, y);
            if c != x {
                assert(s.contains(c));
            }
        }
        if blocks(s).contains(y) {
            let c = choose|c: i64| s.contains(c) && #[trigger] in_block(c, y);
            assert(s.insert(x).contains(c));
        }
        if block(x).contains(y) {
            assert(s.insert(x).contains(x) && in_block(x, y));
        }
    }
    assert(blocks(s.insert(x)) =~= blocks(s).union(block(x)));
}

/// The change map holds `plus - minus` for `c`, and has an entry for `c`
/// exactly when anything was added or taken there.
pub open spec fn delta_at(d: Map<i64, i8>, c: i64, plus: nat, minus: nat) -> bool {
    dval(d, c) == plus - minus && (plus + minus > 0 <==> d.contains_key(c))
}

/// `after` if `done`, else `before`.
pub open spec fn pick(done: bool, after: Set<i64>, before: Set<i64>) -> Set<i64> {
    if done {
        after
    } else {
        before
    }
}

/// Some change in the first `n` of `e` is for `c`.
pub open spec fn key_done(e: Seq<(i64, i8)>, n: int, c: i64) -> bool {
    exists|i: int| 0 <= i < n && #[trigger] e[i].0 == c
}

/// Killing the cells of `dead` (all alive) and bringing those of `newborn` (all
/// dead) to life moves the live-neighbour count of `c` by the number of
/// newborn cells around it less the number of dead ones.
pub proof fn lemma_counts_shift(cells: Set<i64>, dead: Seq<i64>, newborn: Seq<i64>, result: Set<i64>, c: i64)
    requires
        dead.no_duplicates(),
        newborn.no_duplicates(),
        forall|y: i64| #[trigger] dead.contains(y) ==> cells.contains(y),
        forall|y: i64| #[trigger] newborn.contains(y) ==> !cells.contains(y),
        forall|y: i64| #[trigger] result.contains(y) == ((cells.contains(y) && !dead.contains(y)) || newborn.contains(y)),
    ensures
        live_neighbors(result, c) + seq_hits(dead, c) == live_neighbors(cells, c) + seq_hits(newborn, c),
{
    let f = |k: int| result.contains(neighbor(c, k));
    let h = |k: int| dead.contains(neighbor(c, k));
    let g = |k: int| cells.contains(neighbor(c, k));
    let i = |k: int| newborn.contains(neighbor(c, k));
    assert forall|k: int| 0 <= k < 8 implies ind(#[trigger] f(k)) + ind(h(k)) == ind(g(k)) + ind(i(k)) by {
        let y = neighbor(c, k);
        assert(result.contains(y) == ((cells.contains(y) && !dead.contains(y)) || newborn.contains(y)));
        if dead.contains(y) {
            assert(cells.contains(y));
        }
        if newborn.contains(y) {
            assert(!cells.contains(y));
        }
    }
    lemma_count_where_balance(f, h, g, i, 8);
    lemma_seq_hits(dead, c);
    lemma_seq_hits(newborn, c);
}

/// The neighbour counts are determined by the live cells: two count maps
/// that are both right for the same cells are equal.
pub proof fn lemma_counts_unique(cells: Set<i64>, m1: Map<i64, u8>, m2: Map<i64, u8>)
    requires
        counts_ok(cells, m1),
        counts_ok(cells, m2),
    ensures
        m1 == m2,
{
    assert forall|c: i64| #[trigger] m1.contains_key(c) == m2.contains_key(c) && (m1.contains_key(c) ==> m1[c] == m2[c]) by {
        assert(count_ok_at(cells, m1, c));
        assert(count_ok_at(cells, m2, c));
    }
    assert(m1 =~= m2);
}

/// Bringing a dead cell to life and killing it again (`addcell` then
/// `removecell`) gives back the same live cells and the same counts.
pub proof fn lemma_add_then_remove(cells: Set<i64>, c: i64, before: Map<i64, u8>, after: Map<i64, u8>)
    requires
        !cells.contains(c),
        counts_ok(cells, before),
        counts_ok(cells.insert(c).remove(c), after),
    ensures
        cells.insert(c).remove(c) == cells,
        after == before,
{
    assert(cells.insert(c).remove(c) =~= cells);
    lemma_counts_unique(cells, before, after);
}

/// The two ways of advancing a generation (`processactives` and
/// `processactives_old`) end in the same state: from the same live cells,
/// their results have the same live cells, marks and counts.
pub proof fn lemma_steps_agree(
    cells: Set<i64>,
    cells1: Set<i64>,
    active1: Set<i64>,
    counts1: Map<i64, u8>,
    cells2: Set<i64>,
    active2: Set<i64>,
    counts2: Map<i64, u8>,
)
    requires
        cells1 == life_step(cells),
        active1 == blocks(changed(cells, cells1)),
        counts_ok(cells1, counts1),
        cells2 == life_step(cells),
        active2 == blocks(changed(cells, cells2)),
        counts_ok(cells2, counts2),
    ensures
        cells1 == cells2,
        active1 == active2,
        counts1 == counts2,
{
    lemma_counts_unique(cells1, counts1, counts2);
}

/// `after` is `before` with 4000 cells drawn inside `bounds` (edges included)
/// brought to life: so it keeps every cell of `before`, has at most 4000 more,
/// all inside `bounds`, and has some cell inside `bounds`.
pub open spec fn seeded(before: Set<i64>, after: Set<i64>, bounds: (Pair, Pair)) -> bool {
    exists|pts: Seq<i64>|
        #![trigger pts.to_set()]
        pts.len() == 4000 && (forall|i: int| 0 <= i < 4000 ==> #[trigger] in_bounds(bounds, pts[i])) && after
            == before.union(pts.to_set())
}

/// What seeding implies: the old cells stay, every new cell lies inside the
/// bounds, and some cell inside the bounds is alive.
pub proof fn lemma_seeded(before: Set<i64>, after: Set<i64>, bounds: (Pair, Pair), pts: Seq<i64>)
    requires
        pts.len() == 4000,
        forall|i: int| 0 <= i < 4000 ==> #[trigger] in_bounds(bounds, pts[i]),
        after == before.union(pts.to_set()),
    ensures
        seeded(before, after, bounds),
        before.subset_of(after),
        forall|p: i64| #[trigger] after.contains(p) && !before.contains(p) ==> in_bounds(bounds, p),
        exists|p: i64| #[trigger] after.contains(p) && in_bounds(bounds, p),
        before.finite() ==> after.finite() && after.len() <= before.len() + 4000,
{
    if before.finite() {
        pts.lemma_cardinality_of_set();
        vstd::set_lib::lemma_len_union(before, pts.to_set());
    }
    assert(in_bounds(bounds, pts[0]));
    assert(pts.to_set().contains(pts[0]));
    assert(after.contains(pts[0]));
    assert forall|p: i64| #[trigger] after.contains(p) && !before.contains(p) implies in_bounds(bounds, p) by {
        assert(pts.to_set().contains(p));
        let i = choose|i: int| 0 <= i < pts.len() && pts[i] == p;
        assert(in_bounds(bounds, pts[i]));
    }
}

impl Game {
    /// The live cells.
    pub open spec fn cells_view(&self) -> Set<i64> {
        set_view(self.cells)
    }

    /// The cells marked for a look.
    pub open spec fn active_view(&self) -> Set<i64> {
        set_view(self.active)
    }

    /// The neighbour counts.
    pub open spec fn counts_view(&self) -> Map<i64, u8> {
        count_map_view(self.nmap)
    }

    /// The number of live cells.
    pub fn cell_count(&self) -> (r: usize)
        ensures
            r == self.cells_view().len(),
    {
        set_len(&self.cells)
    }

    /// The number of cells marked for a look.
    pub fn marked_count(&self) -> (r: usize)
        ensures
            r == self.active_view().len(),
    {
        set_len(&self.active)
    }

    /// Whether `p` is alive.
    pub fn is_alive(&self, p: &PPair) -> (r: bool)
        ensures
            r == self.cells_view().contains(*p),
    {
        set_contains(&self.cells, p)
    }

    /// Whether `p` is marked for a look.
    pub fn is_marked(&self, p: &PPair) -> (r: bool)
        ensures
            r == self.active_view().contains(*p),
    {
        set_contains(&self.active, p)
    }

    /// The live cells, each once, in no particular order.
    pub fn live_cells(&self) -> (r: Vec<PPair>)
        ensures
            r@.no_duplicates(),
            r@.to_set() == self.cells_view(),
    {
        set_elements(&self.cells)
    }

    /// The cells marked for a look, each once, in no particular order.
    pub fn marked_cells(&self) -> (r: Vec<PPair>)
        ensures
            r@.no_duplicates(),
            r@.to_set() == self.active_view(),
    {
        set_elements(&self.active)
    }

    /// The live-neighbour count kept for `p`: none where it has no live
    /// neighbour.
    pub fn neighbour_count(&self, p: &PPair) -> (r: Option<u8>)
        ensures
            r == (if self.counts_view().contains_key(*p) {
                Some(self.counts_view()[*p])
            } else {
                None
            }),
    {
        counts_get(&self.nmap, p)
    }

    /// The state is consistent: the counts are right, every cell the next
    /// generation changes is marked, and nothing is gathered yet.
    pub open spec fn wf(&self) -> bool {
        &&& self.cells_view().finite()
        &&& counts_ok(self.cells_view(), self.counts_view())
        &&& stable(self.cells_view(), self.active_view())
        &&& self.nrcells.0@.len() == 0
        &&& self.nrcells.1@.len() == 0
    }

    /// The fields other than the cell set, the marked set and the counts are
    /// those of `other`.
    pub open spec fn same_rest(&self, other: &Game) -> bool {
        &&& self.same_settings(other)
        &&& self.lifetime == other.lifetime
        &&& self.nrcells == other.nrcells
        &&& self.prevgen == other.prevgen
    }

    /// The view bounds, stopwatch, generator and frame timer are those of
    /// `other`.
    pub open spec fn same_settings(&self, other: &Game) -> bool {
        &&& self.bounds == other.bounds
        &&& self.ts == other.ts
        &&& self.seed == other.seed
        &&& self.frametimer == other.frametimer
    }


    /// Marks the 3x3 block centred on `cellcoord` for a look.
    pub fn activearound(&mut self, cellcoord: &PPair)
        ensures
            final(self).active_view() == old(self).active_view().union(block(*cellcoord)),
            final(self).cells == old(self).cells,
            final(self).nmap == old(self).nmap,
            final(self).same_rest(old(self)),
    {
        let x = *cellcoord;
        let blk = allaround(x);
        let mut j: usize = 0;
        while j < 9
            invariant
                j <= 9,
                forall|i: int| 0 <= i < 9 ==> #[trigger] blk@[i] == block_cell(x, i),
                forall|y: i64|
                    #[trigger] set_view(self.active).contains(y) <==> (set_view(old(self).active).contains(y)
                        || exists|i: int| 0 <= i < j && #[trigger] block_cell(x, i) == y),
                self.cells == old(self).cells,
                self.nmap == old(self).nmap,
                self.same_rest(old(self)),
            decreases 9 - j,
        {
            set_insert(&mut self.active, blk[j]);
            assert forall|y: i64|
                #[trigger] set_view(self.active).contains(y) <==> (set_view(old(self).active).contains(y)
                    || exists|i: int| 0 <= i < j + 1 && #[trigger] block_cell(x, i) == y) by {
                if y == block_cell(x, j as int) {
                }
            }
            j = j + 1;
        }
        proof {
            crate::life::lemma_block_centre(x);
            assert forall|y: i64| #[trigger] set_view(self.active).contains(y) <==> (set_view(old(self).active).union(block(x))).contains(y) by {
                if in_block(x, y) {
                    if y == x {
                        assert(block_cell(x, 4) == y);
                    } else {
                        let k = choose|k: int| 0 <= k < 8 && #[trigger] neighbor(x, k) == y;
                        if k < 4 {
                            assert(block_cell(x, k) == y);
                        } else {
                            assert(block_cell(x, k + 1) == y);
                        }
                    }
                }
                if exists|i: int| 0 <= i < 9 && #[trigger] block_cell(x, i) == y {
                    let i = choose|i: int| 0 <= i < 9 && #[trigger] block_cell(x, i) == y;
                    if i < 4 {
                        assert(neighbor(x, i) == y);
                    } else if i > 4 {
                        assert(neighbor(x, i - 1) == y);
                    }
                }
            }
            assert(set_view(self.active) =~= set_view(old(self).active).union(block(x)));
        }
    }
    /// Brings `cellcoord` to life. If it was dead, its block is marked for a
    /// look and the counts of the cells around it go up by one.
    pub fn addcell(&mut self, cellcoord: PPair)
        requires
            counts_ok(old(self).cells_view(), old(self).counts_view()),
        ensures
            final(self).cells_view() == old(self).cells_view().insert(cellcoord),
            counts_ok(final(self).cells_view(), final(self).counts_view()),
            final(self).active_view() == if old(self).cells_view().contains(cellcoord) {
                old(self).active_view()
            } else {
                old(self).active_view().union(block(cellcoord))
            },
            stable(old(self).cells_view(), old(self).active_view()) ==> stable(
                final(self).cells_view(),
                final(self).active_view(),
            ),
            final(self).same_rest(old(self)),
    {
        let ghost old_cells = self.cells_view();
        let ghost old_active = self.active_view();
        if !set_insert(&mut self.cells, cellcoord) {
            proof {
                assert(self.cells_view() =~= old_cells);
            }
            return;
        }
        let x = cellcoord;
        let ghost new_cells = self.cells_view();
        self.activearound(&x);
        let nbrs = around(x);
        let mut k: usize = 0;
        while k < 8
            invariant
                k <= 8,
                !old_cells.contains(x),
                new_cells == old_cells.insert(x),
                self.cells_view() == new_cells,
                forall|i: int| 0 <= i < 8 ==> #[trigger] nbrs@[i] == neighbor(x, i),
                forall|c: i64|
                    #[trigger] count_ok_at(
                        cells_when_done(old_cells, new_cells, x, c, k as int),
                        self.counts_view(),
                        c,
                    ),
                self.active_view() == old_active.union(block(x)),
                self.same_rest(old(self)),
            decreases 8 - k,
        {
            let c = nbrs[k];
            proof {
                assert(eq_count(x, c, k as int) == 0) by {
                    assert forall|j: int| 0 <= j < k implies !(#[trigger] neighbor(x, j) == c) by {
                        lemma_neighbors_distinct(x, j, k as int);
                    }
                    lemma_count_where_none(|j: int| neighbor(x, j) == c, k as int);
                }
                assert(count_ok_at(cells_when_done(old_cells, new_cells, x, c, k as int), self.counts_view(), c));
                lemma_live_insert(old_cells, x, c);
                lemma_neighbor_back(x, k as int);
                assert(is_neighbor(c, x));
                lemma_live_neighbors_bound(new_cells, c);
            }
            let v: u8 = match counts_get(&self.nmap, &c) {
                Some(v) => v,
                None => 0,
            };
            let nv = v.saturating_add(1).min(8);
            let ghost m0 = self.counts_view();
            counts_insert(&mut self.nmap, c, nv);
            proof {
                assert forall|d: i64|
                    #[trigger] count_ok_at(
                        cells_when_done(old_cells, new_cells, x, d, k + 1),
                        self.counts_view(),
                        d,
                    ) by {
                    assert(eq_count(x, d, k + 1) == eq_count(x, d, k as int) + ind(neighbor(x, k as int) == d));
                    assert(count_ok_at(cells_when_done(old_cells, new_cells, x, d, k as int), m0, d));
                }
            }
            k = k + 1;
        }
        proof {
            assert forall|c: i64| #[trigger] count_ok_at(new_cells, self.counts_view(), c) by {
                assert(count_ok_at(
                    cells_when_done(old_cells, new_cells, x, c, 8),
                    self.counts_view(),
                    c,
                ));
                lemma_eq_count(x, c);
                lemma_is_neighbor_symmetric(x, c);
                lemma_live_insert(old_cells, x, c);
            }
            assert forall|c: i64| stable(old_cells, old_active) implies #[trigger] stable_at(
                new_cells,
                self.active_view(),
                c,
            ) by {
                assert(stable_at(old_cells, old_active, c));
                if !self.active_view().contains(c) {
                    assert(!in_block(x, c));
                    lemma_is_neighbor_symmetric(x, c);
                    lemma_live_insert(old_cells, x, c);
                }
            }
        }
    }
    /// Kills `cellcoord`. If it was alive, its block is marked for a look and
    /// the counts of the cells around it go down by one (an entry that reaches
    /// zero is dropped).
    pub fn removecell(&mut self, cellcoord: &PPair)
        requires
            counts_ok(old(self).cells_view(), old(self).counts_view()),
        ensures
            final(self).cells_view() == old(self).cells_view().remove(*cellcoord),
            counts_ok(final(self).cells_view(), final(self).counts_view()),
            final(self).active_view() == if old(self).cells_view().contains(*cellcoord) {
                old(self).active_view().union(block(*cellcoord))
            } else {
                old(self).active_view()
            },
            stable(old(self).cells_view(), old(self).active_view()) ==> stable(
                final(self).cells_view(),
                final(self).active_view(),
            ),
            final(self).same_rest(old(self)),
    {
        let ghost old_cells = self.cells_view();
        let ghost old_active = self.active_view();
        if !set_remove(&mut self.cells, cellcoord) {
            proof {
                assert(self.cells_view() =~= old_cells);
            }
            return;
        }
        let x = *cellcoord;
        let ghost new_cells = self.cells_view();
        self.activearound(&x);
        let nbrs = around(x);
        let mut k: usize = 0;
        while k < 8
            invariant
                k <= 8,
                old_cells.contains(x),
                new_cells == old_cells.remove(x),
                self.cells_view() == new_cells,
                forall|i: int| 0 <= i < 8 ==> #[trigger] nbrs@[i] == neighbor(x, i),
                forall|c: i64|
                    #[trigger] count_ok_at(
                        cells_when_done(old_cells, new_cells, x, c, k as int),
                        self.counts_view(),
                        c,
                    ),
                self.active_view() == old_active.union(block(x)),
                self.same_rest(old(self)),
            decreases 8 - k,
        {
            let c = nbrs[k];
            proof {
                assert(eq_count(x, c, k as int) == 0) by {
                    assert forall|j: int| 0 <= j < k implies !(#[trigger] neighbor(x, j) == c) by {
                        lemma_neighbors_distinct(x, j, k as int);
                    }
                    lemma_count_where_none(|j: int| neighbor(x, j) == c, k as int);
                }
                assert(count_ok_at(cells_when_done(old_cells, new_cells, x, c, k as int), self.counts_view(), c));
                lemma_live_remove(old_cells, x, c);
                lemma_neighbor_back(x, k as int);
                assert(is_neighbor(c, x));
            }
            let ghost m0 = self.counts_view();
            if let Some(v) = counts_get(&self.nmap, &c) {
                let nv = v.saturating_sub(1);
                counts_insert(&mut self.nmap, c, nv);
                if nv == 0 {
                    counts_remove(&mut self.nmap, &c);
                }
            }
            proof {
                assert forall|d: i64|
                    #[trigger] count_ok_at(
                        cells_when_done(old_cells, new_cells, x, d, k + 1),
                        self.counts_view(),
                        d,
                    ) by {
                    assert(eq_count(x, d, k + 1) == eq_count(x, d, k as int) + ind(neighbor(x, k as int) == d));
                    assert(count_ok_at(cells_when_done(old_cells, new_cells, x, d, k as int), m0, d));
                }
            }
            k = k + 1;
        }
        proof {
            assert forall|c: i64| #[trigger] count_ok_at(new_cells, self.counts_view(), c) by {
                assert(count_ok_at(cells_when_done(old_cells, new_cells, x, c, 8), self.counts_view(), c));
                lemma_eq_count(x, c);
                lemma_is_neighbor_symmetric(x, c);
                lemma_live_remove(old_cells, x, c);
            }
            assert forall|c: i64| stable(old_cells, old_active) implies #[trigger] stable_at(
                new_cells,
                self.active_view(),
                c,
            ) by {
                assert(stable_at(old_cells, old_active, c));
                if !self.active_view().contains(c) {
                    assert(!in_block(x, c));
                    lemma_is_neighbor_symmetric(x, c);
                    lemma_live_remove(old_cells, x, c);
                }
            }
        }
    }
    /// Looks at every marked cell once, unmarks it, and gathers those that die
    /// (into `nrcells.1`) and those that are born (into `nrcells.0`).
    fn evaluate_actives(&mut self)
        requires
            counts_ok(old(self).cells_view(), old(self).counts_view()),
            old(self).nrcells.0@.len() == 0,
            old(self).nrcells.1@.len() == 0,
        ensures
            final(self).active_view() == Set::<i64>::empty(),
            final(self).cells == old(self).cells,
            final(self).nmap == old(self).nmap,
            final(self).same_settings(old(self)),
            final(self).lifetime == old(self).lifetime,
            final(self).prevgen == old(self).prevgen,
            final(self).nrcells.1@.no_duplicates(),
            final(self).nrcells.0@.no_duplicates(),
            forall|y: i64| #[trigger] final(self).nrcells.1@.contains(y) == dies(old(self).cells_view(), old(self).active_view(), y),
            forall|y: i64| #[trigger] final(self).nrcells.0@.contains(y) == born(old(self).cells_view(), old(self).active_view(), y),
            final(self).nrcells.0@.len() + final(self).nrcells.1@.len() <= usize::MAX,
    {
        let ghost cells = self.cells_view();
        let ghost active = self.active_view();
        let acts = set_drain(&mut self.active);
        let mut idx: usize = 0;
        while idx < acts.len()
            invariant
                idx <= acts@.len(),
                acts@.no_duplicates(),
                acts@.to_set() == active,
                self.active_view() == Set::<i64>::empty(),
                self.cells_view() == cells,
                self.cells == old(self).cells,
                self.nmap == old(self).nmap,
                counts_ok(cells, self.counts_view()),
                self.same_settings(old(self)),
                self.lifetime == old(self).lifetime,
                self.prevgen == old(self).prevgen,
                self.nrcells.1@.no_duplicates(),
                self.nrcells.0@.no_duplicates(),
                forall|y: i64| #[trigger] self.nrcells.1@.contains(y) == (acts@.take(idx as int).contains(y)
                    && cells.contains(y) && !next_alive(true, live_neighbors(cells, y))),
                forall|y: i64| #[trigger] self.nrcells.0@.contains(y) == (acts@.take(idx as int).contains(y)
                    && !cells.contains(y) && next_alive(false, live_neighbors(cells, y))),
                self.nrcells.0@.len() + self.nrcells.1@.len() <= idx,
            decreases acts@.len() - idx,
        {
            let coord = acts[idx];
            let curralive = set_contains(&self.cells, &coord);
            let ncnt: u8 = match counts_get(&self.nmap, &coord) {
                Some(v) => v,
                None => 0,
            };
            proof {
                assert(count_ok_at(cells, self.counts_view(), coord));
                lemma_live_neighbors_bound(cells, coord);
                assert(ncnt as nat == live_neighbors(cells, coord));
                assert(ncnt <= 8);
                assert(!acts@.take(idx as int).contains(coord)) by {
                    if acts@.take(idx as int).contains(coord) {
                        let i = choose|i: int| 0 <= i < idx && acts@.take(idx as int)[i] == coord;
                        assert(acts@[i] == acts@[idx as int]);
                    }
                }
                assert forall|y: i64| acts@.take(idx + 1).contains(y) == (acts@.take(idx as int).contains(y) || y == coord) by {
                    assert(acts@.take(idx + 1) =~= acts@.take(idx as int).push(coord));
                    lemma_push_contains(acts@.take(idx as int), coord, y);
                }
            }
            let ghost r0 = self.nrcells.1@;
            let ghost a0 = self.nrcells.0@;
            if curralive {
                if ncnt < 2 || ncnt > 3 {
                    self.nrcells.1.push(coord);
                    proof {
                        lemma_push_no_duplicates(r0, coord);
                        assert forall|y: i64| self.nrcells.1@.contains(y) == (r0.contains(y) || y == coord) by {
                            lemma_push_contains(r0, coord, y);
                        }
                    }
                }
            } else {
                if ncnt == 3 {
                    self.nrcells.0.push(coord);
                    proof {
                        lemma_push_no_duplicates(a0, coord);
                        assert forall|y: i64| self.nrcells.0@.contains(y) == (a0.contains(y) || y == coord) by {
                            lemma_push_contains(a0, coord, y);
                        }
                    }
                }
            }
            proof {
                let t1 = acts@.take(idx + 1);
                assert forall|y: i64| #[trigger] self.nrcells.1@.contains(y) == (t1.contains(y)
                    && cells.contains(y) && !next_alive(true, live_neighbors(cells, y))) by {
                    assert(r0.contains(y) == (acts@.take(idx as int).contains(y)
                        && cells.contains(y) && !next_alive(true, live_neighbors(cells, y))));
                    assert(t1.contains(y) == (acts@.take(idx as int).contains(y) || y == coord));
                }
                assert forall|y: i64| #[trigger] self.nrcells.0@.contains(y) == (t1.contains(y)
                    && !cells.contains(y) && next_alive(false, live_neighbors(cells, y))) by {
                    assert(a0.contains(y) == (acts@.take(idx as int).contains(y)
                        && !cells.contains(y) && next_alive(false, live_neighbors(cells, y))));
                    assert(t1.contains(y) == (acts@.take(idx as int).contains(y) || y == coord));
                }
            }
            idx = idx + 1;
        }
        proof {
            assert(acts@.take(acts@.len() as int) =~= acts@);
            assert forall|y: i64| acts@.contains(y) == active.contains(y) by {
                assert(acts@.to_set().contains(y) == acts@.contains(y));
            }
        }
    }
    /// Counts one more generation.
    pub fn advancelife(&mut self)
        requires
            old(self).lifetime < i32::MAX,
        ensures
            final(self).lifetime == old(self).lifetime + 1,
            final(self).cells == old(self).cells,
            final(self).active == old(self).active,
            final(self).nmap == old(self).nmap,
            final(self).same_settings(old(self)),
            final(self).nrcells == old(self).nrcells,
            final(self).prevgen == old(self).prevgen,
    {
        self.lifetime = self.lifetime + 1;
    }

    /// Advances the game one generation, cell by cell: the marked cells that
    /// the rules kill are removed and those they bring to life are added, each
    /// with its own count update.
    pub fn processactives_old(&mut self)
        requires
            old(self).wf(),
            old(self).lifetime < i32::MAX,
        ensures
            final(self).wf(),
            final(self).cells_view() == life_step(old(self).cells_view()),
            final(self).active_view() == blocks(changed(old(self).cells_view(), final(self).cells_view())),
            final(self).lifetime == old(self).lifetime + 1,
            final(self).same_settings(old(self)),
            final(self).prevgen == old(self).prevgen,
    {
        let ghost cells = self.cells_view();
        let ghost active = self.active_view();
        self.evaluate_actives();
        let mut toremove: Vec<PPair> = Vec::new();
        let mut toadd: Vec<PPair> = Vec::new();
        std::mem::swap(&mut toremove, &mut self.nrcells.1);
        std::mem::swap(&mut toadd, &mut self.nrcells.0);
        proof {
            assert(toremove@.take(0).to_set() =~= Set::<i64>::empty());
            assert(blocks(Set::<i64>::empty()) =~= Set::<i64>::empty());
        }
        let mut i: usize = 0;
        while i < toremove.len()
            invariant
                i <= toremove@.len(),
                toremove@.no_duplicates(),
                toadd@.no_duplicates(),
                forall|y: i64| #[trigger] toremove@.contains(y) == dies(cells, active, y),
                forall|y: i64| #[trigger] toadd@.contains(y) == born(cells, active, y),
                counts_ok(self.cells_view(), self.counts_view()),
                self.cells_view().finite(),
                forall|y: i64| #[trigger] self.cells_view().contains(y) == (cells.contains(y) && !toremove@.take(i as int).contains(y)),
                forall|j: int, y: i64| 0 <= j < i && #[trigger] in_block(toremove@[j], y) ==> self.active_view().contains(y),
                self.active_view() == blocks(toremove@.take(i as int).to_set()),
                self.same_settings(old(self)),
                self.lifetime == old(self).lifetime,
                self.prevgen == old(self).prevgen,
                self.nrcells.0@.len() == 0,
                self.nrcells.1@.len() == 0,
            decreases toremove@.len() - i,
        {
            let x = toremove[i];
            proof {
                assert(toremove@.contains(x));
                assert(!toremove@.take(i as int).contains(x)) by {
                    if toremove@.take(i as int).contains(x) {
                        let j = choose|j: int| 0 <= j < i && toremove@.take(i as int)[j] == x;
                        assert(toremove@[j] == toremove@[i as int]);
                    }
                }
                assert(toremove@.take(i + 1) =~= toremove@.take(i as int).push(x));
            }
            let ghost before = self.active_view();
            self.removecell(&x);
            proof {
                assert forall|y: i64| #[trigger] self.cells_view().contains(y) == (cells.contains(y) && !toremove@.take(i + 1).contains(y)) by {
                    lemma_push_contains(toremove@.take(i as int), x, y);
                }
                assert forall|j: int, y: i64| 0 <= j < i + 1 && #[trigger] in_block(toremove@[j], y) implies self.active_view().contains(y) by {
                    if j < i {
                        assert(before.contains(y));
                    } else {
                        assert(block(x).contains(y));
                    }
                }
                assert forall|y: i64| #[trigger] toremove@.take(i + 1).to_set().contains(y) == toremove@.take(i as int).to_set().insert(x).contains(y) by {
                    lemma_push_contains(toremove@.take(i as int), x, y);
                }
                assert(toremove@.take(i + 1).to_set() =~= toremove@.take(i as int).to_set().insert(x));
                lemma_blocks_insert(toremove@.take(i as int).to_set(), x);
            }
            i = i + 1;
        }
        let ghost mid = self.cells_view();
        proof {
            assert(toremove@.take(toremove@.len() as int) =~= toremove@);
            assert(toremove@.to_set().union(toadd@.take(0).to_set()) =~= toremove@.to_set());
        }
        let mut i: usize = 0;
        while i < toadd.len()
            invariant
                i <= toadd@.len(),
                toremove@.no_duplicates(),
                toadd@.no_duplicates(),
                forall|y: i64| #[trigger] toremove@.contains(y) == dies(cells, active, y),
                forall|y: i64| #[trigger] toadd@.contains(y) == born(cells, active, y),
                forall|y: i64| #[trigger] mid.contains(y) == (cells.contains(y) && !toremove@.contains(y)),
                counts_ok(self.cells_view(), self.counts_view()),
                self.cells_view().finite(),
                forall|y: i64| #[trigger] self.cells_view().contains(y) == (mid.contains(y) || toadd@.take(i as int).contains(y)),
                forall|j: int, y: i64| 0 <= j < toremove@.len() && #[trigger] in_block(toremove@[j], y) ==> self.active_view().contains(y),
                forall|j: int, y: i64| 0 <= j < i && #[trigger] in_block(toadd@[j], y) ==> self.active_view().contains(y),
                self.active_view() == blocks(toremove@.to_set().union(toadd@.take(i as int).to_set())),
                self.same_settings(old(self)),
                self.lifetime == old(self).lifetime,
                self.prevgen == old(self).prevgen,
                self.nrcells.0@.len() == 0,
                self.nrcells.1@.len() == 0,
            decreases toadd@.len() - i,
        {
            let x = toadd[i];
            proof {
                assert(toadd@.contains(x));
                assert(!toadd@.take(i as int).contains(x)) by {
                    if toadd@.take(i as int).contains(x) {
                        let j = choose|j: int| 0 <= j < i && toadd@.take(i as int)[j] == x;
                        assert(toadd@[j] == toadd@[i as int]);
                    }
                }
                assert(toadd@.take(i + 1) =~= toadd@.take(i as int).push(x));
                assert(!self.cells_view().contains(x));
            }
            let ghost before = self.active_view();
            self.addcell(x);
            proof {
                assert forall|y: i64| #[trigger] self.cells_view().contains(y) == (mid.contains(y) || toadd@.take(i + 1).contains(y)) by {
                    lemma_push_contains(toadd@.take(i as int), x, y);
                }
                assert forall|j: int, y: i64| 0 <= j < toremove@.len() && #[trigger] in_block(toremove@[j], y) implies self.active_view().contains(y) by {
                    assert(before.contains(y));
                }
                assert forall|j: int, y: i64| 0 <= j < i + 1 && #[trigger] in_block(toadd@[j], y) implies self.active_view().contains(y) by {
                    if j < i {
                        assert(before.contains(y));
                    } else {
                        assert(block(x).contains(y));
                    }
                }
                let u0 = toremove@.to_set().union(toadd@.take(i as int).to_set());
                assert forall|y: i64| #[trigger] toremove@.to_set().union(toadd@.take(i + 1).to_set()).contains(y) == u0.insert(x).contains(y) by {
                    lemma_push_contains(toadd@.take(i as int), x, y);
                }
                assert(toremove@.to_set().union(toadd@.take(i + 1).to_set()) =~= u0.insert(x));
                lemma_blocks_insert(u0, x);
            }
            i = i + 1;
        }
        proof {
            assert(toadd@.take(toadd@.len() as int) =~= toadd@);
            let fin = self.cells_view();
            assert forall|c: i64| #[trigger] changed(cells, fin).contains(c) == toremove@.to_set().union(toadd@.to_set()).contains(c) by {
                if toremove@.contains(c) {
                    assert(dies(cells, active, c));
                }
                if toadd@.contains(c) {
                    assert(born(cells, active, c));
                }
            }
            assert(changed(cells, fin) =~= toremove@.to_set().union(toadd@.to_set()));
            lemma_step_result(cells, active, toremove@.to_set(), toadd@.to_set(), fin);
            assert forall|c: i64| #[trigger] stable_at(fin, self.active_view(), c) by {
                if !self.active_view().contains(c) {
                    assert forall|k: int| 0 <= k < 8 implies cells.contains(#[trigger] neighbor(c, k)) == fin.contains(neighbor(c, k)) by {
                        let y = neighbor(c, k);
                        lemma_neighbor_back(c, k);
                        assert(neighbor(y, 7 - k) == c);
                        assert(is_neighbor(y, c));
                        if toremove@.contains(y) {
                            let j = choose|j: int| 0 <= j < toremove@.len() && toremove@[j] == y;
                            assert(in_block(toremove@[j], c));
                        }
                        if toadd@.contains(y) {
                            let j = choose|j: int| 0 <= j < toadd@.len() && toadd@[j] == y;
                            assert(in_block(toadd@[j], c));
                        }
                    }
                    lemma_live_same(cells, fin, c);
                    if toremove@.contains(c) {
                        let j = choose|j: int| 0 <= j < toremove@.len() && toremove@[j] == c;
                        assert(in_block(toremove@[j], c));
                    }
                    if toadd@.contains(c) {
                        let j = choose|j: int| 0 <= j < toadd@.len() && toadd@[j] == c;
                        assert(in_block(toadd@[j], c));
                    }
                    assert(stable_at(cells, active, c));
                    assert(fin.contains(c) == cells.contains(c));
                    assert(live_neighbors(cells, c) == live_neighbors(fin, c));
                    assert(stable_at(fin, self.active_view(), c));
                }
            }
            assert(stable(fin, self.active_view()));
        }
        self.advancelife();
    }
    /// Kills every cell of `toremove` (all alive, no repeats), marks each, and
    /// takes one off the pending change of each cell around it.
    fn retire_dead(&mut self, toremove: &Vec<PPair>, deltas: &mut DeltaMap)
        requires
            toremove@.no_duplicates(),
            forall|y: i64| #[trigger] toremove@.contains(y) ==> old(self).cells_view().contains(y),
            delta_map_view(*old(deltas)) == crate::collections::no_deltas(),
        ensures
            old(self).cells_view().finite() ==> final(self).cells_view().finite(),
            forall|y: i64| #[trigger] final(self).cells_view().contains(y) == (old(self).cells_view().contains(y) && !toremove@.contains(y)),
            forall|y: i64| #[trigger] final(self).active_view().contains(y) == (old(self).active_view().contains(y) || toremove@.contains(y)),
            forall|c: i64| #[trigger] delta_at(delta_map_view(*final(deltas)), c, 0, seq_hits(toremove@, c)),
            final(self).nmap == old(self).nmap,
            final(self).same_rest(old(self)),
    {
        let ghost cells0 = self.cells_view();
        let ghost active0 = self.active_view();
        let mut i: usize = 0;
        while i < toremove.len()
            invariant
                i <= toremove@.len(),
                toremove@.no_duplicates(),
                forall|y: i64| #[trigger] self.cells_view().contains(y) == (cells0.contains(y) && !toremove@.take(i as int).contains(y)),
                forall|y: i64| #[trigger] self.active_view().contains(y) == (active0.contains(y) || toremove@.take(i as int).contains(y)),
                forall|c: i64| #[trigger] delta_at(delta_map_view(*deltas), c, 0, seq_hits(toremove@.take(i as int), c)),
                self.nmap == old(self).nmap,
                old(self).cells_view().finite() ==> self.cells_view().finite(),
                self.same_rest(old(self)),
            decreases toremove@.len() - i,
        {
            let coord = toremove[i];
            let ghost prefix = toremove@.take(i as int);
            let ghost next = toremove@.take(i + 1);
            proof {
                assert(next =~= prefix.push(coord));
                assert(next.drop_last() =~= prefix);
                assert(next.no_duplicates());
                assert forall|y: i64| next.contains(y) == (prefix.contains(y) || y == coord) by {
                    lemma_push_contains(prefix, coord, y);
                }
            }
            let ghost c_before = self.cells_view();
            let ghost a_before = self.active_view();
            set_remove(&mut self.cells, &coord);
            set_insert(&mut self.active, coord);
            proof {
                assert forall|y: i64| #[trigger] self.cells_view().contains(y) == (cells0.contains(y) && !next.contains(y)) by {
                    assert(c_before.contains(y) == (cells0.contains(y) && !prefix.contains(y)));
                    lemma_push_contains(prefix, coord, y);
                }
                assert forall|y: i64| #[trigger] self.active_view().contains(y) == (active0.contains(y) || next.contains(y)) by {
                    assert(a_before.contains(y) == (active0.contains(y) || prefix.contains(y)));
                    lemma_push_contains(prefix, coord, y);
                }
            }
            let nbrs = around(coord);
            let mut j: usize = 0;
            while j < 8
                invariant
                    j <= 8,
                    next.no_duplicates(),
                    next.len() == i + 1,
                    next.drop_last() == prefix,
                    next.last() == coord,
                    forall|k: int| 0 <= k < 8 ==> #[trigger] nbrs@[k] == neighbor(coord, k),
                    forall|c: i64| #[trigger] delta_at(delta_map_view(*deltas), c, 0, seq_hits(prefix, c) + eq_count(coord, c, j as int)),
                    forall|y: i64| #[trigger] self.cells_view().contains(y) == (cells0.contains(y) && !next.contains(y)),
                    forall|y: i64| #[trigger] self.active_view().contains(y) == (active0.contains(y) || next.contains(y)),
                    self.nmap == old(self).nmap,
                    old(self).cells_view().finite() ==> self.cells_view().finite(),
                old(self).cells_view().finite() ==> self.cells_view().finite(),
                    self.same_rest(old(self)),
                decreases 8 - j,
            {
                let nb = nbrs[j];
                let ghost d0 = delta_map_view(*deltas);
                proof {
                    assert(delta_at(d0, nb, 0, seq_hits(prefix, nb) + eq_count(coord, nb, j as int)));
                    lemma_seq_hits_bound(next, nb);
                    crate::life::lemma_count_where_mono(|k: int| neighbor(coord, k) == nb, j + 1, 8);
                    assert(eq_count(coord, nb, j + 1) == eq_count(coord, nb, j as int) + 1);
                }
                let e: i8 = match deltas_get(deltas, &nb) {
                    Some(v) => v,
                    None => 0,
                };
                deltas_insert(deltas, nb, e - 1);
                proof {
                    assert forall|c: i64| #[trigger] delta_at(delta_map_view(*deltas), c, 0, seq_hits(prefix, c) + eq_count(coord, c, j + 1)) by {
                        assert(delta_at(d0, c, 0, seq_hits(prefix, c) + eq_count(coord, c, j as int)));
                        assert(eq_count(coord, c, j + 1) == eq_count(coord, c, j as int) + ind(neighbor(coord, j as int) == c));
                    }
                }
                j = j + 1;
            }
            proof {
                assert forall|c: i64| #[trigger] delta_at(delta_map_view(*deltas), c, 0, seq_hits(next, c)) by {
                    assert(delta_at(delta_map_view(*deltas), c, 0, seq_hits(prefix, c) + eq_count(coord, c, 8)));
                }
            }
            i = i + 1;
        }
        proof {
            assert(toremove@.take(toremove@.len() as int) =~= toremove@);
        }
    }
    /// Brings every cell of `toadd` (no repeats) to life, marks each, and adds
    /// one to the pending change of each cell around it; `toremove` names the
    /// cells already taken off.
    fn admit_born(&mut self, toadd: &Vec<PPair>, toremove: &Vec<PPair>, deltas: &mut DeltaMap)
        requires
            toadd@.no_duplicates(),
            toremove@.no_duplicates(),
            forall|c: i64| #[trigger] delta_at(delta_map_view(*old(deltas)), c, 0, seq_hits(toremove@, c)),
        ensures
            old(self).cells_view().finite() ==> final(self).cells_view().finite(),
            forall|y: i64| #[trigger] final(self).cells_view().contains(y) == (old(self).cells_view().contains(y) || toadd@.contains(y)),
            forall|y: i64| #[trigger] final(self).active_view().contains(y) == (old(self).active_view().contains(y) || toadd@.contains(y)),
            forall|c: i64| #[trigger] delta_at(delta_map_view(*final(deltas)), c, seq_hits(toadd@, c), seq_hits(toremove@, c)),
            final(self).nmap == old(self).nmap,
            final(self).same_rest(old(self)),
    {
        let ghost cells0 = self.cells_view();
        let ghost active0 = self.active_view();
        let mut i: usize = 0;
        while i < toadd.len()
            invariant
                i <= toadd@.len(),
                toadd@.no_duplicates(),
                toremove@.no_duplicates(),
                forall|y: i64| #[trigger] self.cells_view().contains(y) == (cells0.contains(y) || toadd@.take(i as int).contains(y)),
                forall|y: i64| #[trigger] self.active_view().contains(y) == (active0.contains(y) || toadd@.take(i as int).contains(y)),
                forall|c: i64| #[trigger] delta_at(delta_map_view(*deltas), c, seq_hits(toadd@.take(i as int), c), seq_hits(toremove@, c)),
                self.nmap == old(self).nmap,
                old(self).cells_view().finite() ==> self.cells_view().finite(),
                self.same_rest(old(self)),
            decreases toadd@.len() - i,
        {
            let coord = toadd[i];
            let ghost prefix = toadd@.take(i as int);
            let ghost next = toadd@.take(i + 1);
            proof {
                assert(next =~= prefix.push(coord));
                assert(next.drop_last() =~= prefix);
                assert(next.no_duplicates());
            }
            let ghost c_before = self.cells_view();
            let ghost a_before = self.active_view();
            set_insert(&mut self.active, coord);
            set_insert(&mut self.cells, coord);
            proof {
                assert forall|y: i64| #[trigger] self.cells_view().contains(y) == (cells0.contains(y) || next.contains(y)) by {
                    assert(c_before.contains(y) == (cells0.contains(y) || prefix.contains(y)));
                    lemma_push_contains(prefix, coord, y);
                }
                assert forall|y: i64| #[trigger] self.active_view().contains(y) == (active0.contains(y) || next.contains(y)) by {
                    assert(a_before.contains(y) == (active0.contains(y) || prefix.contains(y)));
                    lemma_push_contains(prefix, coord, y);
                }
            }
            let nbrs = around(coord);
            let mut j: usize = 0;
            while j < 8
                invariant
                    j <= 8,
                    next.no_duplicates(),
                    toremove@.no_duplicates(),
                    next.len() == i + 1,
                    next.drop_last() == prefix,
                    next.last() == coord,
                    forall|k: int| 0 <= k < 8 ==> #[trigger] nbrs@[k] == neighbor(coord, k),
                    forall|c: i64| #[trigger] delta_at(delta_map_view(*deltas), c, seq_hits(prefix, c) + eq_count(coord, c, j as int), seq_hits(toremove@, c)),
                    forall|y: i64| #[trigger] self.cells_view().contains(y) == (cells0.contains(y) || next.contains(y)),
                    forall|y: i64| #[trigger] self.active_view().contains(y) == (active0.contains(y) || next.contains(y)),
                    self.nmap == old(self).nmap,
                    old(self).cells_view().finite() ==> self.cells_view().finite(),
                old(self).cells_view().finite() ==> self.cells_view().finite(),
                    self.same_rest(old(self)),
                decreases 8 - j,
            {
                let nb = nbrs[j];
                let ghost d0 = delta_map_view(*deltas);
                proof {
                    assert(delta_at(d0, nb, seq_hits(prefix, nb) + eq_count(coord, nb, j as int), seq_hits(toremove@, nb)));
                    lemma_seq_hits_bound(next, nb);
                    lemma_seq_hits_bound(toremove@, nb);
                    crate::life::lemma_count_where_mono(|k: int| neighbor(coord, k) == nb, j + 1, 8);
                    assert(eq_count(coord, nb, j + 1) == eq_count(coord, nb, j as int) + 1);
                }
                let e: i8 = match deltas_get(deltas, &nb) {
                    Some(v) => v,
                    None => 0,
                };
                deltas_insert(deltas, nb, e + 1);
                proof {
                    assert forall|c: i64| #[trigger] delta_at(delta_map_view(*deltas), c, seq_hits(prefix, c) + eq_count(coord, c, j + 1), seq_hits(toremove@, c)) by {
                        assert(delta_at(d0, c, seq_hits(prefix, c) + eq_count(coord, c, j as int), seq_hits(toremove@, c)));
                        assert(eq_count(coord, c, j + 1) == eq_count(coord, c, j as int) + ind(neighbor(coord, j as int) == c));
                    }
                }
                j = j + 1;
            }
            proof {
                assert forall|c: i64| #[trigger] delta_at(delta_map_view(*deltas), c, seq_hits(next, c), seq_hits(toremove@, c)) by {
                    assert(delta_at(delta_map_view(*deltas), c, seq_hits(prefix, c) + eq_count(coord, c, 8), seq_hits(toremove@, c)));
                }
            }
            i = i + 1;
        }
        proof {
            assert(toadd@.take(toadd@.len() as int) =~= toadd@);
        }
    }
    /// Applies the pending changes to the counts (an entry that reaches zero is
    /// dropped) and marks every cell that has a pending change; `before` is the
    /// cell set the counts were right for.
    fn apply_deltas(&mut self, deltas: &mut DeltaMap, Ghost(before): Ghost<Set<i64>>)
        requires
            counts_ok(before, old(self).counts_view()),
            forall|c: i64| #[trigger] live_neighbors(old(self).cells_view(), c) == live_neighbors(before, c) + dval(delta_map_view(*old(deltas)), c),
        ensures
            counts_ok(final(self).cells_view(), final(self).counts_view()),
            forall|y: i64| #[trigger] final(self).active_view().contains(y) == (old(self).active_view().contains(y)
                || delta_map_view(*old(deltas)).contains_key(y)),
            final(self).cells == old(self).cells,
            final(self).same_rest(old(self)),
    {
        let ghost now = self.cells_view();
        let ghost d = delta_map_view(*deltas);
        let ghost active0 = self.active_view();
        let entries = deltas_drain(deltas);
        let mut idx: usize = 0;
        while idx < entries.len()
            invariant
                idx <= entries@.len(),
                forall|i: int, j: int| 0 <= i < j < entries@.len() ==> entries@[i].0 != entries@[j].0,
                forall|i: int| 0 <= i < entries@.len() ==> d.contains_key(#[trigger] entries@[i].0) && d[entries@[i].0] == entries@[i].1,
                forall|c: i64| #[trigger] live_neighbors(now, c) == live_neighbors(before, c) + dval(d, c),
                forall|c: i64| #[trigger] count_ok_at(pick(key_done(entries@, idx as int, c), now, before), self.counts_view(), c),
                forall|y: i64| #[trigger] self.active_view().contains(y) == (active0.contains(y) || key_done(entries@, idx as int, y)),
                self.cells_view() == now,
                self.cells == old(self).cells,
                self.same_rest(old(self)),
            decreases entries@.len() - idx,
        {
            let (k, dk) = entries[idx];
            proof {
                assert(d.contains_key(entries@[idx as int].0));
                assert(!key_done(entries@, idx as int, k)) by {
                    if key_done(entries@, idx as int, k) {
                        let i = choose|i: int| 0 <= i < idx && #[trigger] entries@[i].0 == k;
                        assert(entries@[i].0 != entries@[idx as int].0);
                    }
                }
                assert forall|c: i64| #[trigger] key_done(entries@, idx + 1, c) == (key_done(entries@, idx as int, c) || c == k) by {
                    if c == k {
                        assert(entries@[idx as int].0 == c);
                    }
                    if key_done(entries@, idx + 1, c) {
                        let i = choose|i: int| 0 <= i < idx + 1 && #[trigger] entries@[i].0 == c;
                        if i < idx {
                            assert(key_done(entries@, idx as int, c));
                        }
                    }
                    if key_done(entries@, idx as int, c) {
                        let i = choose|i: int| 0 <= i < idx && #[trigger] entries@[i].0 == c;
                        assert(entries@[i].0 == c);
                    }
                }
                assert(count_ok_at(pick(key_done(entries@, idx as int, k), now, before), self.counts_view(), k));
                assert(live_neighbors(now, k) == live_neighbors(before, k) + dval(d, k));
                lemma_live_neighbors_bound(now, k);
                lemma_live_neighbors_bound(before, k);
            }
            let ghost a_before = self.active_view();
            let ghost m0 = self.counts_view();
            set_insert(&mut self.active, k);
            if dk != 0 {
                let v: u8 = match counts_get(&self.nmap, &k) {
                    Some(v) => v,
                    None => 0,
                };
                let nv = ((v as i8) + dk) as u8;
                counts_insert(&mut self.nmap, k, nv);
                if nv == 0 {
                    counts_remove(&mut self.nmap, &k);
                }
            }
            proof {
                assert forall|c: i64| #[trigger] count_ok_at(pick(key_done(entries@, idx + 1, c), now, before), self.counts_view(), c) by {
                    assert(count_ok_at(pick(key_done(entries@, idx as int, c), now, before), m0, c));
                    assert(key_done(entries@, idx + 1, c) == (key_done(entries@, idx as int, c) || c == k));
                }
                assert forall|y: i64| #[trigger] self.active_view().contains(y) == (active0.contains(y) || key_done(entries@, idx + 1, y)) by {
                    assert(a_before.contains(y) == (active0.contains(y) || key_done(entries@, idx as int, y)));
                    assert(key_done(entries@, idx + 1, y) == (key_done(entries@, idx as int, y) || y == k));
                }
            }
            idx = idx + 1;
        }
        proof {
            assert forall|c: i64| #[trigger] key_done(entries@, entries@.len() as int, c) == d.contains_key(c) by {
                if d.contains_key(c) {
                    let i = choose|i: int| 0 <= i < entries@.len() && #[trigger] entries@[i].0 == c;
                    assert(key_done(entries@, entries@.len() as int, c));
                }
                if key_done(entries@, entries@.len() as int, c) {
                    let i = choose|i: int| 0 <= i < entries@.len() && #[trigger] entries@[i].0 == c;
                    assert(d.contains_key(entries@[i].0));
                }
            }
            assert forall|c: i64| #[trigger] count_ok_at(now, self.counts_view(), c) by {
                assert(count_ok_at(pick(key_done(entries@, entries@.len() as int, c), now, before), self.counts_view(), c));
                assert(live_neighbors(now, c) == live_neighbors(before, c) + dval(d, c));
            }
            assert forall|y: i64| #[trigger] self.active_view().contains(y) == (active0.contains(y) || d.contains_key(y)) by {
                assert(key_done(entries@, entries@.len() as int, y) == d.contains_key(y));
            }
        }
    }

    /// Advances the game one generation: the marked cells that the rules kill
    /// are removed and those they bring to life are added, and the counts
    /// around them are updated together from the net change of each cell.
    pub fn processactives(&mut self)
        requires
            old(self).wf(),
            old(self).lifetime < i32::MAX,
        ensures
            final(self).wf(),
            final(self).cells_view() == life_step(old(self).cells_view()),
            final(self).active_view() == blocks(changed(old(self).cells_view(), final(self).cells_view())),
            final(self).lifetime == old(self).lifetime + 1,
            final(self).same_settings(old(self)),
            final(self).prevgen == old(self).prevgen,
    {
        let ghost cells = self.cells_view();
        let ghost active = self.active_view();
        self.evaluate_actives();
        let mut toremove: Vec<PPair> = Vec::new();
        let mut toadd: Vec<PPair> = Vec::new();
        std::mem::swap(&mut toremove, &mut self.nrcells.1);
        std::mem::swap(&mut toadd, &mut self.nrcells.0);
        let mut deltas = deltas_new();
        deltas_reserve(&mut deltas, (toremove.len() + toadd.len()) << 3usize);
        proof {
            assert forall|y: i64| #[trigger] toremove@.contains(y) implies cells.contains(y) by {
                assert(dies(cells, active, y));
            }
        }
        let ghost a0 = self.active_view();
        self.retire_dead(&toremove, &mut deltas);
        let ghost a1 = self.active_view();
        self.admit_born(&toadd, &toremove, &mut deltas);
        let ghost a2 = self.active_view();
        let ghost now = self.cells_view();
        let ghost d = delta_map_view(deltas);
        proof {
            assert forall|y: i64| #[trigger] now.contains(y) == ((cells.contains(y) && !toremove@.contains(y)) || toadd@.contains(y)) by {
            }
            assert forall|y: i64| #[trigger] toadd@.contains(y) implies !cells.contains(y) by {
                assert(born(cells, active, y));
            }
            assert forall|c: i64| #[trigger] live_neighbors(now, c) == live_neighbors(cells, c) + dval(d, c) by {
                lemma_counts_shift(cells, toremove@, toadd@, now, c);
                assert(delta_at(d, c, seq_hits(toadd@, c), seq_hits(toremove@, c)));
            }
        }
        self.apply_deltas(&mut deltas, Ghost(cells));
        let ghost a3 = self.active_view();
        proof {
            assert forall|y: i64| #[trigger] a3.contains(y) == (a2.contains(y) || d.contains_key(y)) by {
            }
        }
        self.nrcells.1.clear();
        self.nrcells.0.clear();
        proof {
            lemma_step_result(cells, active, toremove@.to_set(), toadd@.to_set(), now);
            assert forall|c: i64| #[trigger] stable_at(now, self.active_view(), c) by {
                assert(a1.contains(c) == (a0.contains(c) || toremove@.contains(c)));
                assert(a2.contains(c) == (a1.contains(c) || toadd@.contains(c)));
                assert(a3.contains(c) == (a2.contains(c) || d.contains_key(c)));
                assert(self.active_view() == a3);
                if !self.active_view().contains(c) {
                    assert(!toremove@.contains(c));
                    assert(!toadd@.contains(c));
                    assert(!d.contains_key(c));
                    assert(delta_at(d, c, seq_hits(toadd@, c), seq_hits(toremove@, c)));
                    lemma_counts_shift(cells, toremove@, toadd@, now, c);
                    assert(stable_at(cells, active, c));
                    assert(now.contains(c) == cells.contains(c));
                }
            }
        }
        proof {
            let fin = self.cells_view();
            assert forall|y: i64| #[trigger] self.active_view().contains(y) == blocks(changed(cells, fin)).contains(y) by {
                assert(a1.contains(y) == (a0.contains(y) || toremove@.contains(y)));
                assert(a2.contains(y) == (a1.contains(y) || toadd@.contains(y)));
                assert(a3.contains(y) == (a2.contains(y) || d.contains_key(y)));
                assert(delta_at(d, y, seq_hits(toadd@, y), seq_hits(toremove@, y)));
                lemma_hits_in_blocks(toremove@, y);
                lemma_hits_in_blocks(toadd@, y);
                assert forall|c: i64| #[trigger] changed(cells, fin).contains(c) == (toremove@.to_set().contains(c)
                    || toadd@.to_set().contains(c)) by {
                    assert(now.contains(c) == ((cells.contains(c) && !toremove@.contains(c)) || toadd@.contains(c)));
                    if toremove@.contains(c) {
                        assert(dies(cells, active, c));
                    }
                    if toadd@.contains(c) {
                        assert(born(cells, active, c));
                    }
                }
                if blocks(changed(cells, fin)).contains(y) {
                    let c = choose|c: i64| changed(cells, fin).contains(c) && #[trigger] in_block(c, y);
                    if toremove@.to_set().contains(c) {
                        assert(blocks(toremove@.to_set()).contains(y));
                    } else {
                        assert(blocks(toadd@.to_set()).contains(y));
                    }
                }
                if blocks(toremove@.to_set()).contains(y) {
                    let c = choose|c: i64| toremove@.to_set().contains(c) && #[trigger] in_block(c, y);
                    assert(changed(cells, fin).contains(c));
                }
                if blocks(toadd@.to_set()).contains(y) {
                    let c = choose|c: i64| toadd@.to_set().contains(c) && #[trigger] in_block(c, y);
                    assert(changed(cells, fin).contains(c));
                }
            }
            assert(self.active_view() =~= blocks(changed(cells, fin)));
        }
        self.advancelife();
    }
    /// Adds the five cells of a glider heading down and right, with its
    /// corner at the origin.
    pub fn insertglider(&mut self)
        requires
            counts_ok(old(self).cells_view(), old(self).counts_view()),
        ensures
            final(self).cells_view() == old(self).cells_view().union(glider()),
            counts_ok(final(self).cells_view(), final(self).counts_view()),
            stable(old(self).cells_view(), old(self).active_view()) ==> stable(
                final(self).cells_view(),
                final(self).active_view(),
            ),
            final(self).same_rest(old(self)),
    {
        let ghost cells0 = self.cells_view();
        let ghost stable0 = stable(self.cells_view(), self.active_view());
        let points: [(i32, i32); 5] = [(0, 1), (1, 0), (2, 0), (2, 1), (2, 2)];
        let mut i: usize = 0;
        while i < 5
            invariant
                i <= 5,
                points@ == seq![(0i32, 1i32), (1i32, 0i32), (2i32, 0i32), (2i32, 1i32), (2i32, 2i32)],
                counts_ok(self.cells_view(), self.counts_view()),
                stable0 ==> stable(self.cells_view(), self.active_view()),
                forall|y: i64| #[trigger] self.cells_view().contains(y) == (cells0.contains(y)
                    || exists|j: int| 0 <= j < i && y == #[trigger] pack_spec(points@[j].0, points@[j].1)),
                self.same_rest(old(self)),
            decreases 5 - i,
        {
            let p = points[i];
            let ghost c_before = self.cells_view();
            self.addcell(pack(p.0, p.1));
            proof {
                assert forall|y: i64| #[trigger] self.cells_view().contains(y) == (cells0.contains(y)
                    || exists|j: int| 0 <= j < i + 1 && y == #[trigger] pack_spec(points@[j].0, points@[j].1)) by {
                    assert(c_before.contains(y) == (cells0.contains(y)
                        || exists|j: int| 0 <= j < i && y == #[trigger] pack_spec(points@[j].0, points@[j].1)));
                    if y == pack_spec(points@[i as int].0, points@[i as int].1) {
                        assert(exists|j: int| 0 <= j < i + 1 && y == #[trigger] pack_spec(points@[j].0, points@[j].1));
                    }
                }
            }
            i = i + 1;
        }
        proof {
            assert forall|y: i64| #[trigger] self.cells_view().contains(y) == cells0.union(glider()).contains(y) by {
                if glider().contains(y) {
                    if y == pack_spec(0, 1) {
                        assert(pack_spec(points@[0].0, points@[0].1) == y);
                    } else if y == pack_spec(1, 0) {
                        assert(pack_spec(points@[1].0, points@[1].1) == y);
                    } else if y == pack_spec(2, 0) {
                        assert(pack_spec(points@[2].0, points@[2].1) == y);
                    } else if y == pack_spec(2, 1) {
                        assert(pack_spec(points@[3].0, points@[3].1) == y);
                    } else {
                        assert(pack_spec(points@[4].0, points@[4].1) == y);
                    }
                }
            }
            assert(self.cells_view() =~= cells0.union(glider()));
        }
    }

    /// Brings every cell of `pts` to life.
    pub fn add_cells(&mut self, pts: &Vec<PPair>)
        requires
            counts_ok(old(self).cells_view(), old(self).counts_view()),
        ensures
            final(self).cells_view() == old(self).cells_view().union(pts@.to_set()),
            counts_ok(final(self).cells_view(), final(self).counts_view()),
            stable(old(self).cells_view(), old(self).active_view()) ==> stable(
                final(self).cells_view(),
                final(self).active_view(),
            ),
            final(self).same_rest(old(self)),
    {
        let ghost cells0 = self.cells_view();
        let ghost stable0 = stable(self.cells_view(), self.active_view());
        let mut n: usize = 0;
        while n < pts.len()
            invariant
                n <= pts@.len(),
                counts_ok(self.cells_view(), self.counts_view()),
                stable0 ==> stable(self.cells_view(), self.active_view()),
                self.cells_view() == cells0.union(pts@.take(n as int).to_set()),
                self.same_rest(old(self)),
            decreases pts@.len() - n,
        {
            let c = pts[n];
            self.addcell(c);
            proof {
                assert forall|y: i64| #[trigger] pts@.take(n + 1).to_set().contains(y) == pts@.take(n as int).to_set().insert(c).contains(y) by {
                    assert(pts@.take(n + 1) =~= pts@.take(n as int).push(c));
                    lemma_push_contains(pts@.take(n as int), c, y);
                }
                assert(self.cells_view() =~= cells0.union(pts@.take(n + 1).to_set()));
            }
            n = n + 1;
        }
        proof {
            assert(pts@.take(pts@.len() as int) =~= pts@);
        }
    }

    /// Draws `n` cells at random inside the view bounds (edges included): for
    /// each, a random column and then a random row. Only the generator
    /// changes.
    fn random_cells(&mut self, n: u32) -> (pts: Vec<PPair>)
        requires
            old(self).bounds.0.0 <= old(self).bounds.1.0,
            old(self).bounds.0.1 <= old(self).bounds.1.1,
        ensures
            pts@.len() == n,
            forall|i: int| 0 <= i < n ==> #[trigger] in_bounds(old(self).bounds, pts@[i]),
            final(self).cells == old(self).cells,
            final(self).active == old(self).active,
            final(self).nmap == old(self).nmap,
            final(self).bounds == old(self).bounds,
            final(self).ts == old(self).ts,
            final(self).frametimer == old(self).frametimer,
            final(self).lifetime == old(self).lifetime,
            final(self).nrcells == old(self).nrcells,
            final(self).prevgen == old(self).prevgen,
    {
        let ((min_x, min_y), (max_x, max_y)) = self.bounds;
        let mut pts: Vec<PPair> = Vec::new();
        let mut k: u32 = 0;
        while k < n
            invariant
                k <= n,
                pts@.len() == k,
                ((min_x, min_y), (max_x, max_y)) == old(self).bounds,
                min_x <= max_x,
                min_y <= max_y,
                forall|i: int| 0 <= i < k ==> #[trigger] in_bounds(old(self).bounds, pts@[i]),
                self.cells == old(self).cells,
                self.active == old(self).active,
                self.nmap == old(self).nmap,
                self.bounds == old(self).bounds,
                self.ts == old(self).ts,
                self.frametimer == old(self).frametimer,
                self.lifetime == old(self).lifetime,
                self.nrcells == old(self).nrcells,
                self.prevgen == old(self).prevgen,
            decreases n - k,
        {
            let x = random_range_i32(&mut self.seed, min_x, max_x);
            let y = random_range_i32(&mut self.seed, min_y, max_y);
            pts.push(pack(x, y));
            k = k + 1;
        }
        pts
    }

    /// Adds 4000 cells picked at random inside the view bounds (edges
    /// included); some may coincide or be alive already.
    pub fn handleinput(&mut self)
        requires
            counts_ok(old(self).cells_view(), old(self).counts_view()),
            old(self).bounds.0.0 <= old(self).bounds.1.0,
            old(self).bounds.0.1 <= old(self).bounds.1.1,
        ensures
            counts_ok(final(self).cells_view(), final(self).counts_view()),
            seeded(old(self).cells_view(), final(self).cells_view(), old(self).bounds),
            exists|p: i64| #[trigger] final(self).cells_view().contains(p) && in_bounds(old(self).bounds, p),
            old(self).cells_view().finite() ==> final(self).cells_view().finite() && final(self).cells_view().len()
                <= old(self).cells_view().len() + 4000,
            stable(old(self).cells_view(), old(self).active_view()) ==> stable(
                final(self).cells_view(),
                final(self).active_view(),
            ),
            final(self).bounds == old(self).bounds,
            final(self).lifetime == old(self).lifetime,
            final(self).nrcells == old(self).nrcells,
            final(self).prevgen == old(self).prevgen,
            final(self).ts == old(self).ts,
            final(self).frametimer == old(self).frametimer,
    {
        let pts = self.random_cells(4000);
        self.add_cells(&pts);
        proof {
            lemma_seeded(old(self).cells_view(), self.cells_view(), old(self).bounds, pts@);
        }
    }

    /// Shifts each edge of the view bounds by a random step (left edge by -5
    /// to 4, bottom by -2 to 1, right by -4 to 6, top by -1 to 3), then widens
    /// the view to at least 10 across and 10 high.
    pub fn incbounds(&mut self)
        requires
            incbounds_ok(old(self).bounds),
        ensures
            exists|sx0: int, sy0: int, sx1: int, sy1: int|
                -5 <= sx0 <= 4 && -2 <= sy0 <= 1 && -4 <= sx1 <= 6 && -1 <= sy1 <= 3
                    && #[trigger] shifted_bounds(old(self).bounds, sx0, sy0, sx1, sy1) == final(self).bounds,
            final(self).cells == old(self).cells,
            final(self).active == old(self).active,
            final(self).nmap == old(self).nmap,
            final(self).lifetime == old(self).lifetime,
            final(self).nrcells == old(self).nrcells,
            final(self).prevgen == old(self).prevgen,
            final(self).ts == old(self).ts,
            final(self).frametimer == old(self).frametimer,
    {
        let ghost b = self.bounds;
        let a0 = random_range_i32(&mut self.seed, -5, 5 - 1);
        let a1 = random_range_i32(&mut self.seed, -5, 5) + 1;
        let c0 = random_range_i32(&mut self.seed, -2, 2 - 1);
        let c1 = random_range_i32(&mut self.seed, -2, 2) + 1;
        let shift_x: (i32, i32) = (a0, a1);
        let shift_y: (i32, i32) = (c0, c1);
        self.bounds.0.0 = self.bounds.0.0 + shift_x.0;
        self.bounds.0.1 = self.bounds.0.1 + shift_y.0;
        self.bounds.1.0 = self.bounds.1.0 + shift_x.1;
        self.bounds.1.1 = self.bounds.1.1 + shift_y.1;
        self.bounds.1.1 = (self.bounds.0.1 + 10).max(self.bounds.1.1);
        self.bounds.1.0 = (self.bounds.0.0 + 10).max(self.bounds.1.0);
        proof {
            assert(shifted_bounds(b, a0 as int, c0 as int, a1 as int, c1 as int) == self.bounds);
        }
    }

    /// One line describing the game: counts of live and marked cells, the
    /// generation and the view bounds.
    pub fn debuginfo(&self) -> (r: String)
        ensures
            r@ == game_line(
                set_view(self.cells).len() as usize,
                set_view(self.active).len() as usize,
                self.lifetime,
                self.bounds,
            ),
    {
        let mut line = String::from_str("Cells: ");
        line.append(decimal_string(set_len(&self.cells) as i128).as_str());
        line.append(", Active: ");
        line.append(decimal_string(set_len(&self.active) as i128).as_str());
        line.append(", Lifetime: ");
        line.append(decimal_string(self.lifetime as i128).as_str());
        line.append(", Bounds: ((");
        line.append(decimal_string(self.bounds.0.0 as i128).as_str());
        line.append(", ");
        line.append(decimal_string(self.bounds.0.1 as i128).as_str());
        line.append("), (");
        line.append(decimal_string(self.bounds.1.0 as i128).as_str());
        line.append(", ");
        line.append(decimal_string(self.bounds.1.1 as i128).as_str());
        line.append("))");
        line
    }
}

/// The view bounds moved by the given steps (left, bottom, right, top), then
/// widened to at least 10 across and 10 high.
pub open spec fn shifted_bounds(b: (Pair, Pair), sx0: int, sy0: int, sx1: int, sy1: int) -> (Pair, Pair) {
    let left = b.0.0 + sx0;
    let bottom = b.0.1 + sy0;
    let right = b.1.0 + sx1;
    let top = b.1.1 + sy1;
    (
        (left as i32, bottom as i32),
        ((if left + 10 >= right { left + 10 } else { right }) as i32, (if bottom + 10 >= top { bottom + 10 } else { top }) as i32),
    )
}

/// Every random shift of `incbounds` keeps the bounds within `i32`.
pub open spec fn incbounds_ok(b: (Pair, Pair)) -> bool {
    &&& i32::MIN + 5 <= b.0.0 <= i32::MAX - 14
    &&& i32::MIN + 2 <= b.0.1 <= i32::MAX - 11
    &&& i32::MIN + 4 <= b.1.0 <= i32::MAX - 6
    &&& i32::MIN + 1 <= b.1.1 <= i32::MAX - 3
}

/// `n` in decimal, with a `-` first when it is negative: what `Display` (and
/// `Debug`) write for an integer.
pub open spec fn decimal_text(n: int) -> Seq<char> {
    let digits = dec_digits(if n < 0 { (-n) as nat } else { n as nat }).map_values(|d: u8| ((d as int) + 48) as char);
    if n < 0 {
        seq!['-'] + digits
    } else {
        digits
    }
}

/// The text of `Cells: {}, Active: {}, Lifetime: {}, Bounds: {:?}` formatted
/// with these values; the bounds are written as nested pairs, `((a, b), (c,
/// d))`.
pub open spec fn game_line(cells: usize, active: usize, lifetime: i32, bounds: (Pair, Pair)) -> Seq<char> {
    "Cells: "@ + decimal_text(cells as int) + ", Active: "@ + decimal_text(active as int) + ", Lifetime: "@
        + decimal_text(lifetime as int) + ", Bounds: (("@ + decimal_text(bounds.0.0 as int) + ", "@ + decimal_text(
        bounds.0.1 as int,
    ) + "), ("@ + decimal_text(bounds.1.0 as int) + ", "@ + decimal_text(bounds.1.1 as int) + "))"@
}

/// `i128::to_string` (its `Display`): `n` in decimal, with a `-` first when
/// it is negative.
#[verifier::external_body]
fn decimal_string(n: i128) -> (r: String)
    ensures
        r@ == decimal_text(n as int),
{
    n.to_string()
}

impl Game {
    /// The default game: nothing alive or marked, the view from (-50, -50) to
    /// (50, 50), generation 0.
    pub fn new() -> (r: Game)
        ensures
            r.wf(),
            r.cells_view() == Set::<i64>::empty(),
            r.active_view() == Set::<i64>::empty(),
            r.counts_view() == crate::collections::no_counts(),
            r.bounds == ((-50i32, -50i32), (50i32, 50i32)),
            r.lifetime == 0,
            r.prevgen == 0,
    {
        let g = Game {
            cells: set_new(),
            active: set_new(),
            nmap: counts_new(),
            bounds: ((-50, -50), (50, 50)),
            lifetime: 0,
            seed: thread_rng(),
            ts: Timestamp { start: instant_now() },
            frametimer: instant_now(),
            nrcells: (Vec::new(), Vec::new()),
            prevgen: 0,
        };
        proof {
            assert forall|c: i64| #[trigger] count_ok_at(g.cells_view(), g.counts_view(), c) by {
                lemma_count_where_none(|k: int| g.cells_view().contains(neighbor(c, k)), 8);
            }
            assert forall|c: i64| #[trigger] stable_at(g.cells_view(), g.active_view(), c) by {
                lemma_count_where_none(|k: int| g.cells_view().contains(neighbor(c, k)), 8);
            }
        }
        g
    }
}

impl Default for Game {
    /// The same as `Game::new`.
    fn default() -> (r: Game)
        ensures
            r.wf(),
            r.cells_view() == Set::<i64>::empty(),
            r.active_view() == Set::<i64>::empty(),
            r.counts_view() == crate::collections::no_counts(),
            r.bounds == ((-50i32, -50i32), (50i32, 50i32)),
            r.lifetime == 0,
            r.prevgen == 0,
    {
        Game::new()
    }
}

impl Game {
    /// The first part of a step of the terminal front end: restarts the
    /// stopwatch and advances a generation.
    pub fn loopgame_step(&mut self)
        requires
            old(self).wf(),
            old(self).lifetime < i32::MAX,
        ensures
            final(self).wf(),
            final(self).cells_view() == life_step(old(self).cells_view()),
            final(self).active_view() == blocks(changed(old(self).cells_view(), final(self).cells_view())),
            final(self).lifetime == old(self).lifetime + 1,
            final(self).bounds == old(self).bounds,
            final(self).prevgen == old(self).prevgen,
            final(self).frametimer == old(self).frametimer,
    {
        self.ts.bump();
        self.processactives();
    }

    /// The middle of a step of the terminal front end, `elapsed_ms` after the
    /// last frame shown: in every hundredth generation (the generation number
    /// leaving 1 over 100) scatters 4000 random cells into the view, and once
    /// at least 200 ms have passed returns the rates to report (generations
    /// per second and milliseconds per generation).
    pub fn loopgame(&mut self, elapsed_ms: u128) -> (r: Option<(i32, i32)>)
        requires
            old(self).wf(),
            loopgame_ok(old(self).lifetime, old(self).prevgen, old(self).bounds, elapsed_ms),
        ensures
            final(self).wf(),
            trunc_rem(old(self).lifetime as int, 100) != 1 ==> final(self).cells == old(self).cells
                && final(self).active == old(self).active && final(self).nmap == old(self).nmap,
            trunc_rem(old(self).lifetime as int, 100) == 1 ==> seeded(old(self).cells_view(), final(self).cells_view(), old(self).bounds)
                && exists|p: i64| #[trigger] final(self).cells_view().contains(p) && in_bounds(old(self).bounds, p)
                && final(self).cells_view().len() <= old(self).cells_view().len() + 4000,
            final(self).lifetime == old(self).lifetime,
            final(self).prevgen == old(self).prevgen,
            final(self).frametimer == old(self).frametimer,
            final(self).bounds == old(self).bounds,
            r == if elapsed_ms >= 200 {
                Some(gen_rates(elapsed_ms, old(self).lifetime as int, old(self).prevgen as int))
            } else {
                None::<(i32, i32)>
            },
    {
        if self.lifetime % 100 == 1 {
            self.handleinput();
        }
        if elapsed_ms >= 200 {
            let nowgen = self.lifetime;
            let gens: i32 = nowgen - self.prevgen;
            let ms: i32 = elapsed_ms as i32;
            Some(((gens * 1000) / ms, ms / gens))
        } else {
            None
        }
    }

    /// The end of a step of the terminal front end: after a frame was shown,
    /// restarts the frame timer and remembers the generation shown; then
    /// counts one more generation.
    pub fn loopgame_end(&mut self, shown: bool)
        requires
            old(self).lifetime < i32::MAX,
        ensures
            final(self).lifetime == old(self).lifetime + 1,
            final(self).prevgen == if shown { old(self).lifetime } else { old(self).prevgen },
            !shown ==> final(self).frametimer == old(self).frametimer,
            final(self).cells == old(self).cells,
            final(self).active == old(self).active,
            final(self).nmap == old(self).nmap,
            final(self).nrcells == old(self).nrcells,
            final(self).bounds == old(self).bounds,
            final(self).ts == old(self).ts,
    {
        if shown {
            self.frametimer = instant_now();
            self.prevgen = self.lifetime;
        }
        self.lifetime = self.lifetime + 1;
    }
}

/// The rates the terminal front end reports: generations per second and
/// milliseconds per generation, from `elapsed_ms` and the generations since
/// the last report (`nowgen - prevgen`), in `i32` arithmetic.
pub open spec fn gen_rates(elapsed_ms: u128, nowgen: int, prevgen: int) -> (i32, i32) {
    let gens = nowgen - prevgen;
    let ms = (elapsed_ms as i32) as int;
    (trunc_div(gens * 1000, ms) as i32, trunc_div(ms, gens) as i32)
}

/// `loopgame` can run without overflow, division by zero or an empty random
/// range, and `loopgame_end` after it.
pub open spec fn loopgame_ok(lifetime: i32, prevgen: i32, bounds: (Pair, Pair), elapsed_ms: u128) -> bool {
    let nowgen = lifetime as int;
    let gens = nowgen - prevgen;
    let ms = (elapsed_ms as i32) as int;
    &&& lifetime < i32::MAX
    &&& trunc_rem(nowgen, 100) == 1 ==> bounds.0.0 <= bounds.1.0 && bounds.0.1 <= bounds.1.1
    &&& elapsed_ms >= 200 ==> {
        &&& fits_i32(gens)
        &&& fits_i32(gens * 1000)
        &&& ms != 0
        &&& gens != 0
        &&& !(gens * 1000 == i32::MIN && ms == -1)
        &&& !(ms == i32::MIN && gens == -1)
    }
}

impl Game {
    /// Whether `loopgame` can run after `elapsed_ms` without overflow,
    /// division by zero or an empty random range, and `loopgame_end` after
    /// it.
    pub fn loopgame_fits(&self, elapsed_ms: u128) -> (r: bool)
        ensures
            r == loopgame_ok(self.lifetime, self.prevgen, self.bounds, elapsed_ms),
    {
        if self.lifetime == i32::MAX {
            return false;
        }
        let nowgen: i32 = self.lifetime;
        if nowgen % 100 == 1 && !(self.bounds.0.0 <= self.bounds.1.0 && self.bounds.0.1 <= self.bounds.1.1) {
            return false;
        }
        if elapsed_ms >= 200 {
            let gens: i64 = nowgen as i64 - self.prevgen as i64;
            let ms: i32 = elapsed_ms as i32;
            if gens < i32::MIN as i64 || gens > i32::MAX as i64 {
                return false;
            }
            let scaled: i64 = gens * 1000;
            if scaled < i32::MIN as i64 || scaled > i32::MAX as i64 {
                return false;
            }
            if ms == 0 || gens == 0 || (scaled == i32::MIN as i64 && ms == -1) || (ms == i32::MIN && gens == -1) {
                return false;
            }
        }
        true
    }
}

} // verus!
