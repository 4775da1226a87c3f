//! The rules of the game over sets of packed coordinates: neighbourhoods,
//! neighbour counts and one generation step, with the counting facts the
//! incremental bookkeeping rests on.
use vstd::prelude::*;
use crate::ppair::{
    add_spec, around_dx, around_dy, hi_spec, lemma_pack_unpack, lemma_unpack_pack, lo_spec, neighbor,
    wrap_add,
};

verus! {

/// The number of `k` in `[0, n)` for which `f(k)` holds.
pub open spec fn count_where(f: spec_fn(int) -> bool, n: int) -> nat
    decreases n,
{
    if n <= 0 {
        0
    } else {
        count_where(f, n - 1) + if f(n - 1) {
            1nat
        } else {
            0nat
        }
    }
}

/// `1` for true, `0` for false.
pub open spec fn ind(b: bool) -> int {
    if b {
        1
    } else {
        0
    }
}

pub proof fn lemma_count_where_bound(f: spec_fn(int) -> bool, n: int)
    requires
        n >= 0,
    ensures
        count_where(f, n) <= n,
    decreases n,
{
    if n > 0 {
        lemma_count_where_bound(f, n - 1);
    }
}

pub proof fn lemma_count_where_mono(f: spec_fn(int) -> bool, n: int, m: int)
    requires
        0 <= n <= m,
    ensures
        count_where(f, n) <= count_where(f, m),
    decreases m,
{
    if m > n {
        lemma_count_where_mono(f, n, m - 1);
    }
}

/// Counts of pointwise-balanced predicates balance: where
/// `[f] + [h] == [g] + [i]` at every `k < n`, the counts satisfy the same.
pub proof fn lemma_count_where_balance(
    f: spec_fn(int) -> bool,
    h: spec_fn(int) -> bool,
    g: spec_fn(int) -> bool,
    i: spec_fn(int) -> bool,
    n: int,
)
    requires
        forall|k: int| 0 <= k < n ==> ind(#[trigger] f(k)) + ind(h(k)) == ind(g(k)) + ind(i(k)),
    ensures
        count_where(f, n) + count_where(h, n) == count_where(g, n) + count_where(i, n),
    decreases n,
{
    if n > 0 {
        lemma_count_where_balance(f, h, g, i, n - 1);
        assert(ind(f(n - 1)) + ind(h(n - 1)) == ind(g(n - 1)) + ind(i(n - 1)));
    }
}

/// A predicate that holds at exactly one `k0 < n` is counted once.
pub proof fn lemma_count_where_single(f: spec_fn(int) -> bool, n: int, k0: int)
    requires
        0 <= k0 < n,
        forall|k: int| 0 <= k < n ==> (#[trigger] f(k) <==> k == k0),
    ensures
        count_where(f, n) == 1,
    decreases n,
{
    if n - 1 == k0 {
        lemma_count_where_none(f, n - 1);
    } else {
        lemma_count_where_single(f, n - 1, k0);
    }
}

/// A predicate that holds at no `k < n` is not counted.
pub proof fn lemma_count_where_none(f: spec_fn(int) -> bool, n: int)
    requires
        forall|k: int| 0 <= k < n ==> !#[trigger] f(k),
    ensures
        count_where(f, n) == 0,
    decreases n,
{
    if n > 0 {
        lemma_count_where_none(f, n - 1);
    }
}

/// A predicate that holds at some `k < n` is counted at least once.
pub proof fn lemma_count_where_some(f: spec_fn(int) -> bool, n: int, k0: int)
    requires
        0 <= k0 < n,
        f(k0),
    ensures
        count_where(f, n) > 0,
    decreases n,
{
    if n - 1 != k0 {
        lemma_count_where_some(f, n - 1, k0);
    }
}

/// A predicate counted at least once holds at some `k < n`.
pub proof fn lemma_count_where_witness(f: spec_fn(int) -> bool, n: int) -> (k: int)
    requires
        count_where(f, n) > 0,
    ensures
        0 <= k < n,
        f(k),
    decreases n,
{
    if f(n - 1) {
        n - 1
    } else {
        lemma_count_where_witness(f, n - 1)
    }
}

/// What a sequence holds after a push.
pub proof fn lemma_push_contains(s: Seq<i64>, x: i64, y: i64)
    ensures
        s.push(x).contains(y) == (s.contains(y) || y == x),
{
    if s.contains(y) {
        let i = choose|i: int| 0 <= i < s.len() && s[i] == y;
        assert(s.push(x)[i] == y);
    }
    if y == x {
        assert(s.push(x)[s.len() as int] == y);
    }
    if s.push(x).contains(y) {
        let i = choose|i: int| 0 <= i < s.push(x).len() && s.push(x)[i] == y;
        if i < s.len() {
            assert(s[i] == y);
        }
    }
}

/// Pushing a new value keeps a sequence free of duplicates.
pub proof fn lemma_push_no_duplicates(s: Seq<i64>, x: i64)
    requires
        s.no_duplicates(),
        !s.contains(x),
    ensures
        s.push(x).no_duplicates(),
{
    assert forall|i: int, j: int| 0 <= i < s.push(x).len() && 0 <= j < s.push(x).len() && i != j implies s.push(x)[i] != s.push(x)[j] by {
        if i < s.len() && j < s.len() {
        } else if i < s.len() {
            assert(s[i] == s.push(x)[i]);
        } else {
            assert(s[j] == s.push(x)[j]);
        }
    }
}

/// `x` is one of the eight cells around `c`.
pub open spec fn is_neighbor(c: i64, x: i64) -> bool {
    exists|k: int| 0 <= k < 8 && #[trigger] neighbor(c, k) == x
}

/// How many of the first `n` cells around `x` are `c`.
pub open spec fn eq_count(x: i64, c: i64, n: int) -> nat {
    count_where(|k: int| neighbor(x, k) == c, n)
}

/// The number of live cells among the eight around `c`.
pub open spec fn live_neighbors(cells: Set<i64>, c: i64) -> nat {
    count_where(|k: int| cells.contains(neighbor(c, k)), 8)
}

/// Whether a cell lives in the next generation, given whether it lives now
/// and how many of its neighbours do.
pub open spec fn next_alive(alive: bool, n: nat) -> bool {
    if alive {
        n == 2 || n == 3
    } else {
        n == 3
    }
}

/// The next generation of `cells`.
pub open spec fn life_step(cells: Set<i64>) -> Set<i64> {
    Set::new(|c: i64| next_alive(cells.contains(c), live_neighbors(cells, c)))
}

/// Conway's rule (B3/S23): in the next generation a live cell stays alive
/// exactly when two or three of its eight neighbours are alive, and a dead
/// cell comes to life exactly when three are.
pub proof fn lemma_life_rule(cells: Set<i64>, c: i64)
    ensures
        cells.contains(c) ==> (life_step(cells).contains(c) <==> (live_neighbors(cells, c) == 2
            || live_neighbors(cells, c) == 3)),
        !cells.contains(c) ==> (life_step(cells).contains(c) <==> live_neighbors(cells, c) == 3),
{
}

/// The cells of the 3x3 block centred on `c`.
pub open spec fn in_block(c: i64, x: i64) -> bool {
    x == c || is_neighbor(c, x)
}

proof fn lemma_wrap_small(x: i32, d: i32, e: i32)
    requires
        -1 <= d <= 1,
        -1 <= e <= 1,
    ensures
        wrap_add(x, d) == wrap_add(x, e) ==> d == e,
        wrap_add(wrap_add(x, d), (-d) as i32) == x,
{
}

/// The coordinates of the `k`-th cell around `c`.
pub proof fn lemma_neighbor_coords(c: i64, k: int)
    requires
        0 <= k < 8,
    ensures
        hi_spec(neighbor(c, k)) == wrap_add(hi_spec(c), around_dx(k)),
        lo_spec(neighbor(c, k)) == wrap_add(lo_spec(c), around_dy(k)),
{
    lemma_unpack_pack(around_dx(k), around_dy(k));
    lemma_unpack_pack(
        wrap_add(hi_spec(c), around_dx(k)),
        wrap_add(lo_spec(c), around_dy(k)),
    );
}

/// The centre of the block around `c` is `c`.
pub proof fn lemma_block_centre(c: i64)
    ensures
        add_spec(c, 0) == c,
{
    lemma_unpack_pack(0, 0);
    assert(((0i32 as i64) << 32u64) | (((0i32) as u32) as i64) == 0i64) by (bit_vector);
    lemma_pack_unpack(c);
}

/// The eight cells around `c` are distinct and differ from `c`.
pub proof fn lemma_neighbors_distinct(c: i64, j: int, k: int)
    requires
        0 <= j < 8,
        0 <= k < 8,
    ensures
        neighbor(c, j) != c,
        j != k ==> neighbor(c, j) != neighbor(c, k),
{
    lemma_neighbor_coords(c, j);
    lemma_neighbor_coords(c, k);
    lemma_wrap_small(hi_spec(c), around_dx(j), around_dx(k));
    lemma_wrap_small(lo_spec(c), around_dy(j), around_dy(k));
    lemma_wrap_small(hi_spec(c), around_dx(j), 0);
    lemma_wrap_small(lo_spec(c), around_dy(j), 0);
    assert(wrap_add(hi_spec(c), 0) == hi_spec(c));
    assert(wrap_add(lo_spec(c), 0) == lo_spec(c));
}

/// Stepping to the `k`-th neighbour and then the opposite way comes back.
pub proof fn lemma_neighbor_back(c: i64, k: int)
    requires
        0 <= k < 8,
    ensures
        neighbor(neighbor(c, k), 7 - k) == c,
{
    let x = neighbor(c, k);
    lemma_neighbor_coords(c, k);
    lemma_neighbor_coords(x, 7 - k);
    lemma_wrap_small(hi_spec(c), around_dx(k), around_dx(k));
    lemma_wrap_small(lo_spec(c), around_dy(k), around_dy(k));
    assert(around_dx(7 - k) == -around_dx(k));
    assert(around_dy(7 - k) == -around_dy(k));
    lemma_unpack_pack(hi_spec(c), lo_spec(c));
    lemma_pack_unpack(c);
    lemma_pack_unpack(neighbor(x, 7 - k));
}

/// Being neighbours is symmetric.
pub proof fn lemma_is_neighbor_symmetric(c: i64, x: i64)
    ensures
        is_neighbor(c, x) == is_neighbor(x, c),
{
    if is_neighbor(c, x) {
        let k = choose|k: int| 0 <= k < 8 && #[trigger] neighbor(c, k) == x;
        lemma_neighbor_back(c, k);
        assert(neighbor(x, 7 - k) == c);
    }
    if is_neighbor(x, c) {
        let k = choose|k: int| 0 <= k < 8 && #[trigger] neighbor(x, k) == c;
        lemma_neighbor_back(x, k);
        assert(neighbor(c, 7 - k) == x);
    }
}

/// `c` appears among the eight cells around `x` once if it is a neighbour of
/// `x`, else not at all.
pub proof fn lemma_eq_count(x: i64, c: i64)
    ensures
        eq_count(x, c, 8) == ind(is_neighbor(x, c)),
{
    let f = |k: int| neighbor(x, k) == c;
    if is_neighbor(x, c) {
        let k0 = choose|k: int| 0 <= k < 8 && #[trigger] neighbor(x, k) == c;
        assert forall|k: int| 0 <= k < 8 implies (#[trigger] f(k) <==> k == k0) by {
            lemma_neighbors_distinct(x, k, k0);
        }
        lemma_count_where_single(f, 8, k0);
    } else {
        lemma_count_where_none(f, 8);
    }
}

/// At most eight neighbours are alive.
pub proof fn lemma_live_neighbors_bound(cells: Set<i64>, c: i64)
    ensures
        live_neighbors(cells, c) <= 8,
{
    lemma_count_where_bound(|k: int| cells.contains(neighbor(c, k)), 8);
}

/// The number of pairs `(i, k)` with `neighbor(s[i], k) == c`.
pub open spec fn seq_hits(s: Seq<i64>, c: i64) -> nat
    decreases s.len(),
{
    if s.len() == 0 {
        0
    } else {
        seq_hits(s.drop_last(), c) + eq_count(s.last(), c, 8)
    }
}

/// Counting the steps from a list of distinct cells that land on `c` is
/// counting the cells around `c` that are in the list.
pub proof fn lemma_seq_hits(s: Seq<i64>, c: i64)
    requires
        s.no_duplicates(),
    ensures
        seq_hits(s, c) == count_where(|k: int| s.contains(neighbor(c, k)), 8),
    decreases s.len(),
{
    let f = |k: int| s.contains(neighbor(c, k));
    if s.len() == 0 {
        lemma_count_where_none(f, 8);
    } else {
        let t = s.drop_last();
        let x = s.last();
        assert(s =~= t.push(x));
        assert(t.no_duplicates());
        assert(!t.contains(x)) by {
            if t.contains(x) {
                let i = choose|i: int| 0 <= i < t.len() && t[i] == x;
                assert(s[i] == s[s.len() - 1]);
            }
        }
        lemma_seq_hits(t, c);
        let g = |k: int| t.contains(neighbor(c, k));
        let h = |k: int| false;
        let i = |k: int| neighbor(c, k) == x;
        assert forall|k: int| 0 <= k < 8 implies ind(#[trigger] f(k)) + ind(h(k)) == ind(g(k)) + ind(i(k)) by {
            let y = neighbor(c, k);
            assert(s.contains(y) == (t.contains(y) || y == x));
        }
        lemma_count_where_balance(f, h, g, i, 8);
        lemma_count_where_none(h, 8);
        lemma_eq_count(c, x);
        lemma_eq_count(x, c);
        lemma_is_neighbor_symmetric(c, x);
    }
}

/// The steps from a list of distinct cells land on any one cell at most eight
/// times.
pub proof fn lemma_seq_hits_bound(s: Seq<i64>, c: i64)
    requires
        s.no_duplicates(),
    ensures
        seq_hits(s, c) <= 8,
{
    lemma_seq_hits(s, c);
    lemma_count_where_bound(|k: int| s.contains(neighbor(c, k)), 8);
}

} // verus!
